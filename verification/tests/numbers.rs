use overmatch::float::{F32, F64};
use overmatch::sorting::sort_rows;
use overmatch::text::{decimal, is_before, parse_whole, same_text, starts_with, Table};
use overmatch::vector::{DVec3, Quat, Vec3};

fn num(x: f32) -> F32 {
    F32::from_bits(x.to_bits())
}

fn float(x: F32) -> f32 {
    f32::from_bits(x.to_bits())
}

fn dnum(x: f64) -> F64 {
    F64::from_bits(x.to_bits())
}

fn double(x: F64) -> f64 {
    f64::from_bits(x.to_bits())
}

struct Words {
    state: u64,
}

impl Words {
    fn next(&mut self) -> u64 {
        self.state = self.state.wrapping_add(0x9e37_79b9_7f4a_7c15);
        let mut z = self.state;
        z = (z ^ (z >> 30)).wrapping_mul(0xbf58_476d_1ce4_e5b9);
        z = (z ^ (z >> 27)).wrapping_mul(0x94d0_49bb_1331_11eb);
        z ^ (z >> 31)
    }

    /// A single, now of any size and now near one.
    fn single(&mut self) -> f32 {
        let w = self.next();
        let bits = w as u32;
        match (w >> 32) % 4 {
            0 => f32::from_bits(bits),
            1 => f32::from_bits((bits & 0x807f_ffff) | 0x3f80_0000),
            2 => f32::from_bits((bits & 0x81ff_ffff) | 0x3e00_0000),
            _ => f32::from_bits(bits & 0x80ff_ffff),
        }
    }

    fn double(&mut self) -> f64 {
        let w = self.next();
        match self.next() % 4 {
            0 => f64::from_bits(w),
            1 => f64::from_bits((w & 0x800f_ffff_ffff_ffff) | 0x3ff0_0000_0000_0000),
            2 => f64::from_bits((w & 0x803f_ffff_ffff_ffff) | 0x3fc0_0000_0000_0000),
            _ => f64::from_bits(w & 0x801f_ffff_ffff_ffff),
        }
    }
}

fn same(x: F32, y: f32) -> bool {
    float(x).to_bits() == y.to_bits() || (float(x).is_nan() && y.is_nan())
}

fn same_double(x: F64, y: f64) -> bool {
    double(x).to_bits() == y.to_bits() || (double(x).is_nan() && y.is_nan())
}

const CORNERS: [u32; 16] = [
    0,
    0x8000_0000,
    1,
    0x8000_0001,
    0x007f_ffff,
    0x0080_0000,
    0x3f80_0000,
    0xbf80_0000,
    0x3f80_0001,
    0x7f7f_ffff,
    0xff7f_ffff,
    0x7f80_0000,
    0xff80_0000,
    0x7fc0_0000,
    0x4b80_0000,
    0x3eaa_aaab,
];

fn check_single(x: f32, y: f32) {
    let (a, b) = (num(x), num(y));
    assert!(same(a.plus(b), x + y), "{x:?} + {y:?}");
    assert!(same(a.minus(b), x - y), "{x:?} - {y:?}");
    assert!(same(a.times(b), x * y), "{x:?} * {y:?}");
    assert!(same(a.over(b), x / y), "{x:?} / {y:?}");
    assert!(same(a.sqrt(), x.sqrt()), "sqrt {x:?}");
    assert_eq!(a.lt(b), x < y);
    assert_eq!(a.le(b), x <= y);
    assert_eq!(a.same(b), x == y);
    assert_eq!(a.is_finite(), x.is_finite());
    assert_eq!(a.not_a_number(), x.is_nan());
    assert!(same_double(a.to_double(), x as f64), "{x:?} as double");
    assert_eq!(a.floor(), x.floor() as i32, "floor {x:?}");
    assert!(same(a.abs(), x.abs()));
    assert!(same(a.negated(), -x));
}

fn check_double(x: f64, y: f64) {
    let (a, b) = (dnum(x), dnum(y));
    assert!(same_double(a.plus(b), x + y), "{x:?} + {y:?}");
    assert!(same_double(a.minus(b), x - y), "{x:?} - {y:?}");
    assert!(same_double(a.times(b), x * y), "{x:?} * {y:?}");
    assert!(same_double(a.over(b), x / y), "{x:?} / {y:?}");
    assert!(same_double(a.sqrt(), x.sqrt()), "sqrt {x:?}");
    assert_eq!(a.lt(b), x < y);
    assert_eq!(a.le(b), x <= y);
    assert!(same(a.to_single(), x as f32), "{x:?} as single");
}

#[test]
fn singles_agree_with_the_machine() {
    for x in CORNERS {
        for y in CORNERS {
            check_single(f32::from_bits(x), f32::from_bits(y));
        }
    }
    let mut words = Words { state: 7 };
    for _ in 0..20_000 {
        check_single(words.single(), words.single());
    }
}

#[test]
fn doubles_agree_with_the_machine() {
    for x in CORNERS {
        for y in CORNERS {
            check_double(f32::from_bits(x) as f64, f32::from_bits(y) as f64);
        }
    }
    let mut words = Words { state: 11 };
    for _ in 0..10_000 {
        check_double(words.double(), words.double());
    }
}

#[test]
fn ties_round_to_the_even_neighbour() {
    assert_eq!(float(num(16_777_216.0).plus(num(1.0))), 16_777_216.0);
    assert_eq!(float(num(16_777_218.0).plus(num(1.0))), 16_777_220.0);
    assert_eq!(float(F32::from_whole(16_777_217)), 16_777_216.0);
    assert_eq!(double(F64::from_whole(u64::MAX)), u64::MAX as f64);
    for n in [0_u64, 1, 3, 97, 1 << 24, (1 << 24) + 3, u64::MAX] {
        assert_eq!(float(F32::from_whole(n)), n as f32);
        assert_eq!(double(F64::from_whole(n)), n as f64);
    }
}

#[test]
fn the_larger_and_the_smaller_pass_over_what_is_no_number() {
    let nan = num(f32::NAN);
    assert_eq!(float(nan.max(num(2.0))), 2.0);
    assert_eq!(float(nan.min(num(2.0))), 2.0);
    assert_eq!(float(num(2.0).max(num(3.0))), 3.0);
    assert_eq!(float(num(2.0).min(num(3.0))), 2.0);
    assert_eq!(double(dnum(f64::NAN).max(dnum(2.0))), 2.0);
    assert_eq!(double(dnum(5.0).min(dnum(2.0))), 2.0);
}

#[test]
fn bits_order_as_numbers_do() {
    let line = [f32::NEG_INFINITY, -2.5, -1.0e-40, -0.0, 0.0, 1.0e-40, 1.0, 3.0e38, f32::INFINITY];
    for pair in line.windows(2) {
        assert!(num(pair[0]).order_key() < num(pair[1]).order_key(), "{pair:?}");
        assert!(dnum(pair[0] as f64).order_key() < dnum(pair[1] as f64).order_key(), "{pair:?}");
    }
}

fn vector(x: f32, y: f32, z: f32) -> Vec3 {
    Vec3 { x: num(x), y: num(y), z: num(z) }
}

#[test]
fn vectors_add_scale_and_measure() {
    let a = vector(1.0, -2.0, 3.0);
    let b = vector(0.5, 4.0, -1.0);
    assert_eq!(a.plus(b), vector(1.5, 2.0, 2.0));
    assert_eq!(a.minus(b), vector(0.5, -6.0, 4.0));
    assert_eq!(a.times(num(2.0)), vector(2.0, -4.0, 6.0));
    assert_eq!(a.over(num(2.0)), vector(0.5, -1.0, 1.5));
    assert_eq!(float(a.dot(b)), -10.5);
    assert_eq!(a.cross(b), vector(-10.0, 2.5, 5.0));
    assert_eq!(float(vector(2.0, 3.0, 6.0).length()), 7.0);
    assert_eq!(a.abs(), vector(1.0, 2.0, 3.0));
    assert_eq!(float(a.max_element()), 3.0);
    assert_eq!(a.min(b), vector(0.5, -2.0, -1.0));
    assert_eq!(a.max(b), vector(1.0, 4.0, 3.0));
    assert_eq!(a.negated(), vector(-1.0, 2.0, -3.0));
    assert!(a.same(a) && !a.same(b));
    assert_eq!(Vec3::splat(num(4.0)), vector(4.0, 4.0, 4.0));
    assert_eq!(vector(0.0, 0.0, 0.0).normalize_or_zero(), Vec3::zero());
    assert_eq!(vector(0.0, 0.5, 0.0).normalize_or_zero(), Vec3::unit_y());
    assert_eq!(overmatch::vector::unit_or_zero(vector(1.0e-9, 0.0, 0.0)), Vec3::zero());
    assert_eq!(overmatch::vector::unit_or_zero(vector(4.0, 0.0, 0.0)), Vec3::unit_x());
}

#[test]
fn double_vectors_go_there_and_back() {
    let a = vector(1.0, -2.0, 3.0).to_double();
    let b = vector(0.5, 4.0, -1.0).to_double();
    assert_eq!(a.minus(b).to_single(), vector(0.5, -6.0, 4.0));
    assert_eq!(double(a.dot(b)), -10.5);
    assert_eq!(a.cross(b).to_single(), vector(-10.0, 2.5, 5.0));
    assert_eq!(DVec3::zero().normalize_or_zero(), DVec3::zero());
    assert_eq!(vector(0.0, 0.0, -8.0).to_double().normalize_or_zero().to_single(), vector(0.0, 0.0, -1.0));
}

#[test]
fn a_quarter_turn_carries_one_axis_to_another() {
    let half = 0.5_f32.sqrt();
    let turn = Quat { x: num(0.0), y: num(half), z: num(0.0), w: num(half) };
    let turned = turn.rotate(vector(0.0, 0.0, 1.0));
    assert!((float(turned.x) - 1.0).abs() < 1e-6 && float(turned.z).abs() < 1e-6);
    let back = turn.inverse().rotate(turned);
    assert!((float(back.z) - 1.0).abs() < 1e-6 && float(back.x).abs() < 1e-6);
    assert_eq!(Quat::identity().rotate(vector(1.0, 2.0, 3.0)), vector(1.0, 2.0, 3.0));
}

#[test]
fn rows_sort_by_their_first_difference() {
    let rows = vec![vec![2, 1], vec![1, 9], vec![2, 0], vec![1, 9]];
    let order = sort_rows(&rows);
    let sorted: Vec<Vec<u64>> = order.iter().map(|i| rows[*i].clone()).collect();
    assert_eq!(sorted, vec![vec![1, 9], vec![1, 9], vec![2, 0], vec![2, 1]]);
    assert_eq!(order, vec![1, 3, 2, 0], "rows that are alike keep their order");
}

#[test]
fn names_compare_by_their_first_difference() {
    let before = |a: &str, b: &str| is_before(&a.to_string(), &b.to_string());
    assert!(before("Ammo_L_0", "Ammo_L_1"));
    assert!(before("Driver", "Drivers"));
    assert!(!before("Drivers", "Driver"));
    assert!(!before("Gunner", "Gunner"));
    assert!(before("Z", "a"));
    assert!(starts_with("Hull_UFP", "Hull_"));
    assert!(!starts_with("Hull", "Hull_"));
    assert!(same_text("same", "same"));
    assert!(!same_text("same", "sam"));
    assert!(!same_text("same", "sane"));
}

#[test]
fn decimals_read_back() {
    for n in [0, 7, 10, 409, u64::MAX] {
        assert_eq!(decimal(n), n.to_string());
        assert_eq!(parse_whole(&decimal(n)), Some(n));
    }
    for text in ["", "+", "-1", " 1", "1 ", "1_000", "18446744073709551616", "99999999999999999999999", "\u{0661}"] {
        assert_eq!(parse_whole(text), text.parse::<u64>().ok(), "{text:?}");
        assert_eq!(parse_whole(text), None, "{text:?}");
    }
    assert_eq!(parse_whole("+42"), Some(42));
    assert_eq!(parse_whole("0007"), Some(7));
}

#[test]
fn a_table_lists_its_names_in_order() {
    let mut table: Table<u64> = Table::new();
    assert_eq!(table.len(), 0);
    for (name, value) in [("Loader", 3), ("Driver", 1), ("Gunner", 2), ("Driver", 9)] {
        table.set(&name.to_string(), value);
    }
    let rows: Vec<(String, u64)> = table.rows().clone();
    assert_eq!(rows, vec![("Driver".to_string(), 9), ("Gunner".to_string(), 2), ("Loader".to_string(), 3)]);
    assert_eq!(table.get(&"Gunner".to_string()), Some(2));
    assert_eq!(table.get(&"Commander".to_string()), None);
    assert_eq!(table.len(), 3);
}
