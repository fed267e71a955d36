use overmatch::ballistics::collect::triangle::{
    cross_triangle, edge_area, edge_area_exact, edge_area_f64, edge_area_slack, RayShear, Triangle, TriangleClaim,
};
use overmatch::ballistics::collect::{
    collect, convex_probes, march_eps, place, prune_margin, swept_aabb, BallisticSurfaces, Candidate, Collider,
    ConvexCasts, Corridor, Shape, TriMesh, MAX_FACES,
};
use overmatch::ballistics::walk::ray::walk_ray;
use overmatch::ballistics::walk::table::VolumeTable;
use overmatch::ballistics::walk::vocabulary::{Contact, Entity, FaceHit, RayCorridor, ShellKey, WalkError, WalkLaws};
use overmatch::float::{F32, F64};
use overmatch::vector::{Quat, Vec3};

fn num(x: f32) -> F32 {
    F32::from_bits(x.to_bits())
}

fn float(x: F32) -> f32 {
    f32::from_bits(x.to_bits())
}

fn wide(x: F64) -> f64 {
    f64::from_bits(x.to_bits())
}

type V = [f32; 3];

fn vec3(v: V) -> Vec3 {
    Vec3 { x: num(v[0]), y: num(v[1]), z: num(v[2]) }
}

fn floats(v: Vec3) -> V {
    [float(v.x), float(v.y), float(v.z)]
}

fn plus(a: V, b: V) -> V {
    [a[0] + b[0], a[1] + b[1], a[2] + b[2]]
}

fn minus(a: V, b: V) -> V {
    [a[0] - b[0], a[1] - b[1], a[2] - b[2]]
}

fn times(a: V, s: f32) -> V {
    [a[0] * s, a[1] * s, a[2] * s]
}

fn dot(a: V, b: V) -> f32 {
    a[0] * b[0] + a[1] * b[1] + a[2] * b[2]
}

fn cross(a: V, b: V) -> V {
    [a[1] * b[2] - b[1] * a[2], a[2] * b[0] - b[2] * a[0], a[0] * b[1] - b[0] * a[1]]
}

fn length(a: V) -> f32 {
    dot(a, a).sqrt()
}

fn normalize(a: V) -> V {
    times(a, 1.0 / length(a))
}

fn triangle(a: V, b: V, c: V) -> Triangle {
    Triangle { a: vec3(a), b: vec3(b), c: vec3(c) }
}

fn claim(origin: V, axis: V, a: V, b: V, c: V) -> Option<TriangleClaim> {
    cross_triangle(&RayShear::new(vec3(origin), vec3(axis)), vec3(axis), &triangle(a, b, c))
}

fn tri(o: V, d: V) -> Option<TriangleClaim> {
    claim(o, d, [0.0, 0.0, 1.0], [1.0, 0.0, 1.0], [0.0, 1.0, 1.0])
}

#[test]
fn a_head_on_crossing_reports_its_distance_and_winding_normal() {
    let claim = tri([0.1, 0.1, 0.0], [0.0, 0.0, 1.0]).expect("the ray crosses it");
    let (t, normal) = (float(claim.t), floats(claim.normal));
    assert!((t - 1.0).abs() < 1.0e-6, "{t}");
    assert!(length(minus(normal, [0.0, 0.0, 1.0])) < 1.0e-6, "{normal:?}");
    assert!(dot(normal, [0.0, 0.0, 1.0]) > 0.0);
}

#[test]
fn a_crossing_from_behind_reports_the_same_winding_normal() {
    let claim = tri([0.1, 0.1, 2.0], [0.0, 0.0, -1.0]).expect("the ray crosses it");
    let (t, normal) = (float(claim.t), floats(claim.normal));
    assert!((t - 1.0).abs() < 1.0e-6, "{t}");
    assert!(length(minus(normal, [0.0, 0.0, 1.0])) < 1.0e-6, "{normal:?}");
}

#[test]
fn a_ray_missing_the_triangle_reports_nothing() {
    assert!(tri([0.9, 0.9, 0.0], [0.0, 0.0, 1.0]).is_none(), "outside");
    assert!(tri([-0.1, 0.1, 0.0], [0.0, 0.0, 1.0]).is_none(), "u < 0");
}

#[test]
fn a_ray_parallel_to_the_plane_reports_nothing() {
    assert!(tri([0.1, 0.1, 1.0], [1.0, 0.0, 0.0]).is_none());
}

#[test]
fn a_crossing_behind_the_origin_keeps_its_negative_distance() {
    let t = float(tri([0.1, 0.1, 2.0], [0.0, 0.0, 1.0]).expect("the plane is behind it").t);
    assert!(t < 0.0, "{t}");
}

const CORNERS: [V; 8] = [
    [-1.0, -1.0, -1.0],
    [1.0, -1.0, -1.0],
    [1.0, 1.0, -1.0],
    [-1.0, 1.0, -1.0],
    [-1.0, -1.0, 1.0],
    [1.0, -1.0, 1.0],
    [1.0, 1.0, 1.0],
    [-1.0, 1.0, 1.0],
];

struct Mesh {
    mesh: TriMesh,
    surfaces: BallisticSurfaces,
}

fn mesh(vertices: &[V], indices: &[[u32; 3]]) -> Mesh {
    let at = |i: u32| vec3(vertices[i as usize]);
    Mesh {
        mesh: TriMesh {
            triangles: indices.iter().map(|t| Triangle { a: at(t[0]), b: at(t[1]), c: at(t[2]) }).collect(),
        },
        surfaces: BallisticSurfaces {
            shells: vec![0; indices.len()],
            corners: indices.iter().map(|t| (t[0], t[1], t[2])).collect(),
            scale: vec3([1.0, 1.0, 1.0]),
        },
    }
}

fn trimesh_box(size: V) -> Mesh {
    let h = times(size, 0.5);
    let vertices: Vec<V> = CORNERS.iter().map(|c| [c[0] * h[0], c[1] * h[1], c[2] * h[2]]).collect();
    let indices = [
        [0, 3, 2],
        [0, 2, 1],
        [4, 5, 6],
        [4, 6, 7],
        [0, 1, 5],
        [0, 5, 4],
        [3, 7, 6],
        [3, 6, 2],
        [0, 4, 7],
        [0, 7, 3],
        [1, 2, 6],
        [1, 6, 5],
    ];
    mesh(&vertices, &indices)
}

fn node() -> Entity {
    Entity { id: 1 }
}

fn posed<'a>(mesh: &'a Mesh) -> Collider<'a> {
    Collider {
        position: vec3([0.0, 0.0, 0.0]),
        rotation: Quat::identity(),
        scale: vec3([1.0, 1.0, 1.0]),
        shape: Shape::TriMesh(&mesh.mesh, Some(&mesh.surfaces)),
    }
}

fn gather(collider: Option<Collider>, origin: V, axis: V, length: f32, seeded: Vec<ShellKey>) -> Result<Vec<FaceHit>, WalkError> {
    let laws = WalkLaws::default();
    let mut out = Vec::new();
    collect(
        &Corridor {
            anchor: vec3([0.0, 0.0, 0.0]),
            origin: vec3(origin),
            axis: vec3(axis),
            length: num(length),
            seeded: &seeded,
            laws: &laws,
        },
        &vec![Candidate { node: node(), primitive: node(), collider }],
        &mut out,
    )?;
    Ok(out)
}

fn trimesh_hits(mesh: &Mesh, origin: V, axis: V, length: f32) -> Vec<FaceHit> {
    gather(Some(posed(mesh)), origin, axis, length, Vec::new()).expect("the fixture collects cleanly")
}

#[test]
fn a_face_the_origin_sits_a_hair_past_is_still_collected() {
    let mesh = trimesh_box([3.0, 3.0, 0.05]);
    let face = 0.025_f32;
    let ulp = f32::from_bits(face.to_bits() + 1) - face;
    for past in [0.0, 1.0, 8.0, 64.0] {
        let hits = trimesh_hits(&mesh, [0.1, -0.0003, face - past * ulp], [0.0, 0.0, -1.0], 0.5);
        let entries: Vec<&FaceHit> =
            hits.iter().filter(|hit| dot(floats(hit.true_normal), [0.0, 0.0, -1.0]) < 0.0).collect();
        assert_eq!(
            entries.len(),
            1,
            "the entry face is collected though the origin sits {past} ULP past it: {hits:?}",
        );
        assert_eq!(wide(entries[0].t), 0.0, "and it lands at the corridor origin");
    }
}

#[test]
fn the_face_the_march_stepped_past_is_not_re_collected() {
    let mesh = trimesh_box([3.0, 3.0, 0.05]);
    let resumed = -0.025_f32 - float(march_eps());
    let hits = trimesh_hits(&mesh, [0.1, -0.0003, resumed], [0.0, 0.0, -1.0], 0.5);
    assert!(hits.is_empty(), "the plate behind the resumed corridor is gone, not re-entered: {hits:?}");
}

#[test]
fn admission_honours_the_seed_contract() {
    let laws = WalkLaws::default();
    let placed = |t: f32, seeded: bool| place(num(t), num(1.0), seeded, &laws).map(float);
    assert_eq!(placed(0.5, false), Some(0.5));
    assert_eq!(placed(1.0, false), None);
    assert_eq!(placed(-1.0e-7, true), None);
    assert_eq!(placed(-1.0e-7, false), Some(0.0));
    assert_eq!(placed(f32::NAN, false), None);
    for behind in [-1.0e-3, -0.05, -1.0] {
        assert_eq!(placed(behind, false), None, "{behind} m behind the origin is traversed, not underfoot");
    }
}

const SWEEP_SIZE: V = [0.4127, 0.4127, 0.1013];
const SWEEP_DIR: V = [0.4871, -0.5133, -1.0];
const SWEEP_STANDOFF: f32 = 6.0837;
const SWEEP_REACH: i32 = 128;

/// The containment test that anchors every edge on the triangle's first vertex.
fn barycentric_contains(origin: V, axis: V, a: V, b: V, c: V) -> bool {
    let e1 = minus(b, a);
    let e2 = minus(c, a);
    let det = -dot(axis, cross(e1, e2));
    if det.abs() < 1.0e-12 {
        return false;
    }
    let dao = cross(minus(origin, a), axis);
    let u = dot(e2, dao) / det;
    let v = -dot(e1, dao) / det;
    !(u < 0.0 || v < 0.0 || u + v > 1.0)
}

fn sweep_vertices() -> Vec<V> {
    let h = times(SWEEP_SIZE, 0.5);
    let half = |angle: f32| (angle * 0.5).sin_cos();
    let (sy, cy) = half(0.7137);
    let (sx, cx) = half(0.3119);
    let (sz, cz) = half(0.1171);
    let (cc, cs, sc, ss) = (cz * cy, cz * sy, sz * cy, sz * sy);
    let rotation = Quat {
        x: num(cx * ss + sx * cc),
        y: num(cx * cs - sx * sc),
        z: num(cx * sc - sx * cs),
        w: num(cx * cc + sx * ss),
    };
    CORNERS.iter().map(|c| floats(rotation.rotate(vec3([c[0] * h[0], c[1] * h[1], c[2] * h[2]])))).collect()
}

fn sweep_sides() -> Vec<[u32; 3]> {
    vec![
        [0, 3, 2],
        [0, 2, 1],
        [0, 1, 5],
        [0, 5, 4],
        [3, 7, 6],
        [3, 6, 2],
        [0, 4, 7],
        [0, 7, 3],
        [1, 2, 6],
        [1, 6, 5],
    ]
}

fn sweep_origins(target: V, axis: V, reach: i32) -> impl Iterator<Item = V> {
    let base = minus(target, times(axis, SWEEP_STANDOFF));
    (-reach..=reach).flat_map(move |i| {
        (-reach..=reach).map(move |j| [ulp_step(base[0], i), ulp_step(base[1], j), base[2]])
    })
}

fn ulp_step(x: f32, steps: i32) -> f32 {
    f32::from_bits((x.to_bits() as i32 + steps) as u32)
}

#[test]
fn a_ray_on_a_shared_edge_is_claimed_by_one_of_the_two_triangles() {
    let v = sweep_vertices();
    let axis = normalize(SWEEP_DIR);
    let target = plus(v[4], times(minus(v[6], v[4]), 0.5713));
    let mut lost = 0;
    let mut retired_lost = 0;
    let mut total = 0;
    let (near, far) = (triangle(v[4], v[5], v[6]), triangle(v[6], v[7], v[4]));
    for origin in sweep_origins(target, axis, SWEEP_REACH) {
        let shear = RayShear::new(vec3(origin), vec3(axis));
        if cross_triangle(&shear, vec3(axis), &near).is_none() && cross_triangle(&shear, vec3(axis), &far).is_none() {
            lost += 1;
        }
        if !barycentric_contains(origin, axis, v[4], v[5], v[6]) && !barycentric_contains(origin, axis, v[6], v[7], v[4])
        {
            retired_lost += 1;
        }
        total += 1;
    }
    assert_eq!(lost, 0, "{lost} of {total} rays fell between the two triangles");
    assert!(retired_lost > 0, "the sweep is not crossing the edge it was built to cross");
}

fn sweep_walks(mesh: &Mesh, origin: V, axis: V) -> Result<usize, WalkError> {
    let length = SWEEP_STANDOFF * 2.0;
    let hits = trimesh_hits(mesh, origin, axis, length);
    let walk = walk_ray(
        0,
        &RayCorridor {
            anchor: vec3([0.0, 0.0, 0.0]),
            origin: vec3(origin),
            axis: vec3(axis),
            length: num(length),
            initial_presence: Vec::new(),
            hits,
        },
        &VolumeTable::new(vec![(node(), num(1.0))]).expect("a usable factor"),
        &WalkLaws::default(),
    )?;
    Ok(walk.shells.first().map_or(0, |presence| presence.spans.len()))
}

#[test]
fn a_shared_edge_crossing_resolves_into_one_interval() {
    let vertices = sweep_vertices();
    let mut indices = sweep_sides();
    indices.extend([[4, 5, 6], [6, 7, 4]]);
    let mesh = mesh(&vertices, &indices);
    let axis = normalize(SWEEP_DIR);
    let target = plus(vertices[4], times(minus(vertices[6], vertices[4]), 0.5713));
    for origin in sweep_origins(target, axis, SWEEP_REACH) {
        let spans = sweep_walks(&mesh, origin, axis).unwrap_or_else(|error| panic!("origin {origin:?}: {error:?}"));
        assert_eq!(spans, 1, "origin {origin:?} crossed the box once");
    }
}

#[test]
fn a_t_junction_cracks_only_within_its_own_rounding() {
    let mut vertices = sweep_vertices();
    let (v4, v6) = (vertices[4], vertices[6]);
    vertices.push(plus(v4, times(minus(v6, v4), 0.3719)));
    let mut indices = sweep_sides();
    indices.extend([[6, 7, 4], [4, 5, 8], [8, 5, 6]]);
    let mesh = mesh(&vertices, &indices);
    let axis = normalize(SWEEP_DIR);
    let target = vertices[8];
    let mut cracked = 0;
    let mut total = 0;
    for origin in sweep_origins(target, axis, SWEEP_REACH) {
        match sweep_walks(&mesh, origin, axis) {
            Ok(spans) => assert_eq!(spans, 1, "origin {origin:?} crossed the box once"),
            Err(_) => cracked += 1,
        }
        total += 1;
    }
    assert!(
        cracked * 100 <= total,
        "{cracked} of {total} rays fell through the T-junction: that is a hole, not a rounding sliver",
    );
}

#[test]
fn the_sign_of_a_sheared_edge_area_is_the_exact_one_or_zero() {
    let mut cancelled = 0u32;
    let mut checked = 0u32;
    for (x, y) in [
        (0.6127f32, 0.7903f32),
        (1.4813, 0.5171),
        (0.25, 2.0),
        (3.7137, -1.1071),
        (0.5, 0.70710677),
    ] {
        let p = (num(x), num(y));
        for i in -48..=48i32 {
            for j in -48..=48i32 {
                let q = (num(ulp_step(-x, i)), num(ulp_step(-y, j)));
                let area = float(edge_area(p, q));
                let exact = wide(edge_area_exact(p, q));
                checked += 1;
                if area == 0.0 {
                    cancelled += 1;
                    continue;
                }
                assert_eq!(area > 0.0, exact > 0.0, "p {p:?} q {q:?}: f32 {area:e} against {exact:e}");
                assert!(exact != 0.0, "p {p:?} q {q:?}: an exact zero read as nonzero");
            }
        }
    }
    assert!(cancelled > 0, "{checked} pairs and not one cancellation: the sweep is not crossing the band");
}

#[test]
fn a_sliver_face_in_a_closed_surface_loses_no_crossing() {
    let mut vertices = sweep_vertices();
    let (v4, v5, v6) = (vertices[4], vertices[5], vertices[6]);
    let foot = plus(v4, times(minus(v6, v4), 0.4137));
    let inner = plus(foot, times(normalize(minus(v5, foot)), 1.0e-7));
    vertices.push(inner);
    let mut indices = sweep_sides();
    indices.extend([[6, 7, 4], [4, 5, 8], [5, 6, 8], [6, 4, 8]]);
    let mesh = mesh(&vertices, &indices);
    let axis = normalize(SWEEP_DIR);
    let (a, b, c) = (vertices[6], vertices[4], vertices[8]);
    let target = plus(plus(times(a, 0.170), times(b, 0.238)), times(c, 0.592));
    let mut retired_lost = 0;
    let mut total = 0;
    for origin in sweep_origins(target, axis, SWEEP_REACH) {
        let spans = sweep_walks(&mesh, origin, axis).unwrap_or_else(|error| panic!("origin {origin:?}: {error:?}"));
        assert_eq!(spans, 1, "origin {origin:?} crossed the box once");
        let fan = [[a, b, c], [b, v5, c], [v5, a, c]];
        let shear = RayShear::new(vec3(origin), vec3(axis));
        let retired = fan.iter().filter(|t| barycentric_contains(origin, axis, t[0], t[1], t[2])).count();
        if retired == 0 {
            let shipped = fan
                .iter()
                .filter(|t| cross_triangle(&shear, vec3(axis), &triangle(t[0], t[1], t[2])).is_some())
                .count();
            if shipped > 0 {
                retired_lost += 1;
            }
        }
        total += 1;
    }
    assert!(retired_lost > 0, "the sweep of {total} rays is not crossing the sliver");
}

fn moller_trumbore_f64(origin: [f64; 3], axis: [f64; 3], a: [f64; 3], b: [f64; 3], c: [f64; 3]) -> Option<f64> {
    let minus = |a: [f64; 3], b: [f64; 3]| [a[0] - b[0], a[1] - b[1], a[2] - b[2]];
    let dot = |a: [f64; 3], b: [f64; 3]| a[0] * b[0] + a[1] * b[1] + a[2] * b[2];
    let cross = |a: [f64; 3], b: [f64; 3]| {
        [a[1] * b[2] - b[1] * a[2], a[2] * b[0] - b[2] * a[0], a[0] * b[1] - b[0] * a[1]]
    };
    let (e1, e2) = (minus(b, a), minus(c, a));
    let pvec = cross(axis, e2);
    let det = dot(e1, pvec);
    if det.abs() < 1.0e-18 {
        return None;
    }
    let inv = 1.0 / det;
    let tvec = minus(origin, a);
    let u = dot(tvec, pvec) * inv;
    if !(0.0..=1.0).contains(&u) {
        return None;
    }
    let qvec = cross(tvec, e1);
    let v = dot(axis, qvec) * inv;
    if v < 0.0 || u + v > 1.0 {
        return None;
    }
    Some(dot(e2, qvec) * inv)
}

fn widened(v: V) -> [f64; 3] {
    [v[0] as f64, v[1] as f64, v[2] as f64]
}

#[test]
fn a_triangle_of_subnormal_and_huge_corners_is_declined() {
    let denormal = f32::from_bits(1);
    let a = [-64.0 * denormal, -64.0 * denormal, denormal];
    let b = [1.0e10, 10_017_928_192.0, 0.0];
    let c = [-2.0e10, -1.0e10, 0.0];
    let axis = [0.3, 0.4, 0.866_025_4];
    let origin = [0.0, 0.0, 0.0];
    let reference = moller_trumbore_f64(widened(origin), widened(axis), widened(a), widened(b), widened(c));
    assert!(reference.is_some(), "the triangle must still be a crossing in exact arithmetic");
    assert!(claim(origin, axis, a, b, c).is_none());
}

#[test]
fn a_ray_inside_the_silhouette_keeps_its_chord() {
    let vertices = sweep_vertices();
    let mut indices = sweep_sides();
    indices.extend([[4, 5, 6], [6, 7, 4]]);
    let axis = normalize(SWEEP_DIR);
    let axis64 = widened(axis);
    let at = |i: u32| vertices[i as usize];
    let triangles: Vec<Triangle> = indices.iter().map(|t| triangle(at(t[0]), at(t[1]), at(t[2]))).collect();
    let (mut chorded, mut lost, mut halved) = (0u32, 0u32, 0u32);
    let (mut over, mut under) = (0u32, 0u32);
    let mut widest = 0.0f64;
    for origin in sweep_origins(vertices[4], axis, 256) {
        let shear = RayShear::new(vec3(origin), vec3(axis));
        let mut exact: Vec<f64> = Vec::new();
        let mut shipped = 0u32;
        for (t, tri) in indices.iter().zip(&triangles) {
            let reference = moller_trumbore_f64(
                widened(origin),
                axis64,
                widened(at(t[0])),
                widened(at(t[1])),
                widened(at(t[2])),
            );
            let claimed = cross_triangle(&shear, vec3(axis), tri).is_some();
            match (claimed, reference) {
                (true, Some(distance)) => {
                    shipped += 1;
                    exact.push(distance);
                }
                (true, None) => {
                    shipped += 1;
                    over += 1;
                }
                (false, Some(distance)) => {
                    under += 1;
                    exact.push(distance);
                }
                (false, None) => {}
            }
        }
        exact.sort_by(f64::total_cmp);
        let chord = match (exact.first(), exact.last()) {
            (Some(first), Some(last)) => last - first,
            _ => 0.0,
        };
        if chord > 0.0 {
            chorded += 1;
            match shipped {
                0 => {
                    lost += 1;
                    widest = widest.max(chord);
                }
                1 => halved += 1,
                _ => {}
            }
        }
    }
    assert!(chorded > 70_000, "{chorded} rays with a chord: the grid has stopped straddling the corner");
    assert_eq!(lost, 0, "{lost} of {chorded} chords erased entirely, the widest {widest:e} m");
    assert_eq!(halved, 0, "{halved} of {chorded} chords lost one crossing");
    assert_eq!(under, 0, "{under} triangle crossings the reference finds and the kernel declines");
    assert!(over * 100 <= chorded, "{over} kept f32 claims the reference denies, against {chorded} chords");
}

#[test]
fn a_ray_through_a_shared_vertex_is_claimed_by_the_fan() {
    let vertices = sweep_vertices();
    let mut indices = sweep_sides();
    indices.extend([[4, 5, 6], [6, 7, 4]]);
    let mesh = mesh(&vertices, &indices);
    let axis = normalize(SWEEP_DIR);
    let fan: Vec<[u32; 3]> = indices.iter().copied().filter(|t| t.contains(&4)).collect();
    assert_eq!(fan.len(), 4, "the corner is a fan of four");
    let (mut crossed, mut missed, mut retired_lost, mut unrepresentable, mut total) = (0, 0, 0, 0, 0);
    for origin in sweep_origins(vertices[4], axis, 32) {
        total += 1;
        match sweep_walks(&mesh, origin, axis) {
            Ok(0) => missed += 1,
            Ok(1) => crossed += 1,
            Ok(other) => panic!("origin {origin:?} crossed the box {other} times"),
            Err(WalkError::UnrepresentableChord { .. }) => unrepresentable += 1,
            Err(error) => panic!("origin {origin:?}: {error:?}"),
        }
        let corners = |t: &[u32; 3]| (vertices[t[0] as usize], vertices[t[1] as usize], vertices[t[2] as usize]);
        let shipped = fan.iter().any(|t| {
            let (a, b, c) = corners(t);
            claim(origin, axis, a, b, c).is_some()
        });
        let retired = fan.iter().any(|t| {
            let (a, b, c) = corners(t);
            barycentric_contains(origin, axis, a, b, c)
        });
        if shipped && !retired {
            retired_lost += 1;
        }
    }
    assert!(crossed > 0 && missed > 0, "the grid must bracket the corner: {crossed} crossed, {missed} missed");
    assert!(retired_lost > 0, "the sweep is not crossing the fan");
    assert!(
        unrepresentable * 20 <= total,
        "{unrepresentable} of {total} corner rays were refused as unrepresentable",
    );
}

#[test]
fn unprobed_candidates_are_errors() {
    let reason = |result: Result<Vec<FaceHit>, WalkError>| match result {
        Err(WalkError::CollectorFailed { volume, reason }) => {
            assert_eq!(volume, node());
            reason
        }
        other => panic!("{other:?}"),
    };
    let (origin, axis) = ([0.1, 0.2, 1.0], [0.0, 0.0, -1.0]);
    assert_eq!(reason(gather(None, origin, axis, 2.0, Vec::new())), "a candidate collider has no resolved pose");
    let plate = trimesh_box([1.0, 1.0, 0.1]);
    let bare = Collider { shape: Shape::TriMesh(&plate.mesh, None), ..posed(&plate) };
    assert_eq!(
        reason(gather(Some(bare), origin, axis, 2.0, Vec::new())),
        "a trimesh candidate carries no per-triangle manifold certificate"
    );
    let short = BallisticSurfaces { shells: vec![0; 11], ..plate.surfaces.clone() };
    let short = Collider { shape: Shape::TriMesh(&plate.mesh, Some(&short)), ..posed(&plate) };
    assert_eq!(
        reason(gather(Some(short), origin, axis, 2.0, Vec::new())),
        "a trimesh candidate carries no per-triangle manifold certificate"
    );
    let grown = Collider { scale: vec3([1.0, 1.0, 2.0]), ..posed(&plate) };
    assert_eq!(
        reason(gather(Some(grown), origin, axis, 2.0, Vec::new())),
        "a collider reached the world at a scale the bake never certified"
    );
}

#[test]
fn a_corridor_of_too_many_faces_is_an_error() {
    let one = trimesh_box([1.0, 1.0, 0.1]);
    let face = one.mesh.triangles[2];
    let count = MAX_FACES + 2;
    let many = Mesh {
        mesh: TriMesh { triangles: vec![face; count] },
        surfaces: BallisticSurfaces {
            shells: vec![0; count],
            corners: vec![(4, 5, 6); count],
            scale: vec3([1.0, 1.0, 1.0]),
        },
    };
    let result = gather(Some(posed(&many)), [0.2, -0.1, 1.0], [0.0, 0.0, -1.0], 2.0, Vec::new());
    assert_eq!(
        result,
        Err(WalkError::CorridorOverflow { volume: node(), collected: MAX_FACES + 1, limit: MAX_FACES })
    );
}

fn convex(casts: ConvexCasts) -> Option<Collider<'static>> {
    Some(Collider {
        position: vec3([0.0, 0.0, 0.0]),
        rotation: Quat::identity(),
        scale: vec3([1.0, 1.0, 1.0]),
        shape: Shape::Convex(casts),
    })
}

#[test]
fn a_convex_solid_presents_one_interval() {
    let up = vec3([0.0, 0.0, 1.0]);
    let casts = ConvexCasts { entry: Some((num(0.5), up)), exit: Some((num(0.25), up)), behind: None };
    let hits = gather(convex(casts), [0.0, 0.0, 1.0], [0.0, 0.0, -1.0], 2.0, Vec::new()).unwrap();
    assert_eq!(hits.len(), 2);
    assert_eq!((wide(hits[0].t), wide(hits[1].t)), (0.5, 1.75));
    assert_eq!((hits[0].contact, hits[1].contact), (Contact::Face(0), Contact::Face(1)));
    assert_eq!(floats(hits[0].true_normal)[2], 1.0, "an entry opposes the ray");
    assert_eq!(floats(hits[1].true_normal)[2], -1.0, "an exit goes along with it");
}

#[test]
fn a_ray_inside_a_convex_solid_must_be_seeded_or_sit_on_its_face() {
    let up = vec3([0.0, 0.0, 1.0]);
    let inside = ConvexCasts { entry: Some((num(0.0), up)), exit: Some((num(0.25), up)), behind: None };
    let (origin, axis) = ([0.0, 0.0, 1.0], [0.0, 0.0, -1.0]);
    assert_eq!(
        gather(convex(inside), origin, axis, 2.0, Vec::new()),
        Err(WalkError::CollectorFailed {
            volume: node(),
            reason: "a sample begins inside a convex volume it was not seeded for, with no entry face within the boundary probe",
        })
    );
    let seed = vec![ShellKey { volume: node(), primitive: node(), shell: 0 }];
    assert_eq!(gather(convex(inside), origin, axis, 2.0, seed).unwrap().len(), 1, "the exit alone");
    let sitting = ConvexCasts { behind: Some((num(1.0e-4), up)), ..inside };
    let hits = gather(convex(sitting), origin, axis, 2.0, Vec::new()).unwrap();
    assert_eq!((hits.len(), wide(hits[0].t)), (2, 0.0));
    let ending = ConvexCasts { entry: Some((num(0.5), up)), exit: Some((num(0.0), up)), behind: None };
    assert_eq!(gather(convex(ending), origin, axis, 2.0, Vec::new()).unwrap().len(), 1, "no exit is invented");
}

#[test]
fn the_casts_of_a_convex_solid_run_in_world_space() {
    let laws = WalkLaws::default();
    let seeded = Vec::new();
    let corridor = Corridor {
        anchor: vec3([10.0, 0.0, 0.0]),
        origin: vec3([1.0, 2.0, 3.0]),
        axis: vec3([0.0, 0.0, -1.0]),
        length: num(2.0),
        seeded: &seeded,
        laws: &laws,
    };
    let probes = convex_probes(&corridor).unwrap();
    assert_eq!(floats(probes.origin), [11.0, 2.0, 3.0]);
    assert_eq!(floats(probes.far), [11.0, 2.0, 1.0]);
    assert_eq!(floats(probes.back)[2], 1.0);
    assert!(convex_probes(&Corridor { axis: vec3([0.0, 0.0, 0.0]), ..corridor }).is_none());
}

#[test]
fn the_margin_grows_with_the_origin_up_to_a_quarter_of_the_nudge() {
    let laws = WalkLaws::default();
    let near = float(prune_margin(vec3([0.0, 0.0, 0.0]), &laws));
    assert_eq!(near, 1.0e-6);
    let far = float(prune_margin(vec3([0.0, -1.0e6, 0.0]), &laws));
    assert_eq!(far, 1.0e-3 * 0.25);
    let mid = float(prune_margin(vec3([0.0, -8.0, 0.0]), &laws));
    assert!(near < mid && mid < far);
}

#[test]
fn the_swept_box_covers_the_corridor() {
    let aabb = swept_aabb(vec3([0.0, 1.0, 2.0]), vec3([0.0, 0.0, -1.0]), num(3.0), num(0.5));
    assert_eq!(floats(aabb.min), [-0.5, 0.5, -1.5]);
    assert_eq!(floats(aabb.max), [0.5, 1.5, 2.5]);
}

/// Numbers between minus one and one, in an order that is always the same.
fn scatter(state: &mut u64) -> f32 {
    *state = state.wrapping_mul(6_364_136_223_846_793_005).wrapping_add(1_442_695_040_888_963_407);
    ((*state >> 40) as f32 / (1u32 << 23) as f32) - 1.0
}

#[test]
fn an_area_stays_in_its_band() {
    let mut state = 7u64;
    let mut outside = 0u32;
    let mut inside = 0u32;
    for round in 0..4000u32 {
        let reach = [1.0e-30f32, 1.0e-3, 6.0, 6.0e4][(round % 4) as usize];
        let origin = [scatter(&mut state) * 6.0, scatter(&mut state) * 6.0, scatter(&mut state) * 6.0];
        let axis = [scatter(&mut state), scatter(&mut state), scatter(&mut state)];
        let shear = RayShear::new(vec3(origin), vec3(axis));
        let at = plus(origin, times(axis, 3.0 * scatter(&mut state)));
        let p = plus(at, [scatter(&mut state) * reach, scatter(&mut state) * reach, scatter(&mut state) * reach]);
        let q = plus(at, [scatter(&mut state) * reach, scatter(&mut state) * reach, scatter(&mut state) * reach]);
        let (a, b) = (shear.project(vec3(p)), shear.project(vec3(q)));
        let area = float(edge_area(a.p, b.p));
        let slack = float(edge_area_slack(a, b));
        let exact = wide(edge_area_f64(shear.project_exact(vec3(p)), shear.project_exact(vec3(q))));
        assert!(
            (area as f64 - exact).abs() <= slack as f64,
            "{p:?} {q:?}: {area:e} against {exact:e}, further than {slack:e}",
        );
        if area.abs() > slack {
            outside += 1;
            assert_eq!(area > 0.0, exact > 0.0);
        } else {
            inside += 1;
        }
    }
    assert!(outside > 500 && inside > 500, "{outside} outside the band, {inside} inside");
}

#[test]
fn an_area_of_nothing_lies_in_its_band() {
    let shear = RayShear::new(vec3([0.0, 0.0, 0.0]), vec3([0.0, 0.0, 1.0]));
    let (a, b) = (shear.project(vec3([1.0, 1.0, 5.0])), shear.project(vec3([2.0, 2.0, 5.0])));
    assert_eq!(float(edge_area(a.p, b.p)), 0.0);
    assert!(float(edge_area_slack(a, b)) > 0.0);
    assert_eq!(float(a.slack), 5.0 * 4.0 * f32::EPSILON);
}
