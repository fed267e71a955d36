//! Whether a corridor pairs is settled shell by shell.

use crate::ballistics::walk::field;
use crate::ballistics::walk::locality;
use crate::ballistics::walk::ray;
use crate::ballistics::walk::topology;
use crate::ballistics::walk::topology::Toggle;
use crate::ballistics::walk::vocabulary::{Entity, RayCorridor, ShellKey, WalkLaws};
use crate::float::F32;
use vstd::prelude::*;

verus! {

/// The shell's own among the first `n` crossings.
pub open spec fn own_upto(toggles: Seq<Toggle>, key: ShellKey, n: int) -> Seq<Toggle>
    decreases n,
{
    if n <= 0 {
        Seq::empty()
    } else if toggles[n - 1].key == key {
        own_upto(toggles, key, n - 1).push(toggles[n - 1])
    } else {
        own_upto(toggles, key, n - 1)
    }
}

/// Whether a shell is open after the first `i` of its own crossings.
pub open spec fn after(own: Seq<Toggle>, inside: bool, i: int) -> bool {
    if i <= 0 {
        inside
    } else {
        own[i - 1].enters
    }
}

/// Crossing `i` of a shell goes in where the shell is not open and out where it is, away
/// from the one before, into a volume that is known.
pub open spec fn fits(own: Seq<Toggle>, inside: bool, known: bool, i: int) -> bool {
    &&& own[i].enters != after(own, inside, i)
    &&& own[i].enters ==> known
    &&& i > 0 ==> own[i - 1].t != own[i].t
}

pub open spec fn all_fit(own: Seq<Toggle>, inside: bool, known: bool) -> bool {
    forall|i: int| 0 <= i < own.len() ==> #[trigger] fits(own, inside, known, i)
}

/// The shell's crossings pair: each fits, and the last goes out.
pub open spec fn shell_pairs(own: Seq<Toggle>, inside: bool, known: bool) -> bool {
    all_fit(own, inside, known) && !after(own, inside, own.len() as int)
}

/// Nothing is wrong with the crossing, as far as those before it tell.
spec fn sound_at(toggles: Seq<Toggle>, seeds: Seq<ShellKey>, factors: Map<Entity, F32>, i: int) -> bool {
    let toggle = toggles[i];
    &&& !(i > 0 && field::twins(toggles[i - 1], toggle))
    &&& toggle.enters ==> factors.contains_key(toggle.key.volume)
    &&& toggle.enters != field::is_open(toggles, seeds, i, toggle.key)
}

spec fn sound_upto(toggles: Seq<Toggle>, seeds: Seq<ShellKey>, factors: Map<Entity, F32>, n: int) -> bool {
    forall|i: int| 0 <= i < n ==> #[trigger] sound_at(toggles, seeds, factors, i)
}

proof fn lemma_sound(toggles: Seq<Toggle>, seeds: Seq<ShellKey>, factors: Map<Entity, F32>)
    ensures
        field::sound(toggles, seeds, factors, toggles.len() as int) <==> sound_upto(
            toggles,
            seeds,
            factors,
            toggles.len() as int,
        ),
{
    let n = toggles.len() as int;
    if sound_upto(toggles, seeds, factors, n) {
        assert forall|i: int| 0 <= i < n implies (#[trigger] field::fault_at(toggles, seeds, factors, i)) is None by {
            assert(sound_at(toggles, seeds, factors, i));
            if i + 1 < n {
                assert(sound_at(toggles, seeds, factors, i + 1));
            }
        }
    }
    if field::sound(toggles, seeds, factors, n) {
        assert forall|i: int| 0 <= i < n implies #[trigger] sound_at(toggles, seeds, factors, i) by {
            assert(field::fault_at(toggles, seeds, factors, i) is None);
        }
    }
}

/// A shell's own crossings tell whether it is open, and the last of them stands in the list.
proof fn lemma_own(toggles: Seq<Toggle>, seeds: Seq<ShellKey>, key: ShellKey, n: int)
    requires
        0 <= n <= toggles.len(),
    ensures
        ({
            let own = own_upto(toggles, key, n);
            &&& field::is_open(toggles, seeds, n, key) == after(own, seeds.contains(key), own.len() as int)
            &&& own.len() > 0 ==> exists|z: int|
                0 <= z < n && #[trigger] toggles[z] == own.last() && toggles[z].key == key
        }),
    decreases n,
{
    if n > 0 {
        lemma_own(toggles, seeds, key, n - 1);
        let own = own_upto(toggles, key, n);
        if toggles[n - 1].key == key {
            assert(toggles[n - 1] == own.last());
        } else if own.len() > 0 {
            let z = choose|z: int| 0 <= z < n - 1 && #[trigger] toggles[z] == own.last() && toggles[z].key == key;
            assert(toggles[z] == own.last());
        }
    }
}

/// A crossing fits what its shell has done where nothing is wrong with it.
proof fn lemma_step(toggles: Seq<Toggle>, seeds: Seq<ShellKey>, factors: Map<Entity, F32>, n: int)
    requires
        topology::in_toggle_order(toggles),
        0 < n <= toggles.len(),
    ensures
        ({
            let key = toggles[n - 1].key;
            let own = own_upto(toggles, key, n);
            sound_at(toggles, seeds, factors, n - 1) <==> fits(
                own,
                seeds.contains(key),
                factors.contains_key(key.volume),
                own.len() - 1,
            )
        }),
{
    let here = toggles[n - 1];
    let key = here.key;
    let rest = own_upto(toggles, key, n - 1);
    let own = own_upto(toggles, key, n);
    assert(own == rest.push(here));
    lemma_own(toggles, seeds, key, n - 1);
    let m = rest.len() as int;
    assert(m > 0 ==> own[m - 1] == rest.last());
    assert((n - 1 > 0 && field::twins(toggles[n - 2], here)) <==> (m > 0 && rest.last().t == here.t)) by {
        if n - 1 > 0 && toggles[n - 2].key == key {
            assert(rest.last() == toggles[n - 2]);
        }
        if m > 0 && rest.last().t == here.t {
            let z = choose|z: int| 0 <= z < n - 1 && #[trigger] toggles[z] == rest.last() && toggles[z].key == key;
            if z < n - 2 {
                assert(topology::toggle_leq(toggles[z], toggles[n - 2]));
                assert(topology::toggle_leq(toggles[n - 2], toggles[n - 1]));
            }
        }
    }
}

/// The crossings so far are sound exactly where each shell's own are.
proof fn lemma_shell_by_shell(toggles: Seq<Toggle>, seeds: Seq<ShellKey>, factors: Map<Entity, F32>, n: int)
    requires
        topology::in_toggle_order(toggles),
        0 <= n <= toggles.len(),
    ensures
        sound_upto(toggles, seeds, factors, n) <==> forall|key: ShellKey|
            all_fit(#[trigger] own_upto(toggles, key, n), seeds.contains(key), factors.contains_key(key.volume)),
    decreases n,
{
    if n > 0 {
        lemma_shell_by_shell(toggles, seeds, factors, n - 1);
        lemma_step(toggles, seeds, factors, n);
        let here = toggles[n - 1].key;
        let known = |key: ShellKey| factors.contains_key(key.volume);
        if sound_upto(toggles, seeds, factors, n) {
            assert(sound_upto(toggles, seeds, factors, n - 1)) by {
                assert forall|i: int| 0 <= i < n - 1 implies #[trigger] sound_at(toggles, seeds, factors, i) by {}
            }
            assert forall|key: ShellKey|
                all_fit(#[trigger] own_upto(toggles, key, n), seeds.contains(key), factors.contains_key(key.volume)) by {
                let (rest, own) = (own_upto(toggles, key, n - 1), own_upto(toggles, key, n));
                assert(all_fit(rest, seeds.contains(key), known(key)));
                assert(sound_at(toggles, seeds, factors, n - 1));
                assert forall|i: int| 0 <= i < own.len() implies #[trigger] fits(
                    own,
                    seeds.contains(key),
                    known(key),
                    i,
                ) by {
                    if i < rest.len() {
                        assert(fits(rest, seeds.contains(key), known(key), i));
                    }
                }
            }
        }
        if forall|key: ShellKey|
            all_fit(#[trigger] own_upto(toggles, key, n), seeds.contains(key), factors.contains_key(key.volume)) {
            assert forall|key: ShellKey|
                all_fit(#[trigger] own_upto(toggles, key, n - 1), seeds.contains(key), factors.contains_key(key.volume)) by {
                let (rest, own) = (own_upto(toggles, key, n - 1), own_upto(toggles, key, n));
                assert(all_fit(own, seeds.contains(key), known(key)));
                assert forall|i: int| 0 <= i < rest.len() implies #[trigger] fits(
                    rest,
                    seeds.contains(key),
                    known(key),
                    i,
                ) by {
                    assert(fits(own, seeds.contains(key), known(key), i));
                }
            }
            let own = own_upto(toggles, here, n);
            assert(all_fit(own, seeds.contains(here), known(here)));
            assert(fits(own, seeds.contains(here), known(here), own.len() - 1));
            assert forall|i: int| 0 <= i < n implies #[trigger] sound_at(toggles, seeds, factors, i) by {
                if i < n - 1 {
                    assert(sound_upto(toggles, seeds, factors, n - 1));
                }
            }
        }
    } else {
        assert forall|key: ShellKey|
            all_fit(#[trigger] own_upto(toggles, key, n), seeds.contains(key), factors.contains_key(key.volume)) by {}
    }
}

/// The crossings of one shell.
pub open spec fn own_of(corridor: RayCorridor, laws: WalkLaws, key: ShellKey) -> Seq<Toggle> {
    own_upto(ray::crossings_of(corridor, laws), key, ray::crossings_of(corridor, laws).len() as int)
}

/// A corridor pairs exactly where its declared volumes are known and each shell's own
/// crossings pair.
pub proof fn law_pairing_is_shell_by_shell(corridor: RayCorridor, laws: WalkLaws, factors: Map<Entity, F32>)
    ensures
        ray::pairs(corridor, laws, factors) <==> {
            &&& field::declared(corridor.initial_presence@, factors)
            &&& forall|key: ShellKey|
                shell_pairs(
                    #[trigger] own_of(corridor, laws, key),
                    corridor.initial_presence@.contains(key),
                    factors.contains_key(key.volume),
                )
        },
{
    let toggles = ray::crossings_of(corridor, laws);
    let seeds = corridor.initial_presence@;
    let n = toggles.len() as int;
    ray::lemma_ordered_hits(corridor);
    topology::lemma_crossings_order(ray::ordered_hits(corridor), corridor.axis, laws.tangent_cos, 0);
    lemma_sound(toggles, seeds, factors);
    lemma_shell_by_shell(toggles, seeds, factors, n);
    assert forall|key: ShellKey|
        field::is_open(toggles, seeds, n, key) == after(
            #[trigger] own_of(corridor, laws, key),
            seeds.contains(key),
            own_of(corridor, laws, key).len() as int,
        ) by {
        lemma_own(toggles, seeds, key, n);
    }
    if ray::pairs(corridor, laws, factors) {
        assert forall|key: ShellKey|
            shell_pairs(
                #[trigger] own_of(corridor, laws, key),
                seeds.contains(key),
                factors.contains_key(key.volume),
            ) by {
            assert(all_fit(own_upto(toggles, key, n), seeds.contains(key), factors.contains_key(key.volume)));
            assert(!field::is_open(toggles, seeds, n, key));
        }
    }
    if field::declared(seeds, factors) && forall|key: ShellKey|
        shell_pairs(#[trigger] own_of(corridor, laws, key), seeds.contains(key), factors.contains_key(key.volume)) {
        assert forall|key: ShellKey|
            all_fit(#[trigger] own_upto(toggles, key, n), seeds.contains(key), factors.contains_key(key.volume)) by {
            assert(shell_pairs(own_of(corridor, laws, key), seeds.contains(key), factors.contains_key(key.volume)));
        }
        assert forall|key: ShellKey| !#[trigger] field::is_open(toggles, seeds, n, key) by {
            assert(shell_pairs(own_of(corridor, laws, key), seeds.contains(key), factors.contains_key(key.volume)));
        }
    }
}

proof fn lemma_own_prefix(toggles: Seq<Toggle>, longer: Seq<Toggle>, key: ShellKey, n: int)
    requires
        0 <= n <= toggles.len() <= longer.len(),
        forall|i: int| 0 <= i < toggles.len() ==> #[trigger] toggles[i] == longer[i],
    ensures
        own_upto(toggles, key, n) == own_upto(longer, key, n),
    decreases n,
{
    if n > 0 {
        lemma_own_prefix(toggles, longer, key, n - 1);
        assert(toggles[n - 1] == longer[n - 1]);
    }
}

/// A shell's crossings are the same among those of any shells that it is one of.
pub(crate) proof fn lemma_own_of_some(toggles: Seq<Toggle>, mine: spec_fn(ShellKey) -> bool, key: ShellKey)
    requires
        mine(key),
    ensures
        own_upto(toggles, key, toggles.len() as int) == own_upto(
            toggles.filter(locality::own_toggle(mine)),
            key,
            toggles.filter(locality::own_toggle(mine)).len() as int,
        ),
    decreases toggles.len(),
{
    reveal(Seq::filter);
    let mt = locality::own_toggle(mine);
    let n = toggles.len() as int;
    if n > 0 {
        let rest = toggles.drop_last();
        let last = toggles.last();
        lemma_own_of_some(rest, mine, key);
        lemma_own_prefix(rest, toggles, key, n - 1);
        let (kept, all) = (rest.filter(mt), toggles.filter(mt));
        if mine(last.key) {
            assert(all =~= kept.push(last));
            lemma_own_prefix(kept, all, key, kept.len() as int);
        } else {
            assert(all =~= kept);
        }
    } else {
        assert(toggles.filter(mt) =~= toggles);
    }
}

/// A shell that some corridor reads the same has the same crossings there.
pub(crate) proof fn lemma_same_own(
    a: RayCorridor,
    b: RayCorridor,
    laws: WalkLaws,
    mine: spec_fn(ShellKey) -> bool,
    key: ShellKey,
)
    requires
        a.length == b.length,
        a.axis == b.axis,
        a.hits@.filter(locality::own_hit(mine)).to_multiset() == b.hits@.filter(locality::own_hit(mine)).to_multiset(),
        mine(key),
    ensures
        own_of(a, laws, key) == own_of(b, laws, key),
{
    locality::lemma_same_crossings(a, b, laws, mine);
    lemma_own_of_some(ray::crossings_of(a, laws), mine, key);
    lemma_own_of_some(ray::crossings_of(b, laws), mine, key);
}

/// The corridor meets the shell, or declares it.
pub open spec fn has_shell(corridor: RayCorridor, key: ShellKey) -> bool {
    locality::has_hit(corridor, key) || corridor.initial_presence@.contains(key)
}

/// `whole` holds what `a` and `b` hold, which share no shell.
pub open spec fn joins(whole: RayCorridor, a: RayCorridor, b: RayCorridor) -> bool {
    &&& whole.hits@ == a.hits@ + b.hits@
    &&& forall|key: ShellKey| !(#[trigger] has_shell(a, key) && has_shell(b, key))
    &&& forall|key: ShellKey| #[trigger]
        whole.initial_presence@.contains(key) <==> a.initial_presence@.contains(key) || b.initial_presence@.contains(key)
    &&& whole.length == a.length && a.length == b.length
    &&& whole.axis == a.axis && a.axis == b.axis
}

proof fn lemma_joined_own(whole: RayCorridor, a: RayCorridor, b: RayCorridor, laws: WalkLaws, key: ShellKey)
    requires
        joins(whole, a, b),
    ensures
        !has_shell(b, key) ==> own_of(whole, laws, key) == own_of(a, laws, key),
        !has_shell(a, key) ==> own_of(whole, laws, key) == own_of(b, laws, key),
{
    let mine = |k: ShellKey| k == key;
    let mh = locality::own_hit(mine);
    Seq::filter_distributes_over_add(a.hits@, b.hits@, mh);
    if !has_shell(b, key) {
        assert forall|i: int| 0 <= i < b.hits@.len() implies !mh(#[trigger] b.hits@[i]) by {
            assert(b.hits@[i].spec_key() == key ==> locality::has_hit(b, key));
        }
        locality::lemma_filter_none(b.hits@, mh);
        assert(whole.hits@.filter(mh) =~= a.hits@.filter(mh));
        lemma_same_own(whole, a, laws, mine, key);
    }
    if !has_shell(a, key) {
        assert forall|i: int| 0 <= i < a.hits@.len() implies !mh(#[trigger] a.hits@[i]) by {
            assert(a.hits@[i].spec_key() == key ==> locality::has_hit(a, key));
        }
        locality::lemma_filter_none(a.hits@, mh);
        assert(whole.hits@.filter(mh) =~= b.hits@.filter(mh));
        lemma_same_own(whole, b, laws, mine, key);
    }
}

/// What pairs apart pairs together: where two corridors share no shell and each can be
/// walked, so can the one that holds what both hold.
pub proof fn law_what_pairs_apart_pairs_together(
    whole: RayCorridor,
    a: RayCorridor,
    b: RayCorridor,
    laws: WalkLaws,
    factors: Map<Entity, F32>,
)
    requires
        joins(whole, a, b),
        ray::has_form(a),
        ray::has_form(b),
        ray::pairs(a, laws, factors),
        ray::pairs(b, laws, factors),
    ensures
        ray::has_form(whole),
        ray::pairs(whole, laws, factors),
{
    let seeds = whole.initial_presence@;
    let (sa, sb) = (a.initial_presence@, b.initial_presence@);
    law_pairing_is_shell_by_shell(whole, laws, factors);
    law_pairing_is_shell_by_shell(a, laws, factors);
    law_pairing_is_shell_by_shell(b, laws, factors);
    assert forall|i: int| 0 <= i < seeds.len() implies factors.contains_key((#[trigger] seeds[i]).volume) by {
        let key = seeds[i];
        assert(seeds.contains(key));
        if sa.contains(key) {
            let j = choose|j: int| 0 <= j < sa.len() && sa[j] == key;
            assert(factors.contains_key(sa[j].volume));
        } else {
            let j = choose|j: int| 0 <= j < sb.len() && sb[j] == key;
            assert(factors.contains_key(sb[j].volume));
        }
    }
    assert forall|key: ShellKey|
        shell_pairs(#[trigger] own_of(whole, laws, key), seeds.contains(key), factors.contains_key(key.volume)) by {
        lemma_joined_own(whole, a, b, laws, key);
        assert(!(has_shell(a, key) && has_shell(b, key)));
        assert(seeds.contains(key) <==> sa.contains(key) || sb.contains(key));
        if has_shell(b, key) {
            assert(shell_pairs(own_of(b, laws, key), sb.contains(key), factors.contains_key(key.volume)));
        } else {
            assert(shell_pairs(own_of(a, laws, key), sa.contains(key), factors.contains_key(key.volume)));
        }
    }
    assert forall|i: int|
        0 <= i < whole.hits@.len() && (#[trigger] whole.hits@[i]).t.below(whole.length.doubled()) implies ray::is_ahead(
        whole.hits@[i],
    ) by {
        let n = a.hits@.len() as int;
        if i < n {
            assert(whole.hits@[i] == a.hits@[i]);
        } else {
            assert(whole.hits@[i] == b.hits@[i - n]);
        }
    }
}

} // verus!
