//! What a flight through known outcomes is: every tick before an outcome flown once, the tick it
//! resolves in never, and no known outcome flown through.

use crate::ballistics::sanctioned;
use crate::ballistics::sanctioned::{
    NextOutcome, SanctionedBounce, SanctionedCatchUpReject, SanctionedFlightSegment, SanctionedTerminal, ShotId,
    ShotRecord, MAX_COSMETIC_CATCH_UP_TICKS,
};
use vstd::prelude::*;

verus! {

/// The ticks from one tick of the wrapping clock on to another.
pub open spec fn ticks_on(from: u32, to: u32) -> int {
    (to - from) % 0x1_0000_0000
}

/// The one tick is not before the other: less than half of the clock's round lies between.
pub open spec fn is_reached(from: u32, to: u32) -> bool {
    ticks_on(from, to) < 0x8000_0000
}

/// The stretch flies every tick before the outcome's, and not the one that it resolves in.
pub open spec fn ends_before(segment: SanctionedFlightSegment, tick: u32) -> bool {
    let gap = ticks_on(segment.bounce.bounce_tick, tick);
    &&& is_reached(segment.bounce.bounce_tick, tick)
    &&& gap > 0 ==> segment.steps + 1 == gap
    &&& gap == 0 ==> segment.steps == 0
}

/// An outcome at the tick is known by the present and does not lie before the bounce.
pub open spec fn is_due(since: u32, tick: u32, present: Option<u32>) -> bool {
    present matches Some(now) && is_reached(tick, now) && is_reached(since, tick)
}

/// The bounce of the ordinal that the shot's record holds is due.
pub open spec fn has_due_bounce(record: ShotRecord, ordinal: int, since: u32, present: Option<u32>, b: int) -> bool {
    &&& 0 <= b < record.bounces.len()
    &&& record.bounces[b].sequence == ordinal
    &&& is_due(since, record.bounces[b].bounce_tick, present)
}

/// The record's terminal comes after so many bounces and is due.
pub open spec fn has_due_terminal(record: ShotRecord, ordinal: int, since: u32, present: Option<u32>) -> bool {
    record.terminal matches Some(terminal) && terminal.after_bounces == ordinal && is_due(
        since,
        terminal.impact_tick,
        present,
    )
}

/// The segments leave from the first bounce and then from the shot's own bounces in order, each
/// due; each stops before the next one, and no terminal that is due comes first.
pub open spec fn follows_bounces(
    flown: Seq<SanctionedFlightSegment>,
    record: Option<ShotRecord>,
    consumed: int,
    first: SanctionedBounce,
    present: Option<u32>,
) -> bool {
    &&& flown.len() > 0
    &&& flown[0].bounce == first
    &&& forall|i: int|
        0 < i < flown.len() ==> {
            let since = flown[i - 1].bounce.bounce_tick;
            let next = (#[trigger] flown[i]).bounce;
            &&& record matches Some(record) && record.bounces.contains(next)
            &&& next.sequence == consumed + i
            &&& is_due(since, next.bounce_tick, present)
            &&& ends_before(flown[i - 1], next.bounce_tick)
            &&& has_due_terminal(record->Some_0, consumed + i, since, present) ==> ticks_on(since, next.bounce_tick)
                < ticks_on(since, record->Some_0.terminal->Some_0.impact_tick)
        }
}

/// The segments end before the shot's terminal, which is due and comes no later than any further
/// bounce; or at the present, nothing more being due.
pub open spec fn ends_rightly(
    flown: Seq<SanctionedFlightSegment>,
    terminal: Option<SanctionedTerminal>,
    record: Option<ShotRecord>,
    consumed: int,
    present: Option<u32>,
    fallback_age: u32,
) -> bool {
    let last = flown.last();
    let since = last.bounce.bounce_tick;
    let ordinal = consumed + flown.len();
    match terminal {
        Some(terminal) => {
            &&& record matches Some(record) && record.terminal == Some(terminal)
            &&& terminal.after_bounces == ordinal
            &&& is_due(since, terminal.impact_tick, present)
            &&& ends_before(last, terminal.impact_tick)
            &&& forall|b: int| #[trigger]
                has_due_bounce(record->Some_0, ordinal, since, present, b) ==> ticks_on(since, terminal.impact_tick)
                    <= ticks_on(since, record->Some_0.bounces[b].bounce_tick)
        },
        None => {
            &&& record matches Some(record) ==> !has_due_terminal(record, ordinal, since, present) && forall|b: int|
                !#[trigger] has_due_bounce(record, ordinal, since, present, b)
            &&& match present {
                Some(now) => if is_reached(since, now) {
                    last.steps == ticks_on(since, now)
                } else {
                    last.steps == fallback_age
                },
                None => last.steps == fallback_age,
            }
        },
    }
}

/// No stretch, and not all of them together, goes past the horizon, and there are no more of them
/// than ticks in it.
pub open spec fn is_within(
    flown: Seq<SanctionedFlightSegment>,
    terminal: Option<SanctionedTerminal>,
    ticks: int,
    segments: int,
) -> bool {
    let last = flown.last();
    &&& segments + flown.len() <= MAX_COSMETIC_CATCH_UP_TICKS
    &&& ticks + sanctioned::ticks_of(flown, flown.len() as int) <= MAX_COSMETIC_CATCH_UP_TICKS
    &&& forall|i: int|
        0 < i < flown.len() ==> ticks_on(flown[i - 1].bounce.bounce_tick, (#[trigger] flown[i]).bounce.bounce_tick)
            <= MAX_COSMETIC_CATCH_UP_TICKS
    &&& match terminal {
        Some(terminal) => ticks_on(last.bounce.bounce_tick, terminal.impact_tick) <= MAX_COSMETIC_CATCH_UP_TICKS,
        None => last.steps <= MAX_COSMETIC_CATCH_UP_TICKS,
    }
}

/// The shot's record, where there is one.
pub open spec fn record_of(records: Map<ShotId, ShotRecord>, shot: ShotId) -> Option<ShotRecord> {
    if records.contains_key(shot) {
        Some(records[shot])
    } else {
        None
    }
}

/// A bounce that is found by its ordinal is one of the list, and where none is found none has it.
proof fn lemma_bounce(bounces: Seq<SanctionedBounce>, ordinal: nat, i: int)
    requires
        0 <= i,
    ensures
        match sanctioned::bounce_at(bounces, ordinal, i) {
            Some(bounce) => bounces.contains(bounce) && bounce.sequence == ordinal,
            None => forall|b: int| i <= b < bounces.len() ==> (#[trigger] bounces[b]).sequence != ordinal,
        },
    decreases bounces.len() - i,
{
    if i < bounces.len() && bounces[i].sequence != ordinal {
        lemma_bounce(bounces, ordinal, i + 1);
    }
}

/// The record holds no ordinal twice.
pub open spec fn is_sequenced(record: Option<ShotRecord>) -> bool {
    record matches Some(record) ==> sanctioned::record_bounded(record)
}

/// What comes next, in terms of the record.
proof fn lemma_next(
    records: Map<ShotId, ShotRecord>,
    shot: ShotId,
    ordinal: nat,
    since: u32,
    present: Option<u32>,
)
    requires
        is_sequenced(record_of(records, shot)),
    ensures
        ({
            let record = record_of(records, shot);
            match sanctioned::next_outcome(records, shot, ordinal, since, present) {
                NextOutcome::Bounce(next, gap) => {
                    &&& record matches Some(record) && record.bounces.contains(next)
                    &&& next.sequence == ordinal
                    &&& is_due(since, next.bounce_tick, present)
                    &&& gap == ticks_on(since, next.bounce_tick)
                    &&& has_due_terminal(record->Some_0, ordinal as int, since, present) ==> gap < ticks_on(
                        since,
                        record->Some_0.terminal->Some_0.impact_tick,
                    )
                },
                NextOutcome::Terminal(terminal, gap) => {
                    &&& record matches Some(record) && record.terminal == Some(terminal)
                    &&& terminal.after_bounces == ordinal
                    &&& is_due(since, terminal.impact_tick, present)
                    &&& gap == ticks_on(since, terminal.impact_tick)
                    &&& forall|b: int| #[trigger]
                        has_due_bounce(record->Some_0, ordinal as int, since, present, b) ==> gap <= ticks_on(
                            since,
                            record->Some_0.bounces[b].bounce_tick,
                        )
                },
                NextOutcome::Nothing => record matches Some(record) ==> !has_due_terminal(
                    record,
                    ordinal as int,
                    since,
                    present,
                ) && forall|b: int| !#[trigger] has_due_bounce(record, ordinal as int, since, present, b),
            }
        }),
{
    reveal(sanctioned::next_outcome);
    if records.contains_key(shot) {
        let record = records[shot];
        lemma_bounce(record.bounces, ordinal, 0);
        let found = sanctioned::bounce_at(record.bounces, ordinal, 0);
        assert forall|b: int| #[trigger] has_due_bounce(record, ordinal as int, since, present, b) implies found == Some(
            record.bounces[b],
        ) by {
            if let Some(bounce) = found {
                let a = choose|a: int| 0 <= a < record.bounces.len() && record.bounces[a] == bounce;
                if a < b {
                    assert(record.bounces[a].sequence != record.bounces[b].sequence);
                } else if b < a {
                    assert(record.bounces[b].sequence != record.bounces[a].sequence);
                }
            }
        }
    }
}

/// A planned flight goes through every outcome that is known by the present, in order and none
/// other: it leaves each bounce, flies every tick before the next outcome and not the one it resolves
/// in, and ends before the terminal or at the present.
pub proof fn law_every_tick_is_flown_once(
    records: Map<ShotId, ShotRecord>,
    shot: ShotId,
    consumed: nat,
    first: SanctionedBounce,
    present: Option<u32>,
    fallback_age: u32,
    ticks: int,
    segments: int,
)
    requires
        consumed > 0,
        is_sequenced(record_of(records, shot)),
        0 <= ticks,
        0 <= segments,
    ensures
        sanctioned::flight_from(records, shot, consumed, first, present, fallback_age, ticks, segments) matches Ok(
            (flown, terminal),
        ) ==> {
            let record = record_of(records, shot);
            &&& follows_bounces(flown, record, consumed - 1, first, present)
            &&& ends_rightly(flown, terminal, record, consumed - 1, present, fallback_age)
            &&& is_within(flown, terminal, ticks, segments)
        },
    decreases MAX_COSMETIC_CATCH_UP_TICKS - segments,
{
    let record = record_of(records, shot);
    let whole = sanctioned::flight_from(records, shot, consumed, first, present, fallback_age, ticks, segments);
    let next = sanctioned::next_outcome(records, shot, consumed, first.bounce_tick, present);
    lemma_next(records, shot, consumed, first.bounce_tick, present);
    let (gap, steps) = sanctioned::stretch(next, first.bounce_tick, present, fallback_age);
    let segment = SanctionedFlightSegment { bounce: first, steps };
    if whole is Ok {
        let (flown, terminal) = whole->Ok_0;
        match next {
            NextOutcome::Bounce(after, _) => {
                law_every_tick_is_flown_once(
                    records,
                    shot,
                    consumed + 1,
                    after,
                    present,
                    fallback_age,
                    ticks + steps,
                    segments + 1,
                );
                let rest = sanctioned::flight_from(
                    records,
                    shot,
                    consumed + 1,
                    after,
                    present,
                    fallback_age,
                    ticks + steps,
                    segments + 1,
                )->Ok_0.0;
                assert(flown == seq![segment] + rest);
                sanctioned::lemma_ticks_of(segment, rest, rest.len() as int);
                assert forall|i: int| 0 < i < flown.len() implies {
                    let since = flown[i - 1].bounce.bounce_tick;
                    let next = (#[trigger] flown[i]).bounce;
                    &&& record matches Some(record) && record.bounces.contains(next)
                    &&& next.sequence == consumed - 1 + i
                    &&& is_due(since, next.bounce_tick, present)
                    &&& ends_before(flown[i - 1], next.bounce_tick)
                    &&& has_due_terminal(record->Some_0, consumed - 1 + i, since, present) ==> ticks_on(
                        since,
                        next.bounce_tick,
                    ) < ticks_on(since, record->Some_0.terminal->Some_0.impact_tick)
                    &&& ticks_on(since, next.bounce_tick) <= MAX_COSMETIC_CATCH_UP_TICKS
                } by {
                    assert(flown[i] == rest[i - 1]);
                    if i > 1 {
                        assert(flown[i - 1] == rest[i - 2]);
                    }
                }
                assert(flown.last() == rest.last());
            },
            _ => {
                assert(flown == seq![segment]);
                assert(sanctioned::ticks_of(flown, 1) == sanctioned::ticks_of(flown, 0) + flown[0].steps);
            },
        }
    }
}

/// What comes next is the bounce that the chain goes on with.
proof fn lemma_goes_on(
    records: Map<ShotId, ShotRecord>,
    shot: ShotId,
    ordinal: nat,
    since: u32,
    present: Option<u32>,
    after: SanctionedBounce,
)
    requires
        is_sequenced(record_of(records, shot)),
        record_of(records, shot) matches Some(record) && record.bounces.contains(after),
        after.sequence == ordinal,
        is_due(since, after.bounce_tick, present),
        has_due_terminal(records[shot], ordinal as int, since, present) ==> ticks_on(since, after.bounce_tick) < ticks_on(
            since,
            records[shot].terminal->Some_0.impact_tick,
        ),
    ensures
        sanctioned::next_outcome(records, shot, ordinal, since, present) matches NextOutcome::Bounce(next, gap) && next
            == after && gap == ticks_on(since, after.bounce_tick),
{
    lemma_next(records, shot, ordinal, since, present);
    let next = sanctioned::next_outcome(records, shot, ordinal, since, present);
    let bounces = records[shot].bounces;
    let b = choose|b: int| 0 <= b < bounces.len() && bounces[b] == after;
    assert(has_due_bounce(records[shot], ordinal as int, since, present, b));
    assert(next is Bounce);
    let c = choose|c: int| 0 <= c < bounces.len() && bounces[c] == next->Bounce_0;
    if b < c {
        assert(bounces[b].sequence != bounces[c].sequence);
    } else if c < b {
        assert(bounces[c].sequence != bounces[b].sequence);
    }
}

/// What comes next is the end that the chain has.
proof fn lemma_goes_no_further(
    records: Map<ShotId, ShotRecord>,
    shot: ShotId,
    consumed: nat,
    present: Option<u32>,
    fallback_age: u32,
    flown: Seq<SanctionedFlightSegment>,
    terminal: Option<SanctionedTerminal>,
)
    requires
        consumed > 0,
        flown.len() == 1,
        is_sequenced(record_of(records, shot)),
        ends_rightly(flown, terminal, record_of(records, shot), consumed - 1, present, fallback_age),
    ensures
        ({
            let since = flown[0].bounce.bounce_tick;
            match sanctioned::next_outcome(records, shot, consumed, since, present) {
                NextOutcome::Bounce(_, _) => false,
                NextOutcome::Terminal(end, gap) => terminal == Some(end) && gap == ticks_on(since, end.impact_tick),
                NextOutcome::Nothing => terminal is None,
            }
        }),
{
    let since = flown[0].bounce.bounce_tick;
    lemma_next(records, shot, consumed, since, present);
    let next = sanctioned::next_outcome(records, shot, consumed, since, present);
    if next is Bounce {
        let bounces = records[shot].bounces;
        let c = choose|c: int| 0 <= c < bounces.len() && bounces[c] == next->Bounce_0;
        assert(has_due_bounce(records[shot], consumed as int, since, present, c));
        if terminal is Some {
            assert(has_due_terminal(records[shot], consumed as int, since, present));
        }
    } else if next is Nothing && terminal is Some {
        assert(has_due_terminal(records[shot], consumed as int, since, present));
    } else if next is Terminal {
        assert(has_due_terminal(records[shot], consumed as int, since, present));
    }
}

/// A chain without its first stretch is a chain.
proof fn lemma_rest(
    flown: Seq<SanctionedFlightSegment>,
    terminal: Option<SanctionedTerminal>,
    record: Option<ShotRecord>,
    consumed: int,
    first: SanctionedBounce,
    present: Option<u32>,
    fallback_age: u32,
    ticks: int,
    segments: int,
)
    requires
        flown.len() > 1,
        follows_bounces(flown, record, consumed, first, present),
        ends_rightly(flown, terminal, record, consumed, present, fallback_age),
        is_within(flown, terminal, ticks, segments),
    ensures
        ({
            let rest = flown.drop_first();
            &&& follows_bounces(rest, record, consumed + 1, flown[1].bounce, present)
            &&& ends_rightly(rest, terminal, record, consumed + 1, present, fallback_age)
            &&& is_within(rest, terminal, ticks + flown[0].steps, segments + 1)
            &&& flown == seq![flown[0]] + rest
            &&& ticks + flown[0].steps <= MAX_COSMETIC_CATCH_UP_TICKS
        }),
{
    let rest = flown.drop_first();
    assert(flown =~= seq![flown[0]] + rest);
    sanctioned::lemma_ticks_of(flown[0], rest, rest.len() as int);
    lemma_ticks_positive(rest, rest.len() as int);
    assert(rest.last() == flown.last());
    assert(consumed + 1 + rest.len() == consumed + flown.len());
    assert forall|i: int| 0 < i < rest.len() implies {
        let since = rest[i - 1].bounce.bounce_tick;
        let next = (#[trigger] rest[i]).bounce;
        &&& record matches Some(record) && record.bounces.contains(next)
        &&& next.sequence == consumed + 1 + i
        &&& is_due(since, next.bounce_tick, present)
        &&& ends_before(rest[i - 1], next.bounce_tick)
        &&& has_due_terminal(record->Some_0, consumed + 1 + i, since, present) ==> ticks_on(since, next.bounce_tick)
            < ticks_on(since, record->Some_0.terminal->Some_0.impact_tick)
        &&& ticks_on(since, next.bounce_tick) <= MAX_COSMETIC_CATCH_UP_TICKS
    } by {
        assert(rest[i] == flown[i + 1] && rest[i - 1] == flown[i]);
        assert(consumed + 1 + i == consumed + (i + 1));
    }
}

/// Every such chain of outcomes that stays within the horizon is flown: where segments and an end
/// describe one, they are the plan.
pub proof fn law_a_chain_within_the_horizon_is_flown(
    records: Map<ShotId, ShotRecord>,
    shot: ShotId,
    consumed: nat,
    first: SanctionedBounce,
    present: Option<u32>,
    fallback_age: u32,
    ticks: int,
    segments: int,
    flown: Seq<SanctionedFlightSegment>,
    terminal: Option<SanctionedTerminal>,
)
    requires
        consumed > 0,
        is_sequenced(record_of(records, shot)),
        0 <= ticks,
        0 <= segments,
        follows_bounces(flown, record_of(records, shot), consumed - 1, first, present),
        ends_rightly(flown, terminal, record_of(records, shot), consumed - 1, present, fallback_age),
        is_within(flown, terminal, ticks, segments),
    ensures
        sanctioned::flight_from(records, shot, consumed, first, present, fallback_age, ticks, segments) == Ok::<
            (Seq<SanctionedFlightSegment>, Option<SanctionedTerminal>),
            SanctionedCatchUpReject,
        >((flown, terminal)),
    decreases flown.len(),
{
    let since = first.bounce_tick;
    let segment = flown[0];
    if flown.len() > 1 {
        let record = record_of(records, shot);
        lemma_rest(flown, terminal, record, consumed - 1, first, present, fallback_age, ticks, segments);
        let rest = flown.drop_first();
        let after = flown[1].bounce;
        lemma_goes_on(records, shot, consumed, since, present, after);
        law_a_chain_within_the_horizon_is_flown(
            records,
            shot,
            consumed + 1,
            after,
            present,
            fallback_age,
            ticks + segment.steps,
            segments + 1,
            rest,
            terminal,
        );
        assert(ends_before(flown[1 - 1], flown[1].bounce.bounce_tick));
    } else {
        lemma_goes_no_further(records, shot, consumed, present, fallback_age, flown, terminal);
        assert(flown =~= seq![segment]);
        assert(sanctioned::ticks_of(flown, 1) == sanctioned::ticks_of(flown, 0) + flown[0].steps);
    }
}

proof fn lemma_ticks_positive(segments: Seq<SanctionedFlightSegment>, n: int)
    ensures
        0 <= sanctioned::ticks_of(segments, n),
    decreases n,
{
    if n > 0 {
        lemma_ticks_positive(segments, n - 1);
    }
}

} // verus!
