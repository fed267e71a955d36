//! The report as a list of lines: which there are, and in what order. Measured numbers are
//! put into words by whoever prints them.

use crate::ballistics::fuzz::findings;
use crate::ballistics::fuzz::findings::{
    blessing_of, is_known_multi_shell, BlessList, Region, Report, Verdict, PROBE_COUNT,
};
use crate::vector::Vec3;
use vstd::prelude::*;

verus! {

/// How many failures are told in full.
pub const FAILURES_TOLD: usize = 10;

/// One line. Places are places in the report, the bless list or the verdict.
#[derive(Clone, Copy, Debug, PartialEq, Eq)]
pub enum Line {
    Title,
    Summary,
    Sphere,
    InvariantsHeading,
    NoViolation,
    Violation { place: usize },
    ErrorRate,
    /// A volume that was blamed, and whether its overlapping shells explain it.
    ErrorVolume { place: usize, known: bool },
    Failure { place: usize },
    BlamedCrossings { place: usize },
    CensusHeading,
    Census { place: usize },
    RoutesHeading,
    Route { place: usize },
    CorridorsHeading,
    Truncated,
    NoRegion,
    /// A region, under the first blessing that covers it.
    RegionHeading { place: usize, opening: Option<usize> },
    Blessed { opening: usize },
    AdmittingCaliber { place: usize },
    RegionEntry { place: usize },
    RegionRays { place: usize },
    MeasurementsHeading,
    Measurement { place: usize, gun: usize },
    RegionEnd,
    VerdictHeading,
    AllBlessed,
    Unblessed { place: usize },
    Stale { place: usize },
}

/// The violations, or that there is none.
pub open spec fn violation_lines(count: nat) -> Seq<Line> {
    if count == 0 {
        seq![Line::NoViolation]
    } else {
        Seq::new(count, |i: int| Line::Violation { place: i as usize })
    }
}

/// The volumes blamed.
pub open spec fn error_volume_lines(rows: Seq<(String, u64)>) -> Seq<Line> {
    Seq::new(
        rows.len(),
        |i: int| Line::ErrorVolume { place: i as usize, known: findings::is_multi_shell(rows[i].0@) },
    )
}

/// The first `n` failures, each with the crossings of the primitive to blame.
pub open spec fn failure_lines(report: Report, n: int) -> Seq<Line>
    decreases n,
{
    if n <= 0 {
        Seq::empty()
    } else {
        let rest = failure_lines(report, n - 1).push(Line::Failure { place: (n - 1) as usize });
        if report.walk_errors@[n - 1].crossings@.len() > 0 {
            rest.push(Line::BlamedCrossings { place: (n - 1) as usize })
        } else {
            rest
        }
    }
}

/// The failures told.
pub open spec fn told(report: Report) -> int {
    if report.walk_errors@.len() < FAILURES_TOLD {
        report.walk_errors@.len() as int
    } else {
        FAILURES_TOLD as int
    }
}

/// The first opening from `i` on that covers the point.
pub open spec fn first_covering(openings: Seq<findings::Blessing>, point: Vec3, i: int) -> Option<usize>
    decreases openings.len() - i,
{
    if i < 0 || i >= openings.len() {
        None
    } else if openings[i].reaches(point) {
        Some(i as usize)
    } else {
        first_covering(openings, point, i + 1)
    }
}

/// The measurements of a region.
pub open spec fn measurement_lines(place: usize, count: nat) -> Seq<Line> {
    Seq::new(count, |gun: int| Line::Measurement { place, gun: gun as usize })
}

/// How many measurements are told: one for each gun at most.
pub open spec fn measured_count(region: Region) -> nat {
    if region.measurements@.len() < PROBE_COUNT {
        region.measurements@.len()
    } else {
        PROBE_COUNT as nat
    }
}

/// The lines of one region.
pub open spec fn region_lines(region: Region, place: usize, bless: BlessList) -> Seq<Line> {
    let opening = first_covering(bless.openings@, region.entry_local, 0);
    let blessed = match opening {
        Some(opening) => seq![Line::Blessed { opening }],
        None => Seq::empty(),
    };
    let admitting = if region.admitting is Some {
        seq![Line::AdmittingCaliber { place }]
    } else {
        Seq::empty()
    };
    seq![Line::RegionHeading { place, opening }] + blessed + admitting + seq![
        Line::RegionEntry { place },
        Line::RegionRays { place },
        Line::MeasurementsHeading,
    ] + measurement_lines(place, measured_count(region)) + seq![Line::RegionEnd]
}

/// The lines of the first `n` regions.
pub open spec fn regions_lines(regions: Seq<Region>, bless: BlessList, n: int) -> Seq<Line>
    decreases n,
{
    if n <= 0 {
        Seq::empty()
    } else {
        regions_lines(regions, bless, n - 1) + region_lines(regions[n - 1], (n - 1) as usize, bless)
    }
}

/// The head of the report, up to the failures.
pub open spec fn head_lines(report: Report) -> Seq<Line> {
    seq![Line::Title, Line::Summary, Line::Sphere, Line::InvariantsHeading] + violation_lines(report.violations@.len())
        + seq![Line::ErrorRate] + error_volume_lines(report.walk_error_volumes.listed()) + failure_lines(
        report,
        told(report),
    )
}

/// The census and the thinnest routes.
pub open spec fn survey_lines(report: Report) -> Seq<Line> {
    seq![Line::CensusHeading] + Seq::new(
        report.presence_census.listed().len(),
        |i: int| Line::Census { place: i as usize },
    ) + seq![Line::RoutesHeading] + Seq::new(
        report.min_reach.listed().len(),
        |i: int| Line::Route { place: i as usize },
    )
}

/// The corridors that reach a target.
pub open spec fn corridor_lines(report: Report, bless: BlessList) -> Seq<Line> {
    let truncated = if report.sweeps_truncated {
        seq![Line::Truncated]
    } else {
        Seq::empty()
    };
    let none = if report.regions@.len() == 0 {
        seq![Line::NoRegion]
    } else {
        Seq::empty()
    };
    seq![Line::CorridorsHeading] + truncated + none + regions_lines(
        report.regions@,
        bless,
        report.regions@.len() as int,
    )
}

/// The verdict.
pub open spec fn verdict_lines(verdict: Verdict) -> Seq<Line> {
    let blessed = if verdict.unblessed@.len() == 0 {
        seq![Line::AllBlessed]
    } else {
        Seq::empty()
    };
    seq![Line::VerdictHeading] + blessed + Seq::new(
        verdict.unblessed@.len(),
        |i: int| Line::Unblessed { place: verdict.unblessed@[i] },
    ) + Seq::new(verdict.stale@.len(), |i: int| Line::Stale { place: i as usize })
}

/// The whole report.
pub open spec fn report_lines(report: Report, bless: BlessList, verdict: Verdict) -> Seq<Line> {
    head_lines(report) + survey_lines(report) + corridor_lines(report, bless) + verdict_lines(verdict)
}

fn push_head(report: &Report, lines: &mut Vec<Line>)
    ensures
        final(lines)@ == old(lines)@ + head_lines(*report),
{
    let ghost start = lines@;
    lines.push(Line::Title);
    lines.push(Line::Summary);
    lines.push(Line::Sphere);
    lines.push(Line::InvariantsHeading);
    let ghost opened = lines@;
    assert(opened =~= start + seq![Line::Title, Line::Summary, Line::Sphere, Line::InvariantsHeading]);
    let violations: usize = report.violations.len();
    if violations == 0 {
        lines.push(Line::NoViolation);
    }
    let mut i: usize = 0;
    while i < violations
        invariant
            i <= violations,
            violations > 0 ==> lines@ == opened + Seq::new(i as nat, |j: int| Line::Violation { place: j as usize }),
            violations == 0 ==> lines@ == opened.push(Line::NoViolation),
        decreases violations - i,
    {
        lines.push(Line::Violation { place: i });
        i = i + 1;
        assert(lines@ =~= opened + Seq::new(i as nat, |j: int| Line::Violation { place: j as usize }));
    }
    assert(lines@ =~= opened + violation_lines(report.violations@.len()));
    lines.push(Line::ErrorRate);
    let ghost rated = lines@;
    let rows: &Vec<(String, u64)> = report.walk_error_volumes.rows();
    let mut r: usize = 0;
    assert(rated =~= rated + error_volume_lines(rows@).take(0));
    while r < rows.len()
        invariant
            r <= rows@.len(),
            lines@ == rated + error_volume_lines(rows@).take(r as int),
        decreases rows.len() - r,
    {
        lines.push(Line::ErrorVolume { place: r, known: is_known_multi_shell(rows[r].0.as_str()) });
        r = r + 1;
        assert(lines@ =~= rated + error_volume_lines(rows@).take(r as int));
    }
    assert(error_volume_lines(rows@).take(r as int) =~= error_volume_lines(rows@));
    let ghost named = lines@;
    let count: usize = if report.walk_errors.len() < FAILURES_TOLD { report.walk_errors.len() } else { FAILURES_TOLD };
    let mut f: usize = 0;
    assert(named =~= named + failure_lines(*report, 0));
    while f < count
        invariant
            f <= count <= report.walk_errors@.len(),
            lines@ == named + failure_lines(*report, f as int),
        decreases count - f,
    {
        lines.push(Line::Failure { place: f });
        if report.walk_errors[f].crossings.len() > 0 {
            lines.push(Line::BlamedCrossings { place: f });
        }
        f = f + 1;
        assert(lines@ =~= named + failure_lines(*report, f as int));
    }
    assert(lines@ =~= start + head_lines(*report));
}

fn push_survey(report: &Report, lines: &mut Vec<Line>)
    ensures
        final(lines)@ == old(lines)@ + survey_lines(*report),
{
    let ghost start = lines@;
    lines.push(Line::CensusHeading);
    let ghost opened = lines@;
    let census: usize = report.presence_census.len();
    let mut i: usize = 0;
    assert(opened =~= opened + Seq::new(0, |j: int| Line::Census { place: j as usize }));
    while i < census
        invariant
            i <= census,
            lines@ == opened + Seq::new(i as nat, |j: int| Line::Census { place: j as usize }),
        decreases census - i,
    {
        lines.push(Line::Census { place: i });
        i = i + 1;
        assert(lines@ =~= opened + Seq::new(i as nat, |j: int| Line::Census { place: j as usize }));
    }
    lines.push(Line::RoutesHeading);
    let ghost routed = lines@;
    let routes: usize = report.min_reach.len();
    let mut r: usize = 0;
    assert(routed =~= routed + Seq::new(0, |j: int| Line::Route { place: j as usize }));
    while r < routes
        invariant
            r <= routes,
            lines@ == routed + Seq::new(r as nat, |j: int| Line::Route { place: j as usize }),
        decreases routes - r,
    {
        lines.push(Line::Route { place: r });
        r = r + 1;
        assert(lines@ =~= routed + Seq::new(r as nat, |j: int| Line::Route { place: j as usize }));
    }
    assert(lines@ =~= start + survey_lines(*report));
}

proof fn lemma_first_covering(openings: Seq<findings::Blessing>, point: Vec3, place: int, i: int)
    requires
        0 <= i <= place <= openings.len(),
        forall|j: int| 0 <= j < place ==> !(#[trigger] openings[j]).reaches(point),
        place < openings.len() ==> openings[place].reaches(point),
    ensures
        first_covering(openings, point, i) == if place < openings.len() {
            Some(place as usize)
        } else {
            None
        },
    decreases place - i,
{
    if i < place {
        lemma_first_covering(openings, point, place, i + 1);
    }
}

/// The lines of one region.
fn push_region(region: &Region, place: usize, bless: &BlessList, lines: &mut Vec<Line>)
    ensures
        final(lines)@ == old(lines)@ + region_lines(*region, place, *bless),
{
    let ghost start = lines@;
    let opening: Option<usize> = blessing_of(&bless.openings, region.entry_local);
    proof {
        match opening {
            Some(i) => {
                lemma_first_covering(bless.openings@, region.entry_local, i as int, 0);
            },
            None => {
                assert forall|j: int| 0 <= j < bless.openings@.len() implies !(#[trigger] bless.openings@[j]).reaches(
                    region.entry_local,
                ) by {}
                lemma_first_covering(bless.openings@, region.entry_local, bless.openings@.len() as int, 0);
            },
        }
    }
    lines.push(Line::RegionHeading { place, opening });
    if let Some(opening) = opening {
        lines.push(Line::Blessed { opening });
    }
    if region.admitting.is_some() {
        lines.push(Line::AdmittingCaliber { place });
    }
    lines.push(Line::RegionEntry { place });
    lines.push(Line::RegionRays { place });
    lines.push(Line::MeasurementsHeading);
    let ghost opened = lines@;
    let count: usize = if region.measurements.len() < PROBE_COUNT { region.measurements.len() } else { PROBE_COUNT };
    let mut gun: usize = 0;
    assert(opened =~= opened + measurement_lines(place, 0));
    while gun < count
        invariant
            gun <= count,
            lines@ == opened + measurement_lines(place, gun as nat),
        decreases count - gun,
    {
        lines.push(Line::Measurement { place, gun });
        gun = gun + 1;
        assert(lines@ =~= opened + measurement_lines(place, gun as nat));
    }
    lines.push(Line::RegionEnd);
    assert(lines@ =~= start + region_lines(*region, place, *bless));
}

fn push_corridors(report: &Report, bless: &BlessList, lines: &mut Vec<Line>)
    ensures
        final(lines)@ == old(lines)@ + corridor_lines(*report, *bless),
{
    let ghost start = lines@;
    lines.push(Line::CorridorsHeading);
    if report.sweeps_truncated {
        lines.push(Line::Truncated);
    }
    if report.regions.len() == 0 {
        lines.push(Line::NoRegion);
    }
    let ghost opened = lines@;
    let mut n: usize = 0;
    assert(opened =~= opened + regions_lines(report.regions@, *bless, 0));
    while n < report.regions.len()
        invariant
            n <= report.regions@.len(),
            lines@ == opened + regions_lines(report.regions@, *bless, n as int),
        decreases report.regions.len() - n,
    {
        push_region(&report.regions[n], n, bless, lines);
        n = n + 1;
        assert(lines@ =~= opened + regions_lines(report.regions@, *bless, n as int));
    }
    assert(lines@ =~= start + corridor_lines(*report, *bless));
}

fn push_verdict(verdict: &Verdict, lines: &mut Vec<Line>)
    ensures
        final(lines)@ == old(lines)@ + verdict_lines(*verdict),
{
    let ghost start = lines@;
    lines.push(Line::VerdictHeading);
    if verdict.unblessed.len() == 0 {
        lines.push(Line::AllBlessed);
    }
    let ghost opened = lines@;
    let mut i: usize = 0;
    assert(opened =~= opened + Seq::new(0, |j: int| Line::Unblessed { place: verdict.unblessed@[j] }));
    while i < verdict.unblessed.len()
        invariant
            i <= verdict.unblessed@.len(),
            lines@ == opened + Seq::new(i as nat, |j: int| Line::Unblessed { place: verdict.unblessed@[j] }),
        decreases verdict.unblessed.len() - i,
    {
        lines.push(Line::Unblessed { place: verdict.unblessed[i] });
        i = i + 1;
        assert(lines@ =~= opened + Seq::new(i as nat, |j: int| Line::Unblessed { place: verdict.unblessed@[j] }));
    }
    let ghost judged = lines@;
    let stale: usize = verdict.stale.len();
    let mut s: usize = 0;
    assert(judged =~= judged + Seq::new(0, |j: int| Line::Stale { place: j as usize }));
    while s < stale
        invariant
            s <= stale,
            lines@ == judged + Seq::new(s as nat, |j: int| Line::Stale { place: j as usize }),
        decreases stale - s,
    {
        lines.push(Line::Stale { place: s });
        s = s + 1;
        assert(lines@ =~= judged + Seq::new(s as nat, |j: int| Line::Stale { place: j as usize }));
    }
    assert(lines@ =~= start + verdict_lines(*verdict));
}

/// The report, line by line.
pub fn render(report: &Report, bless: &BlessList, verdict: &Verdict) -> (lines: Vec<Line>)
    ensures
        lines@ == report_lines(*report, *bless, *verdict),
{
    let mut lines: Vec<Line> = Vec::new();
    push_head(report, &mut lines);
    push_survey(report, &mut lines);
    push_corridors(report, bless, &mut lines);
    push_verdict(verdict, &mut lines);
    assert(lines@ =~= report_lines(*report, *bless, *verdict));
    lines
}


proof fn lemma_the_first_opening_that_covers_is_told(openings: Seq<findings::Blessing>, point: Vec3, from: int)
    requires
        0 <= from,
        openings.len() <= usize::MAX,
    ensures
        match first_covering(openings, point, from) {
            Some(place) => exists|i: int|
                {
                    &&& from <= i < openings.len()
                    &&& point.difference((#[trigger] openings[i]).center).norm().at_most((#[trigger] openings[i]).radius)
                    &&& place == i
                    &&& forall|j: int| from <= j < i ==> !(point.difference((#[trigger] openings[j]).center).norm().at_most((#[trigger] openings[j]).radius))
                },
            None => forall|j: int| from <= j < openings.len() ==> !(point.difference((#[trigger] openings[j]).center).norm().at_most((#[trigger] openings[j]).radius)),
        },
    decreases openings.len() - from,
{
    if from < openings.len() && !(point.difference(openings[from].center).norm().at_most(openings[from].radius)) {
        lemma_the_first_opening_that_covers_is_told(openings, point, from + 1);
    } else if from < openings.len() {
        assert(point.difference(openings[from].center).norm().at_most(openings[from].radius));
    }
}

/// The opening told of a point is the first whose centre is no further from it than the radius; none exactly where
/// every centre is further.
pub proof fn law_the_first_opening_that_covers_is_told(openings: Seq<findings::Blessing>, point: Vec3)
    requires
        openings.len() <= usize::MAX,
    ensures
        match first_covering(openings, point, 0) {
            Some(place) => exists|i: int|
                {
                    &&& 0 <= i < openings.len()
                    &&& point.difference((#[trigger] openings[i]).center).norm().at_most((#[trigger] openings[i]).radius)
                    &&& place == i
                    &&& forall|j: int| 0 <= j < i ==> !(point.difference((#[trigger] openings[j]).center).norm().at_most((#[trigger] openings[j]).radius))
                },
            None => forall|j: int| 0 <= j < openings.len() ==> !(point.difference((#[trigger] openings[j]).center).norm().at_most((#[trigger] openings[j]).radius)),
        },
{
    lemma_the_first_opening_that_covers_is_told(openings, point, 0);
}

} // verus!
