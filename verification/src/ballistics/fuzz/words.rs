//! The words of those lines of the report that hold no measured number.

use crate::ballistics::fuzz::findings;
use crate::ballistics::fuzz::findings::{BlessList, Region, Report, TargetKind, Verdict};
use crate::ballistics::fuzz::lines;
use crate::ballistics::fuzz::lines::Line;
use crate::text;
use crate::text::decimal;
use vstd::prelude::*;
use vstd::string::StringExecFns;

verus! {

/// The names of the first `n` rows, with a comma between each two.
pub open spec fn listed_names(rows: Seq<(String, ())>, n: int) -> Seq<char>
    decreases n,
{
    if n <= 0 {
        ""@
    } else if n == 1 {
        rows[0].0@
    } else {
        listed_names(rows, n - 1) + ", "@ + rows[n - 1].0@
    }
}

/// The name of a kind of target.
pub open spec fn kind_name(kind: TargetKind) -> Seq<char> {
    match kind {
        TargetKind::Crew => "crew"@,
        TargetKind::Ammo => "ammo"@,
    }
}

/// The place that the line tells of is there to be told of.
pub open spec fn fits(line: Line, report: Report, bless: BlessList, verdict: Verdict) -> bool {
    match line {
        Line::Violation { place } => place < report.violations@.len(),
        Line::ErrorVolume { place, known: _ } => place < report.walk_error_volumes.listed().len(),
        Line::Failure { place } => place < report.walk_errors@.len(),
        Line::BlamedCrossings { place } => place < report.walk_errors@.len(),
        Line::Census { place } => place < report.presence_census.listed().len(),
        Line::Route { place } => place < report.min_reach.listed().len(),
        Line::RegionHeading { place, opening } => place < report.regions@.len() && (opening matches Some(i) ==> i
            < bless.openings@.len()),
        Line::Blessed { opening } => opening < bless.openings@.len(),
        Line::AdmittingCaliber { place } => place < report.regions@.len(),
        Line::RegionEntry { place } => place < report.regions@.len(),
        Line::RegionRays { place } => place < report.regions@.len(),
        Line::Measurement { place, gun } => place < report.regions@.len() && gun < findings::PROBE_COUNT && gun
            < report.regions@[place as int].measurements@.len(),
        Line::Unblessed { place } => place < report.regions@.len(),
        Line::Stale { place } => place < verdict.stale@.len(),
        _ => true,
    }
}

/// The text of a line, where it holds no measured number.
pub open spec fn words_of(line: Line, report: Report, bless: BlessList, verdict: Verdict) -> Option<Seq<char>> {
    match line {
        Line::Title => Some("# Ballistic ray fuzzer — Tiger I\n"@),
        Line::InvariantsHeading => Some("## Invariants\n"@),
        Line::NoViolation => Some("- no violation"@),
        Line::ErrorRate => Some(
            "\n`WalkError` rate: "@ + text::decimal_of(report.walk_errors@.len()) + " / "@ + text::decimal_of(
                report.rays as nat,
            ) + " rays"@,
        ),
        Line::ErrorVolume { place, known } => {
            let (volume, count) = report.walk_error_volumes.listed()[place as int];
            Some(
                "- `"@ + volume@ + "` — "@ + text::decimal_of(count as nat) + if known {
                    " (known multi-shell gap)"@
                } else {
                    " (**UNEXPLAINED**)"@
                },
            )
        },
        Line::CensusHeading => Some("\n## Volume census (rays crossing each volume)\n"@),
        Line::Census { place } => {
            let (volume, count) = report.presence_census.listed()[place as int];
            Some("- `"@ + volume@ + "` — "@ + text::decimal_of(count as nat))
        },
        Line::RoutesHeading => Some(
            "\n## Thinnest route to each crew / ammunition volume\n\n| volume | cheapest axis cost (ref-mm) |\n|---|---|"@,
        ),
        Line::CorridorsHeading => Some("\n## Corridors reaching crew or ammunition\n"@),
        Line::Truncated => Some(
            "> **TRUNCATED** — the region cap was reached; the list below is not exhaustive.\n"@,
        ),
        Line::NoRegion => Some("None."@),
        Line::RegionHeading { place, opening } => {
            let region = report.regions@[place as int];
            let name = match opening {
                Some(i) => bless.openings@[i as int].name@,
                None => "UNBLESSED"@,
            };
            let rows = region.targets.listed();
            Some("### "@ + name + " · "@ + kind_name(region.kind) + " · "@ + listed_names(rows, rows.len() as int))
        },
        Line::MeasurementsHeading => Some(
            "\n| round | η | cost (ref-mm) | capability | admits |\n|---|---|---|---|---|"@,
        ),
        Line::RegionEnd => Some(""@),
        Line::VerdictHeading => Some("\n## Verdict\n"@),
        Line::AllBlessed => Some("- every corridor found is blessed"@),
        Line::Stale { place } => Some(
            "- stale blessing (no corridor found): `"@ + verdict.stale@[place as int]@ + "`"@,
        ),
        _ => None,
    }
}

fn name_list(region: &Region) -> (names: String)
    ensures
        names@ == listed_names(region.targets.listed(), region.targets.listed().len() as int),
{
    let rows: &Vec<(String, ())> = region.targets.rows();
    if rows.len() == 0 {
        return "".to_owned();
    }
    let mut names: String = rows[0].0.clone();
    let mut n: usize = 1;
    while n < rows.len()
        invariant
            1 <= n <= rows@.len(),
            names@ == listed_names(rows@, n as int),
        decreases rows.len() - n,
    {
        names = names.concat(", ").concat(rows[n].0.as_str());
        n = n + 1;
    }
    names
}

/// The text of a line that holds no measured number; of any other, nothing.
pub fn line_words(line: Line, report: &Report, bless: &BlessList, verdict: &Verdict) -> (words: Option<String>)
    requires
        fits(line, *report, *bless, *verdict),
    ensures
        words is Some <==> words_of(line, *report, *bless, *verdict) is Some,
        words matches Some(words) ==> Some(words@) == words_of(line, *report, *bless, *verdict),
{
    match line {
        Line::Title => Some("# Ballistic ray fuzzer — Tiger I\n".to_owned()),
        Line::InvariantsHeading => Some("## Invariants\n".to_owned()),
        Line::NoViolation => Some("- no violation".to_owned()),
        Line::ErrorRate => Some(
            "\n`WalkError` rate: ".to_owned().concat(decimal(report.walk_errors.len() as u64).as_str()).concat(
                " / ",
            ).concat(decimal(report.rays).as_str()).concat(" rays"),
        ),
        Line::ErrorVolume { place, known } => {
            let row: &(String, u64) = &report.walk_error_volumes.rows()[place];
            Some(
                "- `".to_owned().concat(row.0.as_str()).concat("` — ").concat(decimal(row.1).as_str()).concat(
                    if known {
                        " (known multi-shell gap)"
                    } else {
                        " (**UNEXPLAINED**)"
                    },
                ),
            )
        },
        Line::CensusHeading => Some("\n## Volume census (rays crossing each volume)\n".to_owned()),
        Line::Census { place } => {
            let row: &(String, u64) = &report.presence_census.rows()[place];
            Some("- `".to_owned().concat(row.0.as_str()).concat("` — ").concat(decimal(row.1).as_str()))
        },
        Line::RoutesHeading => Some(
            "\n## Thinnest route to each crew / ammunition volume\n\n| volume | cheapest axis cost (ref-mm) |\n|---|---|".to_owned(),
        ),
        Line::CorridorsHeading => Some("\n## Corridors reaching crew or ammunition\n".to_owned()),
        Line::Truncated => Some(
            "> **TRUNCATED** — the region cap was reached; the list below is not exhaustive.\n".to_owned(),
        ),
        Line::NoRegion => Some("None.".to_owned()),
        Line::RegionHeading { place, opening } => {
            let region: &Region = &report.regions[place];
            let name: &str = match opening {
                Some(i) => bless.openings[i].name.as_str(),
                None => "UNBLESSED",
            };
            Some(
                "### ".to_owned().concat(name).concat(" · ").concat(region.kind.label()).concat(" · ").concat(
                    name_list(region).as_str(),
                ),
            )
        },
        Line::MeasurementsHeading => Some(
            "\n| round | η | cost (ref-mm) | capability | admits |\n|---|---|---|---|---|".to_owned(),
        ),
        Line::RegionEnd => Some("".to_owned()),
        Line::VerdictHeading => Some("\n## Verdict\n".to_owned()),
        Line::AllBlessed => Some("- every corridor found is blessed".to_owned()),
        Line::Stale { place } => Some(
            "- stale blessing (no corridor found): `".to_owned().concat(verdict.stale[place].as_str()).concat("`"),
        ),
        _ => None,
    }
}

spec fn all_fit(lines: Seq<Line>, report: Report, bless: BlessList, verdict: Verdict) -> bool {
    forall|i: int| 0 <= i < lines.len() ==> fits(#[trigger] lines[i], report, bless, verdict)
}

proof fn lemma_joined(a: Seq<Line>, b: Seq<Line>, report: Report, bless: BlessList, verdict: Verdict)
    requires
        all_fit(a, report, bless, verdict),
        all_fit(b, report, bless, verdict),
    ensures
        all_fit(a + b, report, bless, verdict),
{
    assert forall|i: int| 0 <= i < (a + b).len() implies fits(#[trigger] (a + b)[i], report, bless, verdict) by {
        if i < a.len() {
            assert((a + b)[i] == a[i]);
        } else {
            assert((a + b)[i] == b[i - a.len()]);
        }
    }
}

proof fn lemma_failures(report: Report, bless: BlessList, verdict: Verdict, n: int)
    requires
        0 <= n <= report.walk_errors@.len() <= usize::MAX,
    ensures
        all_fit(lines::failure_lines(report, n), report, bless, verdict),
    decreases n,
{
    if n > 0 {
        lemma_failures(report, bless, verdict, n - 1);
    }
}

proof fn lemma_first(openings: Seq<findings::Blessing>, point: crate::vector::Vec3, i: int)
    requires
        openings.len() <= usize::MAX,
    ensures
        lines::first_covering(openings, point, i) matches Some(k) ==> k < openings.len(),
    decreases openings.len() - i,
{
    if 0 <= i < openings.len() {
        lemma_first(openings, point, i + 1);
    }
}

proof fn lemma_regions(report: Report, bless: BlessList, verdict: Verdict, n: int)
    requires
        0 <= n <= report.regions@.len() <= usize::MAX,
        bless.openings@.len() <= usize::MAX,
    ensures
        all_fit(lines::regions_lines(report.regions@, bless, n), report, bless, verdict),
    decreases n,
{
    if n > 0 {
        lemma_regions(report, bless, verdict, n - 1);
        let region = report.regions@[n - 1];
        lemma_first(bless.openings@, region.entry_local, 0);
        let own = lines::region_lines(region, (n - 1) as usize, bless);
        assert(all_fit(own, report, bless, verdict));
        lemma_joined(lines::regions_lines(report.regions@, bless, n - 1), own, report, bless, verdict);
    }
}

/// Every line of a report tells of something that is there, so all of its text can be written.
pub proof fn law_every_line_can_be_told(report: Report, bless: BlessList, verdict: Verdict, i: int)
    requires
        0 <= i < lines::report_lines(report, bless, verdict).len(),
        report.violations@.len() <= usize::MAX,
        report.walk_errors@.len() <= usize::MAX,
        report.regions@.len() <= usize::MAX,
        report.walk_error_volumes.listed().len() <= usize::MAX,
        report.presence_census.listed().len() <= usize::MAX,
        report.min_reach.listed().len() <= usize::MAX,
        bless.openings@.len() <= usize::MAX,
        verdict.stale@.len() <= usize::MAX,
        forall|k: int|
            0 <= k < verdict.unblessed@.len() ==> (#[trigger] verdict.unblessed@[k]) < report.regions@.len(),
    ensures
        fits(lines::report_lines(report, bless, verdict)[i], report, bless, verdict),
{
    lemma_failures(report, bless, verdict, lines::told(report));
    lemma_regions(report, bless, verdict, report.regions@.len() as int);
    let (head, survey) = (lines::head_lines(report), lines::survey_lines(report));
    let (corridors, last) = (lines::corridor_lines(report, bless), lines::verdict_lines(verdict));
    assert(all_fit(head, report, bless, verdict));
    assert(all_fit(survey, report, bless, verdict));
    assert(all_fit(corridors, report, bless, verdict));
    assert(all_fit(last, report, bless, verdict));
    lemma_joined(head, survey, report, bless, verdict);
    lemma_joined(head + survey, corridors, report, bless, verdict);
    lemma_joined(head + survey + corridors, last, report, bless, verdict);
}

} // verus!
