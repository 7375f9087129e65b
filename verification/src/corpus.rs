//! Everything a corpus of devices is asked, and the answers as text.

use vstd::prelude::*;
use crate::dump::Device;
use crate::order::{tallied, views, Entry, EntryView};
use crate::rules::{
    all_verdicts, answers_fit, canvas_verdicts, every_primary_can_host_a_canvas, found,
    rotation_always_advertises_zero, src_w_on_every_atomic_plane,
    the_corpus_parsed_into_something_usable, usable_verdict, CanvasAnswer, Finding, PlaneRule,
};
use crate::survey::{
    corpus_paths, corpus_states, cursor_paths, cursor_rows, damage_clips_by_driver, damage_notes,
    damage_rows, degenerate_mutable_zpos, one, paths_fit, ranked_rows, rotation_shapes, survey_notes,
    surveyed, tally_notes, zpos_shapes, CursorPath, PlaneSurvey, RowView, Survey,
};
use crate::text::{
    decimal, push_decimal, push_right_aligned, push_text, push_wide_decimal, right_aligned, texts,
};

verus! {

/// How many survey rows are printed before the tail is summarised.
pub const SURVEY_ROWS: usize = 14;

/// How many violations of one rule are printed before the rest is counted.
pub const SHOWN_VIOLATIONS: usize = 10;

/// Everything a corpus was asked.
#[derive(Debug, PartialEq, Eq)]
pub struct Report {
    /// The rules.
    pub findings: Vec<Finding>,
    /// The distributions.
    pub surveys: Vec<Survey>,
}

/// How many violations a run of findings has.
pub open spec fn violation_total(findings: Seq<Finding>) -> nat
    decreases findings.len(),
{
    if findings.len() == 0 {
        0
    } else {
        violation_total(findings.drop_last()) + findings.last().violations@.len()
    }
}

/// How many dumps of a corpus were taken atomically.
pub open spec fn atomic_total(devices: Seq<Device>) -> nat
    decreases devices.len(),
{
    if devices.len() == 0 {
        0
    } else {
        atomic_total(devices.drop_last()) + if devices.last().atomic {
            1nat
        } else {
            0
        }
    }
}

/// The line a report opens with.
pub open spec fn opening(devices: Seq<Device>) -> Seq<char> {
    decimal(atomic_total(devices)) + " of "@ + decimal(devices.len())
        + " dumps carry atomic plane properties; rules about them apply to those.\n\n"@
}

/// A run of indented lines.
pub open spec fn indented_lines(lines: Seq<Seq<char>>) -> Seq<char>
    decreases lines.len(),
{
    if lines.len() == 0 {
        Seq::empty()
    } else {
        indented_lines(lines.drop_last()) + "      "@ + lines.last() + "\n"@
    }
}

/// The first of a list, up to a limit.
pub open spec fn first<T>(items: Seq<T>, limit: usize) -> Seq<T> {
    if items.len() < limit {
        items
    } else {
        items.take(limit as int)
    }
}

/// A finding as text: one line where nothing broke the rule, and otherwise what
/// it means, the first violations, and how many more there are.
pub open spec fn finding_text(finding: Finding) -> Seq<char> {
    let broken = texts(finding.violations@);
    if broken.len() == 0 {
        "ok    "@ + finding.rule@ + " ("@ + decimal(finding.checked as nat) + " checked)\n"@
    } else {
        "FAIL  "@ + finding.rule@ + " -- "@ + decimal(broken.len()) + " of "@ + decimal(
            finding.checked as nat,
        ) + " checked\n"@ + "      "@ + finding.matters@ + "\n"@ + indented_lines(
            first(broken, SHOWN_VIOLATIONS),
        ) + if broken.len() > SHOWN_VIOLATIONS {
            "      ... and "@ + decimal((broken.len() - SHOWN_VIOLATIONS) as nat) + " more\n"@
        } else {
            Seq::empty()
        }
    }
}

/// A run of survey rows as text.
pub open spec fn rows_text(rows: Seq<RowView>) -> Seq<char>
    decreases rows.len(),
{
    if rows.len() == 0 {
        Seq::empty()
    } else {
        rows_text(rows.drop_last()) + "  "@ + right_aligned(decimal(rows.last().count), 6) + "  "@
            + rows.last().label + "\n"@
    }
}

/// What a run of rows counts together.
pub open spec fn row_total(rows: Seq<RowView>) -> nat
    decreases rows.len(),
{
    if rows.len() == 0 {
        0
    } else {
        row_total(rows.drop_last()) + rows.last().count
    }
}

/// What is said of the rows that are not printed.
///
/// Disclosed, never silent: a truncated tail that reads as the whole
/// distribution hides what is in it.
pub open spec fn tail_text(rows: Seq<RowView>) -> Seq<char> {
    if rows.len() > SURVEY_ROWS {
        "         ... "@ + decimal((rows.len() - SURVEY_ROWS) as nat) + " more row(s), "@ + decimal(
            row_total(rows.skip(SURVEY_ROWS as int)),
        ) + " plane(s)\n"@
    } else {
        Seq::empty()
    }
}

/// A survey as text.
pub open spec fn survey_text(survey: Survey) -> Seq<char> {
    let rows = views(survey.rows@);
    "\n"@ + survey.title@ + "\n"@ + "  ("@ + survey.note@ + ")\n"@ + rows_text(
        first(rows, SURVEY_ROWS),
    ) + tail_text(rows)
}

/// A run of findings as text.
pub open spec fn findings_text(findings: Seq<Finding>) -> Seq<char>
    decreases findings.len(),
{
    if findings.len() == 0 {
        Seq::empty()
    } else {
        findings_text(findings.drop_last()) + finding_text(findings.last())
    }
}

/// A run of surveys as text.
pub open spec fn surveys_text(surveys: Seq<Survey>) -> Seq<char>
    decreases surveys.len(),
{
    if surveys.len() == 0 {
        Seq::empty()
    } else {
        surveys_text(surveys.drop_last()) + survey_text(surveys.last())
    }
}

/// Append a finding.
fn push_finding(out: &mut String, finding: &Finding)
    ensures
        final(out)@ == old(out)@ + finding_text(*finding),
{
    let ghost before = out@;
    let ghost broken = texts(finding.violations@);
    let count: usize = finding.violations.len();
    if count == 0 {
        push_text(out, "ok    ");
        push_text(out, finding.rule);
        push_text(out, " (");
        push_decimal(out, finding.checked as u64);
        push_text(out, " checked)\n");
        assert(out@ =~= before + finding_text(*finding));
        return;
    }
    push_text(out, "FAIL  ");
    push_text(out, finding.rule);
    push_text(out, " -- ");
    push_decimal(out, count as u64);
    push_text(out, " of ");
    push_decimal(out, finding.checked as u64);
    push_text(out, " checked\n");
    push_text(out, "      ");
    push_text(out, finding.matters);
    push_text(out, "\n");
    let ghost head = out@;
    let shown: usize = if count < SHOWN_VIOLATIONS {
        count
    } else {
        SHOWN_VIOLATIONS
    };
    let mut i: usize = 0;
    assert(head + indented_lines(broken.take(0)) =~= head);
    while i < shown
        invariant
            0 <= i <= shown <= finding.violations@.len(),
            broken == texts(finding.violations@),
            out@ == head + indented_lines(broken.take(i as int)),
        decreases shown - i,
    {
        assert(broken.take(i + 1).drop_last() =~= broken.take(i as int));
        push_text(out, "      ");
        push_text(out, finding.violations[i].as_str());
        push_text(out, "\n");
        assert(out@ =~= head + indented_lines(broken.take(i + 1)));
        i += 1;
    }
    assert(broken.take(i as int) =~= first(broken, SHOWN_VIOLATIONS));
    if count > SHOWN_VIOLATIONS {
        push_text(out, "      ... and ");
        push_decimal(out, (count - SHOWN_VIOLATIONS) as u64);
        push_text(out, " more\n");
    }
    assert(out@ =~= before + finding_text(*finding));
}

/// Append a survey.
fn push_survey(out: &mut String, survey: &Survey)
    ensures
        final(out)@ == old(out)@ + survey_text(*survey),
{
    let ghost before = out@;
    let ghost rows = views(survey.rows@);
    let count: usize = survey.rows.len();
    push_text(out, "\n");
    push_text(out, survey.title.as_str());
    push_text(out, "\n");
    push_text(out, "  (");
    push_text(out, survey.note);
    push_text(out, ")\n");
    let ghost head = out@;
    let shown: usize = if count < SURVEY_ROWS {
        count
    } else {
        SURVEY_ROWS
    };
    let mut i: usize = 0;
    assert(head + rows_text(rows.take(0)) =~= head);
    while i < shown
        invariant
            0 <= i <= shown <= survey.rows@.len(),
            rows == views(survey.rows@),
            out@ == head + rows_text(rows.take(i as int)),
        decreases shown - i,
    {
        assert(rows.take(i + 1).drop_last() =~= rows.take(i as int));
        assert(rows[i as int] == survey.rows@[i as int]@);
        push_text(out, "  ");
        push_right_aligned(out, survey.rows[i].count as u64, 6);
        push_text(out, "  ");
        push_text(out, survey.rows[i].label.as_str());
        push_text(out, "\n");
        assert(out@ =~= head + rows_text(rows.take(i + 1)));
        i += 1;
    }
    assert(rows.take(i as int) =~= first(rows, SURVEY_ROWS));
    if count > SURVEY_ROWS {
        let tail: u128 = tail_total(survey);
        push_text(out, "         ... ");
        push_decimal(out, (count - SURVEY_ROWS) as u64);
        push_text(out, " more row(s), ");
        push_wide_decimal(out, tail);
        push_text(out, " plane(s)\n");
    }
    assert(out@ =~= before + survey_text(*survey));
}

/// What the rows that are not printed count together.
fn tail_total(survey: &Survey) -> (total: u128)
    requires
        survey.rows@.len() > SURVEY_ROWS,
    ensures
        total == row_total(views(survey.rows@).skip(SURVEY_ROWS as int)),
{
    let count: usize = survey.rows.len();
    let ghost tail = views(survey.rows@).skip(SURVEY_ROWS as int);
    let mut total: u128 = 0;
    let mut i: usize = SURVEY_ROWS;
    assert(tail.take(0) =~= Seq::empty());
    while i < count
        invariant
            count == survey.rows@.len(),
            SURVEY_ROWS <= i <= count,
            tail == views(survey.rows@).skip(SURVEY_ROWS as int),
            total == row_total(tail.take(i - SURVEY_ROWS)),
            total <= i * usize::MAX,
        decreases count - i,
    {
        let here: usize = survey.rows[i].count;
        proof {
            assert(tail.take(i - SURVEY_ROWS + 1).drop_last() =~= tail.take(i - SURVEY_ROWS));
            assert(tail[i - SURVEY_ROWS] == survey.rows@[i as int]@);
            assert(i * usize::MAX + usize::MAX == (i + 1) * usize::MAX) by (nonlinear_arith);
            assert((i + 1) * usize::MAX <= count * usize::MAX) by (nonlinear_arith)
                requires
                    i + 1 <= count,
            ;
            assert(count * usize::MAX <= 0xffff_ffff_ffff_ffff * 0xffff_ffff_ffff_ffff)
                by (nonlinear_arith)
                requires
                    0 <= count <= 0xffff_ffff_ffff_ffff,
                    0 <= usize::MAX <= 0xffff_ffff_ffff_ffff,
            ;
        }
        total = total + here as u128;
        i += 1;
    }
    assert(tail.take(i - SURVEY_ROWS) =~= tail);
    total
}

impl Report {
    /// How many violations there are, up to the largest machine word.
    pub fn violations(&self) -> (count: usize)
        ensures
            count == if violation_total(self.findings@) <= usize::MAX {
                violation_total(self.findings@) as usize
            } else {
                usize::MAX
            },
    {
        let mut count: usize = 0;
        let mut i: usize = 0;
        assert(self.findings@.take(0) =~= Seq::empty());
        while i < self.findings.len()
            invariant
                0 <= i <= self.findings@.len(),
                count == if violation_total(self.findings@.take(i as int)) <= usize::MAX {
                    violation_total(self.findings@.take(i as int)) as usize
                } else {
                    usize::MAX
                },
            decreases self.findings@.len() - i,
        {
            assert(self.findings@.take(i + 1).drop_last() =~= self.findings@.take(i as int));
            count = count.saturating_add(self.findings[i].violations.len());
            i += 1;
        }
        assert(self.findings@.take(i as int) =~= self.findings@);
        count
    }

    /// The report as text, over the corpus it was made of.
    pub fn render(&self, devices: &Vec<Device>) -> (text: String)
        ensures
            text@ == opening(devices@) + findings_text(self.findings@) + surveys_text(
                self.surveys@,
            ),
    {
        let mut atomic: usize = 0;
        let mut i: usize = 0;
        assert(devices@.take(0) =~= Seq::empty());
        while i < devices.len()
            invariant
                0 <= i <= devices@.len(),
                atomic <= i,
                atomic == atomic_total(devices@.take(i as int)),
            decreases devices@.len() - i,
        {
            assert(devices@.take(i + 1).drop_last() =~= devices@.take(i as int));
            if devices[i].atomic {
                atomic += 1;
            }
            i += 1;
        }
        assert(devices@.take(i as int) =~= devices@);
        let mut out = String::new();
        push_decimal(&mut out, atomic as u64);
        push_text(&mut out, " of ");
        push_decimal(&mut out, devices.len() as u64);
        push_text(
            &mut out,
            " dumps carry atomic plane properties; rules about them apply to those.\n\n",
        );
        assert(out@ =~= opening(devices@));
        let ghost head = out@;
        let mut j: usize = 0;
        assert(head + findings_text(self.findings@.take(0)) =~= head);
        while j < self.findings.len()
            invariant
                0 <= j <= self.findings@.len(),
                out@ == head + findings_text(self.findings@.take(j as int)),
            decreases self.findings@.len() - j,
        {
            assert(self.findings@.take(j + 1).drop_last() =~= self.findings@.take(j as int));
            push_finding(&mut out, &self.findings[j]);
            assert(out@ =~= head + findings_text(self.findings@.take(j + 1)));
            j += 1;
        }
        assert(self.findings@.take(j as int) =~= self.findings@);
        let ghost found = out@;
        let mut k: usize = 0;
        assert(found + surveys_text(self.surveys@.take(0)) =~= found);
        while k < self.surveys.len()
            invariant
                0 <= k <= self.surveys@.len(),
                out@ == found + surveys_text(self.surveys@.take(k as int)),
            decreases self.surveys@.len() - k,
        {
            assert(self.surveys@.take(k + 1).drop_last() =~= self.surveys@.take(k as int));
            push_survey(&mut out, &self.surveys[k]);
            assert(out@ =~= found + surveys_text(self.surveys@.take(k + 1)));
            k += 1;
        }
        assert(self.surveys@.take(k as int) =~= self.surveys@);
        out
    }
}

/// The answers to every rule, in order.
pub open spec fn all_found(
    findings: Seq<Finding>,
    devices: Seq<Device>,
    canvas: Seq<Vec<CanvasAnswer>>,
) -> bool {
    &&& findings.len() == 4
    &&& found(
        findings[0],
        "every device has a plane that can feed a CRTC"@,
        "not a hardware claim -- this is the shape a field that stopped being parsed produces, and every survey downstream would report zeros with the same confidence as a real answer"@,
        devices.map_values(|d: Device| usable_verdict(d)),
    )
    &&& found(
        findings[1],
        "every atomic plane has SRC_W"@,
        "supports_scaling would start carrying information, and the matcher's scaling edge would stop being dead"@,
        all_verdicts(PlaneRule::SrcW, devices),
    )
    &&& found(
        findings[2],
        "a rotatable plane advertises rotate-0"@,
        "writing rotate-0 to such a plane is EINVAL, which refuses the whole frame"@,
        all_verdicts(PlaneRule::RotateZero, devices),
    )
    &&& found(
        findings[3],
        "every primary plane can host a composition canvas"@,
        "composition is impossible on that device, so layers past the plane count are dropped rather than blended"@,
        canvas_verdicts(devices, canvas),
    )
}

/// The answers to every survey, in order.
pub open spec fn all_surveyed(
    surveys: Seq<Survey>,
    devices: Seq<Device>,
    paths: Seq<Vec<CursorPath>>,
) -> bool {
    &&& surveys.len() == 5
    &&& surveyed(
        surveys[0],
        "FB_DAMAGE_CLIPS by driver"@,
        "a comment in the reference names vc4 as capable; the driver never attaches the property -- this is issue #255"@,
        damage_rows(damage_notes(devices)),
    )
    &&& surveyed(
        surveys[1],
        "rotation shapes in the wild"@,
        "the allocator gates on bits, not on the property's presence, because a rotatable plane that cannot do 90/270 is common"@,
        ranked_rows(survey_notes(PlaneSurvey::Rotation, devices)),
    )
    &&& surveyed(
        surveys[2],
        "zpos shapes"@,
        "a degenerate range that is NOT immutable is the P-6 case; clamp_zpos is what keeps it from refusing the frame"@,
        ranked_rows(survey_notes(PlaneSurvey::Zpos, devices)),
    )
    &&& surveyed(
        surveys[3],
        "degenerate but mutable zpos, by driver (the P-6 shape)"@,
        "clamp_zpos turns these into a write of the only legal value; without it the frame is refused whole"@,
        ranked_rows(survey_notes(PlaneSurvey::DegenerateZpos, devices)),
    )
    &&& surveyed(
        surveys[4],
        "cursor path per CRTC, replayed through select_plane"@,
        "each fallback costs an overlay, or the ability to coalesce the cursor with a frame and to rotate it"@,
        cursor_rows(corpus_states(devices), corpus_paths(devices, paths)),
    )
}

/// Ask a corpus everything.
pub fn check_all(
    devices: &Vec<Device>,
    canvas: &Vec<Vec<CanvasAnswer>>,
    paths: &Vec<Vec<CursorPath>>,
) -> (report: Report)
    requires
        answers_fit(devices@, canvas@),
        paths_fit(devices@, paths@),
    ensures
        all_found(report.findings@, devices@, canvas@),
        all_surveyed(report.surveys@, devices@, paths@),
{
    let mut findings: Vec<Finding> = Vec::new();
    findings.push(the_corpus_parsed_into_something_usable(devices));
    findings.push(src_w_on_every_atomic_plane(devices));
    findings.push(rotation_always_advertises_zero(devices));
    findings.push(every_primary_can_host_a_canvas(devices, canvas));
    let mut surveys: Vec<Survey> = Vec::new();
    surveys.push(damage_clips_by_driver(devices));
    surveys.push(rotation_shapes(devices));
    surveys.push(zpos_shapes(devices));
    surveys.push(degenerate_mutable_zpos(devices));
    surveys.push(cursor_paths(devices, paths));
    Report { findings, surveys }
}

/// One note for each device, under its driver.
pub open spec fn driver_notes(devices: Seq<Device>) -> Seq<EntryView> {
    devices.map_values(|d: Device| one(d.driver@))
}

/// How large a corpus is, in devices and in drivers.
pub fn summary(devices: &Vec<Device>) -> (text: String)
    ensures
        text@ == decimal(devices@.len()) + " device(s), "@ + decimal(
            tallied(driver_notes(devices@)).len(),
        ) + " driver(s)\n"@,
{
    let ghost all = driver_notes(devices@);
    let mut notes: Vec<Entry> = Vec::new();
    let mut i: usize = 0;
    assert(views(notes@) =~= all.take(0));
    while i < devices.len()
        invariant
            0 <= i <= devices@.len(),
            all == driver_notes(devices@),
            views(notes@) == all.take(i as int),
            forall|k: int|
                0 <= k < notes@.len() ==> (#[trigger] notes@[k]).count <= notes@[k].total
                    && notes@[k].total <= 1,
        decreases devices@.len() - i,
    {
        let ghost before = notes@;
        let note = Entry { rank: 0, label: devices[i].driver.clone(), count: 1, total: 1 };
        notes.push(note);
        assert(views(notes@) =~= views(before).push(note@));
        assert(all.take(i + 1) =~= all.take(i as int).push(all[i as int]));
        i += 1;
    }
    assert(all.take(i as int) =~= all);
    let drivers = tally_notes(notes);
    assert(views(drivers.entries@).len() == drivers.entries@.len());
    let mut out = String::new();
    push_decimal(&mut out, devices.len() as u64);
    push_text(&mut out, " device(s), ");
    push_decimal(&mut out, drivers.entries.len() as u64);
    push_text(&mut out, " driver(s)\n");
    assert(out@ =~= decimal(devices@.len()) + " device(s), "@ + decimal(tallied(all).len())
        + " driver(s)\n"@);
    out
}

/// No row of a survey goes unaccounted for: the rows that are printed and the
/// tail that is summed up make the whole.
pub proof fn law_tail_is_disclosed(rows: Seq<RowView>)
    ensures
        row_total(first(rows, SURVEY_ROWS)) + (if rows.len() > SURVEY_ROWS {
            row_total(rows.skip(SURVEY_ROWS as int))
        } else {
            0
        }) == row_total(rows),
{
    if rows.len() > SURVEY_ROWS {
        lemma_total_splits(rows, SURVEY_ROWS as int);
    } else {
        assert(first(rows, SURVEY_ROWS) =~= rows);
    }
}

proof fn lemma_total_splits(rows: Seq<RowView>, at: int)
    requires
        0 <= at <= rows.len(),
    ensures
        row_total(rows.take(at)) + row_total(rows.skip(at)) == row_total(rows),
    decreases rows.len() - at,
{
    if at == rows.len() {
        assert(rows.take(at) =~= rows);
        assert(row_total(rows.skip(at)) == 0);
    } else {
        lemma_total_splits(rows.drop_last(), at);
        assert(rows.drop_last().take(at) =~= rows.take(at));
        assert(rows.drop_last().skip(at) =~= rows.skip(at).drop_last());
    }
}

/// A report has as many violations as its findings have together.
pub proof fn law_violations_add_up(findings: Seq<Finding>, finding: Finding)
    ensures
        violation_total(Seq::empty()) == 0,
        violation_total(findings.push(finding)) == violation_total(findings)
            + finding.violations@.len(),
{
    assert(findings.push(finding).drop_last() =~= findings);
}

/// The opening says how many of the dumps are atomic.
pub proof fn law_the_opening_counts_the_atomic(devices: Seq<Device>)
    ensures
        opening(devices) == decimal(devices.filter(|d: Device| d.atomic).len()) + " of "@ + decimal(
            devices.len(),
        ) + " dumps carry atomic plane properties; rules about them apply to those.\n\n"@,
{
    lemma_atomic_total(devices);
}

proof fn lemma_atomic_total(devices: Seq<Device>)
    ensures
        atomic_total(devices) == devices.filter(|d: Device| d.atomic).len(),
    decreases devices.len(),
{
    reveal(Seq::filter);
    if devices.len() > 0 {
        lemma_atomic_total(devices.drop_last());
    }
}

/// Lines are indented by six and stand in order.
pub proof fn law_lines_are_indented(lines: Seq<Seq<char>>, line: Seq<char>)
    ensures
        indented_lines(Seq::empty()).len() == 0,
        indented_lines(lines.push(line)) == indented_lines(lines) + "      "@ + line + "\n"@,
{
    assert(lines.push(line).drop_last() =~= lines);
}

/// A finding that nothing broke is one line; a broken one says how often, why it
/// matters, and shows every violation up to ten, and how many more there are.
pub proof fn law_findings_disclose_what_broke(
    finding: Finding,
    shown: Seq<Seq<char>>,
)
    requires
        shown.len() <= finding.violations@.len(),
        forall|k: int| 0 <= k < shown.len() ==> #[trigger] shown[k] == finding.violations@[k]@,
    ensures
        finding.violations@.len() == 0 ==> finding_text(finding) == "ok    "@ + finding.rule@
            + " ("@ + decimal(finding.checked as nat) + " checked)\n"@,
        0 < finding.violations@.len() <= 10 && shown.len() == finding.violations@.len()
            ==> finding_text(finding) == "FAIL  "@ + finding.rule@ + " -- "@ + decimal(
            shown.len(),
        ) + " of "@ + decimal(finding.checked as nat) + " checked\n"@ + "      "@
            + finding.matters@ + "\n"@ + indented_lines(shown),
        finding.violations@.len() > 10 && shown.len() == 10 ==> finding_text(finding) == "FAIL  "@
            + finding.rule@ + " -- "@ + decimal(finding.violations@.len()) + " of "@ + decimal(
            finding.checked as nat,
        ) + " checked\n"@ + "      "@ + finding.matters@ + "\n"@ + indented_lines(shown)
            + "      ... and "@ + decimal((finding.violations@.len() - 10) as nat) + " more\n"@,
{
    let broken = texts(finding.violations@);
    if shown.len() == finding.violations@.len() && shown.len() <= 10 {
        assert(first(broken, SHOWN_VIOLATIONS) =~= shown);
        assert(finding_text(finding) =~= "FAIL  "@ + finding.rule@ + " -- "@ + decimal(shown.len())
            + " of "@ + decimal(finding.checked as nat) + " checked\n"@ + "      "@
            + finding.matters@ + "\n"@ + indented_lines(shown) || shown.len() == 0);
    }
    if finding.violations@.len() > 10 && shown.len() == 10 {
        assert(first(broken, SHOWN_VIOLATIONS) =~= shown);
        assert(finding_text(finding) =~= "FAIL  "@ + finding.rule@ + " -- "@ + decimal(
            finding.violations@.len(),
        ) + " of "@ + decimal(finding.checked as nat) + " checked\n"@ + "      "@
            + finding.matters@ + "\n"@ + indented_lines(shown) + "      ... and "@ + decimal(
            (finding.violations@.len() - 10) as nat,
        ) + " more\n"@);
    }
}

/// A survey names itself, says what it is for, and prints its first fourteen rows
/// in order; of the rest it says how many they are and what they count.
pub proof fn law_surveys_print_and_disclose(survey: Survey, rows: Seq<RowView>)
    requires
        views(survey.rows@) == rows,
    ensures
        rows.len() <= 14 ==> survey_text(survey) == "\n"@ + survey.title@ + "\n"@ + "  ("@
            + survey.note@ + ")\n"@ + rows_text(rows),
        rows.len() > 14 ==> survey_text(survey) == "\n"@ + survey.title@ + "\n"@ + "  ("@
            + survey.note@ + ")\n"@ + rows_text(rows.take(14)) + "         ... "@ + decimal(
            (rows.len() - 14) as nat,
        ) + " more row(s), "@ + decimal(row_total(rows.skip(14))) + " plane(s)\n"@,
{
    if rows.len() <= 14 {
        assert(first(rows, SURVEY_ROWS) =~= rows);
        assert(survey_text(survey) =~= "\n"@ + survey.title@ + "\n"@ + "  ("@ + survey.note@
            + ")\n"@ + rows_text(rows));
    } else {
        assert(first(rows, SURVEY_ROWS) =~= rows.take(14));
        assert(survey_text(survey) =~= "\n"@ + survey.title@ + "\n"@ + "  ("@ + survey.note@
            + ")\n"@ + rows_text(rows.take(14)) + "         ... "@ + decimal(
            (rows.len() - 14) as nat,
        ) + " more row(s), "@ + decimal(row_total(rows.skip(14))) + " plane(s)\n"@);
    }
}

/// A row is its count in a column of six and its label, and rows stand in order
/// and add up.
pub proof fn law_rows_are_printed_in_order(rows: Seq<RowView>, row: RowView)
    ensures
        rows_text(Seq::empty()).len() == 0,
        rows_text(rows.push(row)) == rows_text(rows) + "  "@ + right_aligned(
            decimal(row.count),
            6,
        ) + "  "@ + row.label + "\n"@,
        row_total(Seq::empty()) == 0,
        row_total(rows.push(row)) == row_total(rows) + row.count,
{
    assert(rows.push(row).drop_last() =~= rows);
}

/// Findings stand in order, and so do surveys.
pub proof fn law_a_report_is_written_in_order(
    findings: Seq<Finding>,
    finding: Finding,
    surveys: Seq<Survey>,
    survey: Survey,
)
    ensures
        findings_text(Seq::empty()).len() == 0,
        findings_text(findings.push(finding)) == findings_text(findings) + finding_text(finding),
        surveys_text(Seq::empty()).len() == 0,
        surveys_text(surveys.push(survey)) == surveys_text(surveys) + survey_text(survey),
{
    assert(findings.push(finding).drop_last() =~= findings);
    assert(surveys.push(survey).drop_last() =~= surveys);
}

/// Every device is noted once under its own driver.
pub proof fn law_devices_are_counted_under_their_drivers(devices: Seq<Device>, i: int)
    ensures
        driver_notes(devices).len() == devices.len(),
        0 <= i < devices.len() ==> driver_notes(devices)[i] == (EntryView {
            rank: 0,
            label: devices[i].driver@,
            count: 1,
            total: 1,
        }),
{
}

} // verus!
