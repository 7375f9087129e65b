//! Rules a corpus of devices is held to, and what each one being wrong would
//! mean.

use vstd::prelude::*;
use crate::dump::{has_name, Device, Plane};
use crate::order::views;
use crate::planes::PlaneType;
use crate::text::{decimal, join, joined, push_decimal, push_text, texts};

verus! {

/// One rule's outcome.
#[derive(Debug, PartialEq, Eq)]
pub struct Finding {
    /// The rule.
    pub rule: &'static str,
    /// What a violation means, in the terms of the thing that breaks.
    pub matters: &'static str,
    /// How many were held to it.
    pub checked: usize,
    /// What broke it, with what was wrong.
    pub violations: Vec<String>,
}

/// Whether a plane can host a composition canvas, and what it scans out.
#[derive(Debug, PartialEq, Eq)]
pub struct CanvasAnswer {
    /// Whether there is a format for a canvas among its formats.
    pub hosts: bool,
    /// The names of its formats, in order.
    pub names: Vec<String>,
}

/// What holding something to a rule comes to.
pub enum Judged {
    /// The rule does not apply.
    Skipped,
    /// It keeps the rule.
    Kept,
    /// It breaks the rule, and how.
    Broken(Seq<char>),
}

/// What holding something to a rule comes to.
#[derive(Debug, PartialEq, Eq)]
pub enum Verdict {
    /// The rule does not apply.
    Skipped,
    /// It keeps the rule.
    Kept,
    /// It breaks the rule, and how.
    Broken(String),
}

impl View for Verdict {
    type V = Judged;

    open spec fn view(&self) -> Judged {
        match *self {
            Verdict::Skipped => Judged::Skipped,
            Verdict::Kept => Judged::Kept,
            Verdict::Broken(how) => Judged::Broken(how@),
        }
    }
}

/// How many of a run of verdicts are of something the rule applies to.
pub open spec fn checked_among(verdicts: Seq<Judged>) -> nat
    decreases verdicts.len(),
{
    if verdicts.len() == 0 {
        0
    } else {
        checked_among(verdicts.drop_last()) + if verdicts.last() is Skipped {
            0nat
        } else {
            1
        }
    }
}

/// The violations among a run of verdicts.
pub open spec fn broken_among(verdicts: Seq<Judged>) -> Seq<Seq<char>>
    decreases verdicts.len(),
{
    if verdicts.len() == 0 {
        Seq::empty()
    } else {
        let head = broken_among(verdicts.drop_last());
        match verdicts.last() {
            Judged::Broken(how) => head.push(how),
            _ => head,
        }
    }
}

/// A device as a violation names it.
pub open spec fn device_label(device: Device) -> Seq<char> {
    device.name@ + " ("@ + device.driver@ + "): "@
}

/// A device as a violation names it.
fn write_device_label(device: &Device) -> (out: String)
    ensures
        out@ == device_label(*device),
{
    let mut out: String = String::new();
    push_text(&mut out, device.name.as_str());
    push_text(&mut out, " (");
    push_text(&mut out, device.driver.as_str());
    push_text(&mut out, "): ");
    assert(out@ =~= device_label(*device));
    out
}

/// A rule held against every plane.
#[derive(Debug, Clone, Copy, PartialEq, Eq, Structural)]
pub enum PlaneRule {
    /// `SRC_W` is present on every plane of an atomic device.
    SrcW,
    /// A plane exposing `rotation` advertises `rotate-0`.
    RotateZero,
}

/// How names are listed for a reader: between brackets, each quoted.
pub uninterp spec fn listed_names(names: Seq<Seq<char>>) -> Seq<char>;

/// `format!` with the debug form of a list of strings. The text is determined by
/// the strings; what it escapes is not stated.
#[verifier::external_body]
fn list_names(names: &Vec<String>) -> (text: String)
    ensures
        text@ == listed_names(texts(names@)),
{
    format!("{names:?}")
}

/// What is wrong with a plane that advertises `names` and no `rotate-0`, given
/// the names as they are listed.
pub open spec fn rotation_violation_of(device: Device, plane: Plane, listed: Seq<char>) -> Seq<char> {
    device_label(device) + "plane "@ + decimal(plane.caps.id as nat) + " advertises "@ + listed
        + " without rotate-0"@
}

/// What is wrong with a plane that advertises names and no `rotate-0`.
pub fn rotation_violation(device: &Device, plane: &Plane, listed: &str) -> (text: String)
    ensures
        text@ == rotation_violation_of(*device, *plane, listed@),
{
    let mut out = write_device_label(device);
    push_text(&mut out, "plane ");
    push_decimal(&mut out, plane.caps.id as u64);
    push_text(&mut out, " advertises ");
    push_text(&mut out, listed);
    push_text(&mut out, " without rotate-0");
    out
}

/// What is wrong with a primary that can host no canvas.
pub open spec fn canvas_violation_of(device: Device, plane: Plane, names: Seq<Seq<char>>) -> Seq<
    char,
> {
    device_label(device) + "primary "@ + decimal(plane.caps.id as nat)
        + " scans out none of the canvas formats; it has "@ + joined(
        names.take(
            if names.len() < 6 {
                names.len() as int
            } else {
                6
            },
        ),
        ", "@,
    )
}

fn canvas_violation(device: &Device, plane: &Plane, names: &Vec<String>) -> (text: String)
    ensures
        text@ == canvas_violation_of(*device, *plane, texts(names@)),
{
    let mut out = write_device_label(device);
    push_text(&mut out, "primary ");
    push_decimal(&mut out, plane.caps.id as u64);
    push_text(&mut out, " scans out none of the canvas formats; it has ");
    let ghost all = texts(names@);
    let shown_count: usize = if names.len() < 6 {
        names.len()
    } else {
        6
    };
    let mut shown: Vec<String> = Vec::new();
    let mut i: usize = 0;
    assert(texts(shown@) =~= all.take(0));
    while i < shown_count
        invariant
            0 <= i <= shown_count <= names@.len(),
            all == texts(names@),
            texts(shown@) == all.take(i as int),
        decreases shown_count - i,
    {
        let ghost before = shown@;
        let name: String = names[i].clone();
        shown.push(name);
        assert(texts(shown@) =~= texts(before).push(name@));
        assert(all.take(i + 1) =~= all.take(i as int).push(all[i as int]));
        i += 1;
    }
    let listed = join(&shown, ", ");
    push_text(&mut out, listed.as_str());
    out
}

/// What is wrong with an atomic plane without `SRC_W`.
pub open spec fn src_w_violation_of(device: Device, plane: Plane) -> Seq<char> {
    device_label(device) + "plane "@ + decimal(plane.caps.id as nat) + " has no SRC_W"@
}

/// What holding a plane to a rule comes to.
pub open spec fn judged(rule: PlaneRule, device: Device, plane: Plane) -> Judged {
    match rule {
        PlaneRule::SrcW => if !device.atomic {
            Judged::Skipped
        } else if plane.caps.supports_scaling {
            Judged::Kept
        } else {
            Judged::Broken(src_w_violation_of(device, plane))
        },
        PlaneRule::RotateZero => if plane.rotation_names@.len() == 0 {
            Judged::Skipped
        } else if texts(plane.rotation_names@).contains("rotate-0"@) {
            Judged::Kept
        } else {
            Judged::Broken(
                rotation_violation_of(
                    device,
                    plane,
                    listed_names(texts(plane.rotation_names@)),
                ),
            )
        },
    }
}

/// What holding a plane to hosting a canvas comes to.
pub open spec fn canvas_judged(device: Device, plane: Plane, canvas: CanvasAnswer) -> Judged {
    if plane.caps.plane_type != PlaneType::Primary || plane.caps.formats@.len() == 0 {
        Judged::Skipped
    } else if canvas.hosts {
        Judged::Kept
    } else {
        Judged::Broken(canvas_violation_of(device, plane, texts(canvas.names@)))
    }
}

/// Hold a plane to a rule.
fn judge(rule: PlaneRule, device: &Device, plane: &Plane) -> (verdict: Verdict)
    ensures
        verdict@ == judged(rule, *device, *plane),
{
    match rule {
        PlaneRule::SrcW => {
            if !device.atomic {
                Verdict::Skipped
            } else if plane.caps.supports_scaling {
                Verdict::Kept
            } else {
                let mut out = write_device_label(device);
                push_text(&mut out, "plane ");
                push_decimal(&mut out, plane.caps.id as u64);
                push_text(&mut out, " has no SRC_W");
                Verdict::Broken(out)
            }
        },
        PlaneRule::RotateZero => {
            if plane.rotation_names.len() == 0 {
                Verdict::Skipped
            } else if has_name(&plane.rotation_names, "rotate-0") {
                Verdict::Kept
            } else {
                let listed = list_names(&plane.rotation_names);
                Verdict::Broken(rotation_violation(device, plane, listed.as_str()))
            }
        },
    }
}

/// Hold a plane to hosting a canvas.
fn judge_canvas(device: &Device, plane: &Plane, canvas: &CanvasAnswer) -> (verdict: Verdict)
    ensures
        verdict@ == canvas_judged(*device, *plane, *canvas),
{
    if plane.caps.plane_type != PlaneType::Primary || plane.caps.formats.len() == 0 {
        Verdict::Skipped
    } else if canvas.hosts {
        Verdict::Kept
    } else {
        Verdict::Broken(canvas_violation(device, plane, &canvas.names))
    }
}

/// The verdicts on one device's planes, in order.
pub open spec fn device_verdicts(rule: PlaneRule, device: Device) -> Seq<Judged> {
    device.planes@.map_values(|p: Plane| judged(rule, device, p))
}

/// The verdicts on every plane of a corpus, in order.
pub open spec fn all_verdicts(rule: PlaneRule, devices: Seq<Device>) -> Seq<Judged>
    decreases devices.len(),
{
    if devices.len() == 0 {
        Seq::empty()
    } else {
        all_verdicts(rule, devices.drop_last()) + device_verdicts(rule, devices.last())
    }
}

/// The verdicts on hosting a canvas, for one device's planes.
pub open spec fn device_canvas_verdicts(device: Device, canvas: Seq<CanvasAnswer>) -> Seq<Judged> {
    Seq::new(device.planes@.len(), |i: int| canvas_judged(device, device.planes@[i], canvas[i]))
}

/// The verdicts on hosting a canvas, for every plane of a corpus.
pub open spec fn canvas_verdicts(devices: Seq<Device>, canvas: Seq<Vec<CanvasAnswer>>) -> Seq<Judged>
    decreases devices.len(),
{
    if devices.len() == 0 {
        Seq::empty()
    } else {
        canvas_verdicts(devices.drop_last(), canvas.drop_last()) + device_canvas_verdicts(
            devices.last(),
            canvas.last()@,
        )
    }
}

/// Whether every plane has its canvas answer.
pub open spec fn answers_fit(devices: Seq<Device>, canvas: Seq<Vec<CanvasAnswer>>) -> bool {
    &&& canvas.len() == devices.len()
    &&& forall|i: int|
        0 <= i < devices.len() ==> (#[trigger] canvas[i])@.len() == devices[i].planes@.len()
}

/// Hold every plane to a rule.
fn judge_all(rule: PlaneRule, devices: &Vec<Device>) -> (verdicts: Vec<Verdict>)
    ensures
        views(verdicts@) == all_verdicts(rule, devices@),
{
    let mut verdicts: Vec<Verdict> = Vec::new();
    let mut i: usize = 0;
    assert(devices@.take(0) =~= Seq::empty());
    assert(views(verdicts@) =~= Seq::empty());
    while i < devices.len()
        invariant
            0 <= i <= devices@.len(),
            views(verdicts@) == all_verdicts(rule, devices@.take(i as int)),
        decreases devices@.len() - i,
    {
        let device = &devices[i];
        let ghost before = views(verdicts@);
        let ghost own = device_verdicts(rule, *device);
        assert(devices@.take(i + 1).drop_last() =~= devices@.take(i as int));
        let mut j: usize = 0;
        assert(before + own.take(0) =~= before);
        while j < device.planes.len()
            invariant
                0 <= j <= device.planes@.len(),
                own == device_verdicts(rule, *device),
                views(verdicts@) == before + own.take(j as int),
            decreases device.planes@.len() - j,
        {
            let ghost was = verdicts@;
            let verdict = judge(rule, device, &device.planes[j]);
            verdicts.push(verdict);
            assert(views(verdicts@) =~= views(was).push(verdict@));
            assert(own.take(j + 1) =~= own.take(j as int).push(own[j as int]));
            assert(views(verdicts@) =~= before + own.take(j + 1));
            j += 1;
        }
        assert(own.take(j as int) =~= own);
        i += 1;
    }
    assert(devices@.take(i as int) =~= devices@);
    verdicts
}

/// Hold every plane to hosting a canvas.
fn judge_canvases(devices: &Vec<Device>, canvas: &Vec<Vec<CanvasAnswer>>) -> (verdicts: Vec<Verdict>)
    requires
        answers_fit(devices@, canvas@),
    ensures
        views(verdicts@) == canvas_verdicts(devices@, canvas@),
{
    let mut verdicts: Vec<Verdict> = Vec::new();
    let mut i: usize = 0;
    assert(devices@.take(0) =~= Seq::empty());
    assert(views(verdicts@) =~= Seq::empty());
    while i < devices.len()
        invariant
            0 <= i <= devices@.len(),
            answers_fit(devices@, canvas@),
            views(verdicts@) == canvas_verdicts(devices@.take(i as int), canvas@.take(i as int)),
        decreases devices@.len() - i,
    {
        let device = &devices[i];
        let answers = &canvas[i];
        let ghost before = views(verdicts@);
        let ghost own = device_canvas_verdicts(*device, answers@);
        assert(devices@.take(i + 1).drop_last() =~= devices@.take(i as int));
        assert(canvas@.take(i + 1).drop_last() =~= canvas@.take(i as int));
        let mut j: usize = 0;
        assert(before + own.take(0) =~= before);
        while j < device.planes.len()
            invariant
                0 <= j <= device.planes@.len(),
                answers@.len() == device.planes@.len(),
                own == device_canvas_verdicts(*device, answers@),
                views(verdicts@) == before + own.take(j as int),
            decreases device.planes@.len() - j,
        {
            let ghost was = verdicts@;
            let verdict = judge_canvas(device, &device.planes[j], &answers[j]);
            verdicts.push(verdict);
            assert(views(verdicts@) =~= views(was).push(verdict@));
            assert(own.take(j + 1) =~= own.take(j as int).push(own[j as int]));
            assert(views(verdicts@) =~= before + own.take(j + 1));
            j += 1;
        }
        assert(own.take(j as int) =~= own);
        i += 1;
    }
    assert(devices@.take(i as int) =~= devices@);
    assert(canvas@.take(i as int) =~= canvas@);
    verdicts
}

/// Whether a finding is a rule's outcome over a run of verdicts.
pub open spec fn found(
    finding: Finding,
    rule: Seq<char>,
    matters: Seq<char>,
    verdicts: Seq<Judged>,
) -> bool {
    &&& finding.rule@ == rule
    &&& finding.matters@ == matters
    &&& finding.checked == checked_among(verdicts)
    &&& texts(finding.violations@) == broken_among(verdicts)
}

/// A rule's outcome over a run of verdicts.
fn settle(rule: &'static str, matters: &'static str, verdicts: Vec<Verdict>) -> (finding: Finding)
    ensures
        found(finding, rule@, matters@, views(verdicts@)),
{
    let ghost all = views(verdicts@);
    let mut rest = verdicts;
    let len: usize = rest.len();
    let mut checked: usize = 0;
    let mut violations: Vec<String> = Vec::new();
    let ghost done: int = 0;
    assert(all.take(0) =~= Seq::empty());
    assert(texts(violations@) =~= Seq::empty());
    while rest.len() > 0
        invariant
            0 <= done <= all.len(),
            len == all.len(),
            views(rest@) == all.skip(done),
            checked == checked_among(all.take(done)),
            checked <= done,
            texts(violations@) == broken_among(all.take(done)),
        decreases rest@.len(),
    {
        let ghost left = rest@;
        assert(views(left)[0] == left[0]@);
        assert(done < all.len()) by {
            assert(views(left).len() == left.len());
        }
        let verdict = rest.remove(0);
        proof {
            assert(verdict@ == all[done]);
            assert(views(rest@) =~= all.skip(done + 1)) by {
                assert(views(rest@) =~= views(left).skip(1));
            }
            assert(all.take(done + 1).drop_last() =~= all.take(done));
            assert(all.take(done + 1).last() == verdict@);
        }
        match verdict {
            Verdict::Skipped => {},
            Verdict::Kept => {
                checked += 1;
            },
            Verdict::Broken(how) => {
                checked += 1;
                let ghost was = violations@;
                violations.push(how);
                assert(texts(violations@) =~= texts(was).push(how@));
            },
        }
        proof {
            done = done + 1;
        }
    }
    proof {
        assert(views(rest@).len() == 0);
        assert(all.take(done) =~= all);
    }
    Finding { rule, matters, checked, violations }
}

/// `SRC_W` is present on every plane of an atomic device.
///
/// This is what makes `supports_scaling` carry no information: it is set from
/// the property's presence, and the property is always there.
pub fn src_w_on_every_atomic_plane(devices: &Vec<Device>) -> (finding: Finding)
    ensures
        found(
            finding,
            "every atomic plane has SRC_W"@,
            "supports_scaling would start carrying information, and the matcher's scaling edge would stop being dead"@,
            all_verdicts(PlaneRule::SrcW, devices@),
        ),
{
    settle(
        "every atomic plane has SRC_W",
        "supports_scaling would start carrying information, and the matcher's scaling edge would stop being dead",
        judge_all(PlaneRule::SrcW, devices),
    )
}

/// A plane exposing `rotation` advertises `rotate-0`.
///
/// There is no such thing as a plane that must be rotated. If one exists, a
/// caller writing `rotate-0` to it gets `EINVAL` and the frame is refused.
pub fn rotation_always_advertises_zero(devices: &Vec<Device>) -> (finding: Finding)
    ensures
        found(
            finding,
            "a rotatable plane advertises rotate-0"@,
            "writing rotate-0 to such a plane is EINVAL, which refuses the whole frame"@,
            all_verdicts(PlaneRule::RotateZero, devices@),
        ),
{
    settle(
        "a rotatable plane advertises rotate-0",
        "writing rotate-0 to such a plane is EINVAL, which refuses the whole frame",
        judge_all(PlaneRule::RotateZero, devices),
    )
}

/// Every primary plane can host a composition canvas.
///
/// A primary without a format for one is a device where composition is
/// impossible: every layer past the plane count is dropped rather than blended.
pub fn every_primary_can_host_a_canvas(devices: &Vec<Device>, canvas: &Vec<Vec<CanvasAnswer>>) -> (
    finding: Finding)
    requires
        answers_fit(devices@, canvas@),
    ensures
        found(
            finding,
            "every primary plane can host a composition canvas"@,
            "composition is impossible on that device, so layers past the plane count are dropped rather than blended"@,
            canvas_verdicts(devices@, canvas@),
        ),
{
    settle(
        "every primary plane can host a composition canvas",
        "composition is impossible on that device, so layers past the plane count are dropped rather than blended",
        judge_canvases(devices, canvas),
    )
}

/// Whether some plane of a device can feed one of its CRTCs.
pub open spec fn usable(device: Device) -> bool {
    exists|i: int, crtc: u32|
        0 <= i < device.planes@.len() && crtc < device.crtc_bound()
            && #[trigger] device.planes@[i].caps.feeds(crtc)
}

/// What is wrong with a device none of whose planes can feed a CRTC.
pub open spec fn unusable_violation_of(device: Device) -> Seq<char> {
    device_label(device) + decimal(device.planes@.len()) + " plane(s), "@ + decimal(
        device.crtc_bound(),
    ) + " CRTC(s), and no plane can feed any of them"@
}

/// What holding a device to having a usable plane comes to.
pub open spec fn usable_verdict(device: Device) -> Judged {
    if !device.atomic || device.planes@.len() == 0 || device.crtc_bound() == 0 {
        Judged::Skipped
    } else if usable(device) {
        Judged::Kept
    } else {
        Judged::Broken(unusable_violation_of(device))
    }
}

fn plane_is_usable(plane: &Plane, crtcs: u32) -> (feeds: bool)
    ensures
        feeds == exists|crtc: u32| crtc < crtcs && #[trigger] plane.caps.feeds(crtc),
{
    let mut crtc: u32 = 0;
    while crtc < crtcs
        invariant
            0 <= crtc <= crtcs,
            forall|c: u32| c < crtc ==> !(#[trigger] plane.caps.feeds(c)),
        decreases crtcs - crtc,
    {
        if plane.caps.compatible_with_crtc(crtc) {
            return true;
        }
        crtc += 1;
    }
    false
}

fn is_usable(device: &Device) -> (is: bool)
    ensures
        is == usable(*device),
{
    let crtcs: u32 = device.crtc_count();
    let mut i: usize = 0;
    while i < device.planes.len()
        invariant
            0 <= i <= device.planes@.len(),
            crtcs == device.crtc_bound(),
            forall|j: int, c: u32|
                0 <= j < i && c < crtcs ==> !(#[trigger] device.planes@[j].caps.feeds(c)),
        decreases device.planes@.len() - i,
    {
        if plane_is_usable(&device.planes[i], crtcs) {
            return true;
        }
        i += 1;
    }
    false
}

/// Every device has a plane that can feed a CRTC.
///
/// This one is about reading dumps, not about hardware. Real hardware always
/// satisfies it, so it can only fail when a field stopped being read, and a
/// survey that answers zero reads exactly like one answering a real question.
pub fn the_corpus_parsed_into_something_usable(devices: &Vec<Device>) -> (finding: Finding)
    ensures
        found(
            finding,
            "every device has a plane that can feed a CRTC"@,
            "not a hardware claim -- this is the shape a field that stopped being parsed produces, and every survey downstream would report zeros with the same confidence as a real answer"@,
            devices@.map_values(|d: Device| usable_verdict(d)),
        ),
{
    let ghost all = devices@.map_values(|d: Device| usable_verdict(d));
    let mut verdicts: Vec<Verdict> = Vec::new();
    let mut i: usize = 0;
    assert(views(verdicts@) =~= all.take(0));
    while i < devices.len()
        invariant
            0 <= i <= devices@.len(),
            all == devices@.map_values(|d: Device| usable_verdict(d)),
            views(verdicts@) == all.take(i as int),
        decreases devices@.len() - i,
    {
        let device = &devices[i];
        let verdict = if !device.atomic || device.planes.len() == 0 || device.crtc_count() == 0 {
            Verdict::Skipped
        } else if is_usable(device) {
            Verdict::Kept
        } else {
            let mut out = write_device_label(device);
            push_decimal(&mut out, device.planes.len() as u64);
            push_text(&mut out, " plane(s), ");
            push_decimal(&mut out, device.crtc_count() as u64);
            push_text(&mut out, " CRTC(s), and no plane can feed any of them");
            Verdict::Broken(out)
        };
        let ghost was = verdicts@;
        verdicts.push(verdict);
        proof {
            assert(verdict@ == all[i as int]);
            assert(views(verdicts@) =~= views(was).push(verdict@));
            assert(all.take(i + 1) =~= all.take(i as int).push(all[i as int]));
        }
        i += 1;
    }
    assert(all.take(i as int) =~= all);
    settle(
        "every device has a plane that can feed a CRTC",
        "not a hardware claim -- this is the shape a field that stopped being parsed produces, and every survey downstream would report zeros with the same confidence as a real answer",
        verdicts,
    )
}

// --- what the findings say ----------------------------------------------------

proof fn lemma_broken_among(verdicts: Seq<Judged>)
    ensures
        broken_among(verdicts).len() == 0 <==> forall|k: int|
            0 <= k < verdicts.len() ==> !(#[trigger] verdicts[k] is Broken),
    decreases verdicts.len(),
{
    if verdicts.len() > 0 {
        let rest = verdicts.drop_last();
        lemma_broken_among(rest);
        if broken_among(verdicts).len() == 0 {
            assert forall|k: int| 0 <= k < verdicts.len() implies !(#[trigger] verdicts[k]
                is Broken) by {
                if k < rest.len() {
                    assert(rest[k] == verdicts[k]);
                }
            }
        } else if broken_among(rest).len() != 0 {
            let k = choose|k: int| 0 <= k < rest.len() && (#[trigger] rest[k] is Broken);
            assert(verdicts[k] is Broken);
        } else {
            assert(verdicts[verdicts.len() - 1] is Broken);
        }
    }
}

proof fn lemma_all_verdicts(rule: PlaneRule, devices: Seq<Device>)
    ensures
        forall|i: int, j: int|
            0 <= i < devices.len() && 0 <= j < devices[i].planes@.len() ==> all_verdicts(
                rule,
                devices,
            ).contains(judged(rule, devices[i], #[trigger] devices[i].planes@[j])),
        forall|k: int|
            0 <= k < all_verdicts(rule, devices).len() ==> is_verdict_on_a_plane(
                rule,
                devices,
                #[trigger] all_verdicts(rule, devices)[k],
            ),
    decreases devices.len(),
{
    if devices.len() > 0 {
        let rest = devices.drop_last();
        lemma_all_verdicts(rule, rest);
        let head = all_verdicts(rule, rest);
        let own = device_verdicts(rule, devices.last());
        let all = all_verdicts(rule, devices);
        assert forall|i: int, j: int|
            0 <= i < devices.len() && 0 <= j < devices[i].planes@.len() implies all.contains(
            judged(rule, devices[i], #[trigger] devices[i].planes@[j]),
        ) by {
            let meant = judged(rule, devices[i], devices[i].planes@[j]);
            if i < rest.len() {
                assert(rest[i].planes@[j] == devices[i].planes@[j]);
                assert(head.contains(meant));
                let k = choose|k: int| 0 <= k < head.len() && head[k] == meant;
                assert(all[k] == meant);
            } else {
                assert(own[j] == meant);
                assert(all[head.len() + j] == meant);
            }
        }
        assert forall|k: int| 0 <= k < all.len() implies is_verdict_on_a_plane(
            rule,
            devices,
            #[trigger] all[k],
        ) by {
            if k < head.len() {
                assert(head[k] == all[k]);
                assert(is_verdict_on_a_plane(rule, rest, head[k]));
                let (i, j) = choose|i: int, j: int|
                    0 <= i < rest.len() && 0 <= j < rest[i].planes@.len() && all[k] == judged(
                        rule,
                        rest[i],
                        #[trigger] rest[i].planes@[j],
                    );
                assert(devices[i].planes@[j] == rest[i].planes@[j]);
            } else {
                let j = k - head.len();
                assert(own[j] == all[k]);
                assert(devices[devices.len() - 1].planes@[j] == devices.last().planes@[j]);
            }
        }
    }
}

/// Whether a verdict is the one on some plane of a corpus.
pub open spec fn is_verdict_on_a_plane(
    rule: PlaneRule,
    devices: Seq<Device>,
    verdict: Judged,
) -> bool {
    exists|i: int, j: int|
        0 <= i < devices.len() && 0 <= j < devices[i].planes@.len() && verdict == judged(
            rule,
            devices[i],
            #[trigger] devices[i].planes@[j],
        )
}

proof fn lemma_kept_by_all(rule: PlaneRule, devices: Seq<Device>)
    ensures
        broken_among(all_verdicts(rule, devices)).len() == 0 <==> forall|i: int, j: int|
            0 <= i < devices.len() && 0 <= j < devices[i].planes@.len() ==> !(judged(
                rule,
                devices[i],
                #[trigger] devices[i].planes@[j],
            ) is Broken),
{
    let all = all_verdicts(rule, devices);
    lemma_broken_among(all);
    lemma_all_verdicts(rule, devices);
    if broken_among(all).len() == 0 {
        assert forall|i: int, j: int|
            0 <= i < devices.len() && 0 <= j < devices[i].planes@.len() implies !(judged(
            rule,
            devices[i],
            #[trigger] devices[i].planes@[j],
        ) is Broken) by {
            let meant = judged(rule, devices[i], devices[i].planes@[j]);
            assert(all.contains(meant));
            let k = choose|k: int| 0 <= k < all.len() && all[k] == meant;
            assert(!(all[k] is Broken));
        }
    } else {
        let k = choose|k: int| 0 <= k < all.len() && (#[trigger] all[k] is Broken);
        assert(is_verdict_on_a_plane(rule, devices, all[k]));
    }
}

/// The rule on `SRC_W` finds nothing exactly where every plane of every atomic
/// device scales.
pub proof fn law_src_w_is_missed_where_it_is_missing(devices: Vec<Device>, finding: Finding)
    requires
        call_ensures(src_w_on_every_atomic_plane, (&devices,), finding),
    ensures
        finding.violations@.len() == 0 <==> forall|i: int, j: int|
            0 <= i < devices@.len() && devices@[i].atomic && 0 <= j < devices@[i].planes@.len()
                ==> (#[trigger] devices@[i].planes@[j]).caps.supports_scaling,
{
    lemma_kept_by_all(PlaneRule::SrcW, devices@);
    assert(texts(finding.violations@).len() == finding.violations@.len());
}

/// Whether a list of names holds one.
pub open spec fn names_one(names: Seq<String>, name: Seq<char>) -> bool {
    exists|k: int| 0 <= k < names.len() && (#[trigger] names[k])@ == name
}

/// The rule on rotations finds nothing exactly where every plane that advertises
/// any advertises `rotate-0`.
pub proof fn law_rotations_are_missed_where_zero_is_missing(devices: Vec<Device>, finding: Finding)
    requires
        call_ensures(rotation_always_advertises_zero, (&devices,), finding),
    ensures
        finding.violations@.len() == 0 <==> forall|i: int, j: int|
            0 <= i < devices@.len() && 0 <= j < devices@[i].planes@.len()
                && devices@[i].planes@[j].rotation_names@.len() > 0 ==> names_one(
                (#[trigger] devices@[i].planes@[j]).rotation_names@,
                "rotate-0"@,
            ),
{
    lemma_kept_by_all(PlaneRule::RotateZero, devices@);
    assert(texts(finding.violations@).len() == finding.violations@.len());
    assert forall|names: Seq<String>| #[trigger] names_one(names, "rotate-0"@) <==> texts(
        names,
    ).contains("rotate-0"@) by {
        if names_one(names, "rotate-0"@) {
            let k = choose|k: int| 0 <= k < names.len() && (#[trigger] names[k])@ == "rotate-0"@;
            assert(texts(names)[k] == "rotate-0"@);
        }
        if texts(names).contains("rotate-0"@) {
            let k = choose|k: int| 0 <= k < texts(names).len() && texts(names)[k] == "rotate-0"@;
            assert(names[k]@ == "rotate-0"@);
        }
    }
}

/// A plane is held to hosting a canvas exactly where it is a primary that lists
/// formats, and it keeps the rule exactly where it was found to host one.
pub proof fn law_primaries_with_formats_must_host(
    device: Device,
    plane: Plane,
    canvas: CanvasAnswer,
)
    ensures
        canvas_judged(device, plane, canvas) is Skipped <==> !(plane.caps.plane_type is Primary
            && plane.caps.formats@.len() > 0),
        plane.caps.plane_type is Primary && plane.caps.formats@.len() > 0 ==> (canvas_judged(
            device,
            plane,
            canvas,
        ) is Kept <==> canvas.hosts),
{
}

/// Every plane is asked once about hosting a canvas, with its own answer, device
/// after device.
pub proof fn law_canvases_are_judged_in_order(
    devices: Seq<Device>,
    canvas: Seq<Vec<CanvasAnswer>>,
    device: Device,
    answers: Vec<CanvasAnswer>,
    i: int,
)
    requires
        devices.len() == canvas.len(),
    ensures
        canvas_verdicts(Seq::empty(), Seq::empty()).len() == 0,
        canvas_verdicts(devices.push(device), canvas.push(answers)).len() == canvas_verdicts(
            devices,
            canvas,
        ).len() + device.planes@.len(),
        canvas_verdicts(devices.push(device), canvas.push(answers)).take(
            canvas_verdicts(devices, canvas).len() as int,
        ) == canvas_verdicts(devices, canvas),
        0 <= i < device.planes@.len() ==> canvas_verdicts(
            devices.push(device),
            canvas.push(answers),
        )[canvas_verdicts(devices, canvas).len() + i] == canvas_judged(
            device,
            device.planes@[i],
            answers@[i],
        ),
{
    assert(devices.push(device).drop_last() =~= devices);
    assert(canvas.push(answers).drop_last() =~= canvas);
    let all = canvas_verdicts(devices.push(device), canvas.push(answers));
    let head = canvas_verdicts(devices, canvas);
    assert(all == head + device_canvas_verdicts(device, answers@));
    assert(all.take(head.len() as int) =~= head);
}

/// Every plane is held to a rule once, device after device.
pub proof fn law_planes_are_judged_in_order(
    rule: PlaneRule,
    devices: Seq<Device>,
    device: Device,
    i: int,
)
    ensures
        all_verdicts(rule, Seq::empty()).len() == 0,
        all_verdicts(rule, devices.push(device)).len() == all_verdicts(rule, devices).len()
            + device.planes@.len(),
        all_verdicts(rule, devices.push(device)).take(all_verdicts(rule, devices).len() as int)
            == all_verdicts(rule, devices),
        0 <= i < device.planes@.len() ==> all_verdicts(rule, devices.push(device))[all_verdicts(
            rule,
            devices,
        ).len() + i] == judged(rule, device, device.planes@[i]),
{
    assert(devices.push(device).drop_last() =~= devices);
    let all = all_verdicts(rule, devices.push(device));
    let head = all_verdicts(rule, devices);
    assert(all == head + device_verdicts(rule, device));
    assert(all.take(head.len() as int) =~= head);
}

/// A finding counts what the rule applied to, and lists what broke it, in order.
pub proof fn law_findings_count_what_applies(verdicts: Seq<Judged>, how: Seq<char>)
    ensures
        checked_among(verdicts) == verdicts.filter(|v: Judged| !(v is Skipped)).len(),
        broken_among(verdicts).len() == verdicts.filter(|v: Judged| v is Broken).len(),
        broken_among(verdicts.push(Judged::Broken(how))) == broken_among(verdicts).push(how),
        broken_among(verdicts.push(Judged::Kept)) == broken_among(verdicts),
        broken_among(verdicts.push(Judged::Skipped)) == broken_among(verdicts),
    decreases verdicts.len(),
{
    reveal(Seq::filter);
    assert(verdicts.push(Judged::Broken(how)).drop_last() =~= verdicts);
    assert(verdicts.push(Judged::Kept).drop_last() =~= verdicts);
    assert(verdicts.push(Judged::Skipped).drop_last() =~= verdicts);
    if verdicts.len() > 0 {
        law_findings_count_what_applies(verdicts.drop_last(), how);
    }
}

/// A device is held to having a usable plane where it has anything to be used:
/// it keeps the rule exactly where some plane's mask has the bit of some CRTC.
pub proof fn law_a_usable_device_feeds_a_crtc(device: Device)
    requires
        device.crtcs@.len() <= u32::MAX,
    ensures
        usable_verdict(device) is Skipped <==> !(device.atomic && device.planes@.len() > 0
            && device.crtcs@.len() > 0),
        !(usable_verdict(device) is Skipped) ==> (usable_verdict(device) is Kept <==> exists|
            i: int,
            crtc: u32,
        |
            0 <= i < device.planes@.len() && crtc < device.crtcs@.len() && crtc < 32 && (
            #[trigger] (device.planes@[i].caps.possible_crtcs >> crtc)) & 1u32 == 1u32),
{
    if usable(device) {
        let (i, crtc) = choose|i: int, crtc: u32|
            0 <= i < device.planes@.len() && crtc < device.crtc_bound()
                && #[trigger] device.planes@[i].caps.feeds(crtc);
        assert((device.planes@[i].caps.possible_crtcs >> crtc) & 1u32 == 1u32);
    }
    if exists|i: int, crtc: u32|
        0 <= i < device.planes@.len() && crtc < device.crtcs@.len() && crtc < 32 && (#[trigger] (
        device.planes@[i].caps.possible_crtcs >> crtc)) & 1u32 == 1u32 {
        let (i, crtc) = choose|i: int, crtc: u32|
            0 <= i < device.planes@.len() && crtc < device.crtcs@.len() && crtc < 32 && (
            #[trigger] (device.planes@[i].caps.possible_crtcs >> crtc)) & 1u32 == 1u32;
        assert(device.planes@[i].caps.feeds(crtc));
    }
}

/// A violation names the device, its driver, the plane, and what is wrong with
/// it; of the formats a primary has, the first six are named.
pub proof fn law_violations_say_who_and_what(
    device: Device,
    plane: Plane,
    canvas: CanvasAnswer,
    listed: Seq<char>,
    first: Seq<Seq<char>>,
)
    ensures
        device.atomic && !plane.caps.supports_scaling ==> judged(PlaneRule::SrcW, device, plane)
            == Judged::Broken(
            device.name@ + " ("@ + device.driver@ + "): "@ + "plane "@ + decimal(
                plane.caps.id as nat,
            ) + " has no SRC_W"@,
        ),
        rotation_violation_of(device, plane, listed) == device.name@ + " ("@ + device.driver@
            + "): "@ + "plane "@ + decimal(plane.caps.id as nat) + " advertises "@ + listed
            + " without rotate-0"@,
        plane.caps.plane_type is Primary && plane.caps.formats@.len() > 0 && !canvas.hosts
            && first.len() <= 6 && first.len() <= canvas.names@.len() && (first.len() == 6
            || first.len() == canvas.names@.len()) && (forall|k: int|
            0 <= k < first.len() ==> #[trigger] first[k] == canvas.names@[k]@) ==> canvas_judged(
            device,
            plane,
            canvas,
        ) == Judged::Broken(
            device.name@ + " ("@ + device.driver@ + "): "@ + "primary "@ + decimal(
                plane.caps.id as nat,
            ) + " scans out none of the canvas formats; it has "@ + joined(first, ", "@),
        ),
{
    let names = texts(canvas.names@);
    let shown = names.take(
        if names.len() < 6 {
            names.len() as int
        } else {
            6
        },
    );
    if first.len() <= 6 && first.len() <= canvas.names@.len() && (first.len() == 6 || first.len()
        == canvas.names@.len()) && (forall|k: int|
        0 <= k < first.len() ==> #[trigger] first[k] == canvas.names@[k]@) {
        assert(shown =~= first);
    }
}

/// A finding carries its rule, why it matters, how many it applied to, and every
/// violation in order.
pub proof fn law_a_finding_carries_its_verdicts(
    finding: Finding,
    rule: Seq<char>,
    matters: Seq<char>,
    verdicts: Seq<Judged>,
)
    requires
        found(finding, rule, matters, verdicts),
    ensures
        finding.rule@ == rule,
        finding.matters@ == matters,
        finding.checked == verdicts.filter(|v: Judged| !(v is Skipped)).len(),
        finding.violations@.len() == verdicts.filter(|v: Judged| v is Broken).len(),
        finding.violations@.len() <= finding.checked,
{
    law_findings_count_what_applies(verdicts, Seq::empty());
    assert(texts(finding.violations@).len() == finding.violations@.len());
    lemma_broken_are_checked(verdicts);
}

proof fn lemma_broken_are_checked(verdicts: Seq<Judged>)
    ensures
        broken_among(verdicts).len() <= checked_among(verdicts),
    decreases verdicts.len(),
{
    if verdicts.len() > 0 {
        lemma_broken_are_checked(verdicts.drop_last());
    }
}

/// An unusable device is named with how many planes and CRTCs it has.
pub proof fn law_an_unusable_device_is_named(device: Device)
    requires
        device.atomic,
        device.planes@.len() > 0,
        0 < device.crtcs@.len() <= u32::MAX,
        forall|i: int, crtc: u32|
            0 <= i < device.planes@.len() && crtc < device.crtcs@.len() ==> !(
            #[trigger] device.planes@[i].caps.feeds(crtc)),
    ensures
        usable_verdict(device) == Judged::Broken(
            device.name@ + " ("@ + device.driver@ + "): "@ + decimal(device.planes@.len())
                + " plane(s), "@ + decimal(device.crtcs@.len())
                + " CRTC(s), and no plane can feed any of them"@,
        ),
{
}

/// The four rules are told apart by what they say.
pub proof fn law_the_rules_are_named(
    devices: Vec<Device>,
    canvas: Vec<Vec<CanvasAnswer>>,
    scaling: Finding,
    rotation: Finding,
    hosting: Finding,
    parsed: Finding,
)
    requires
        call_ensures(src_w_on_every_atomic_plane, (&devices,), scaling),
        call_ensures(rotation_always_advertises_zero, (&devices,), rotation),
        call_ensures(every_primary_can_host_a_canvas, (&devices, &canvas), hosting),
        call_ensures(the_corpus_parsed_into_something_usable, (&devices,), parsed),
    ensures
        scaling.rule@ == "every atomic plane has SRC_W"@,
        rotation.rule@ == "a rotatable plane advertises rotate-0"@,
        hosting.rule@ == "every primary plane can host a composition canvas"@,
        parsed.rule@ == "every device has a plane that can feed a CRTC"@,
{
}

} // verus!
