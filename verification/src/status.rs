//! Project status and opening kinds, with their snake_case wire names.
use vstd::prelude::*;
use crate::text::str_eq;

verus! {

/// Where a project stands in the upload → detect → correct → build pipeline.
#[derive(Debug, Clone, Copy, PartialEq, Eq, Structural)]
pub enum ProjectStatus {
    Uploaded,
    Detecting,
    NeedsCorrection,
    Confirmed,
    Meshing,
    Texturing,
    Ready,
    Failed,
}

impl Default for ProjectStatus {
    fn default() -> (r: Self)
        ensures
            r == ProjectStatus::Uploaded,
    {
        ProjectStatus::Uploaded
    }
}

/// Kind of an opening cut into a wall.
#[derive(Debug, Clone, Copy, PartialEq, Eq, Structural)]
pub enum OpeningKind {
    Door,
    Window,
}

/// The snake_case name under which a status is stored and reported.
pub open spec fn status_name(s: ProjectStatus) -> Seq<char> {
    match s {
        ProjectStatus::Uploaded => "uploaded"@,
        ProjectStatus::Detecting => "detecting"@,
        ProjectStatus::NeedsCorrection => "needs_correction"@,
        ProjectStatus::Confirmed => "confirmed"@,
        ProjectStatus::Meshing => "meshing"@,
        ProjectStatus::Texturing => "texturing"@,
        ProjectStatus::Ready => "ready"@,
        ProjectStatus::Failed => "failed"@,
    }
}

/// The status a stored name denotes; any unknown name reads as `Uploaded`.
pub open spec fn status_from_name(t: Seq<char>) -> ProjectStatus {
    if t == "detecting"@ {
        ProjectStatus::Detecting
    } else if t == "needs_correction"@ {
        ProjectStatus::NeedsCorrection
    } else if t == "confirmed"@ {
        ProjectStatus::Confirmed
    } else if t == "meshing"@ {
        ProjectStatus::Meshing
    } else if t == "texturing"@ {
        ProjectStatus::Texturing
    } else if t == "ready"@ {
        ProjectStatus::Ready
    } else if t == "failed"@ {
        ProjectStatus::Failed
    } else {
        ProjectStatus::Uploaded
    }
}

/// Wire name of a status.
pub fn status_str(s: ProjectStatus) -> (r: &'static str)
    ensures
        r@ == status_name(s),
{
    match s {
        ProjectStatus::Uploaded => "uploaded",
        ProjectStatus::Detecting => "detecting",
        ProjectStatus::NeedsCorrection => "needs_correction",
        ProjectStatus::Confirmed => "confirmed",
        ProjectStatus::Meshing => "meshing",
        ProjectStatus::Texturing => "texturing",
        ProjectStatus::Ready => "ready",
        ProjectStatus::Failed => "failed",
    }
}

/// Reads a stored status name back; unknown names fall back to `Uploaded`.
pub fn parse_status(s: &str) -> (r: ProjectStatus)
    ensures
        r == status_from_name(s@),
{
    if str_eq(s, "detecting") {
        ProjectStatus::Detecting
    } else if str_eq(s, "needs_correction") {
        ProjectStatus::NeedsCorrection
    } else if str_eq(s, "confirmed") {
        ProjectStatus::Confirmed
    } else if str_eq(s, "meshing") {
        ProjectStatus::Meshing
    } else if str_eq(s, "texturing") {
        ProjectStatus::Texturing
    } else if str_eq(s, "ready") {
        ProjectStatus::Ready
    } else if str_eq(s, "failed") {
        ProjectStatus::Failed
    } else {
        ProjectStatus::Uploaded
    }
}

/// Reading back the stored name of any status gives that status.
pub proof fn lemma_status_name_roundtrip(s: ProjectStatus)
    ensures
        status_from_name(status_name(s)) == s,
{
    reveal_strlit("uploaded");
    reveal_strlit("detecting");
    reveal_strlit("needs_correction");
    reveal_strlit("confirmed");
    reveal_strlit("meshing");
    reveal_strlit("texturing");
    reveal_strlit("ready");
    reveal_strlit("failed");
    assert("detecting"@[0] == 'd');
    assert("needs_correction"@[0] == 'n');
    assert("confirmed"@[0] == 'c');
    assert("meshing"@[0] == 'm');
    assert("texturing"@[0] == 't');
    assert("ready"@[0] == 'r');
    assert("failed"@[0] == 'f');
    assert("uploaded"@[0] == 'u');
}

/// Distinct statuses have distinct names, so the name identifies the status.
pub proof fn lemma_status_name_injective(s: ProjectStatus, t: ProjectStatus)
    ensures
        status_name(s) == status_name(t) ==> s == t,
{
    lemma_status_name_roundtrip(s);
    lemma_status_name_roundtrip(t);
}

} // verus!
