//! The project lifecycle: how requests and build stages move a project
//! between statuses, what progress and message it shows, and which progress
//! event is broadcast.
use vstd::prelude::*;
use crate::status::ProjectStatus;
use crate::text::concat_str;

verus! {

/// The status-related part of a project.
pub struct Lifecycle {
    pub status: ProjectStatus,
    /// Progress in percent.
    pub progress_pct: u32,
    pub message: String,
    pub error: Option<String>,
    pub model_path: Option<String>,
}

/// Mathematical content of a [`Lifecycle`].
pub struct LifecycleView {
    pub status: ProjectStatus,
    pub progress_pct: u32,
    pub message: Seq<char>,
    pub error: Option<Seq<char>>,
    pub model_path: Option<Seq<char>>,
}

/// The view of an optional string.
pub open spec fn opt_view(o: Option<String>) -> Option<Seq<char>> {
    match o {
        Some(s) => Some(s@),
        None => None,
    }
}

impl View for Lifecycle {
    type V = LifecycleView;

    open spec fn view(&self) -> LifecycleView {
        LifecycleView {
            status: self.status,
            progress_pct: self.progress_pct,
            message: self.message@,
            error: opt_view(self.error),
            model_path: opt_view(self.model_path),
        }
    }
}

/// What happened to a project: a request or a stage of the build worker.
pub enum LifecycleInput {
    /// Wall detection was requested.
    BeginDetect,
    /// The stored floorplan image could not be opened; carries the reason.
    FloorplanUnreadable(String),
    /// Detection produced a floorplan.
    DetectSucceeded,
    /// Detection failed; carries the error text. The floorplan is reset for manual editing.
    DetectFailed(String),
    /// The floorplan was replaced or simplified by the user.
    IrEdited,
    /// A build was requested; tells whether the floorplan has neither walls nor rooms.
    RequestBuild { ir_empty: bool },
    /// The worker started meshing.
    StartMeshing,
    /// The worker started texturing.
    StartTexturing,
    /// The worker wrote the model.
    BuildFinished,
    /// The worker failed; carries the error text.
    BuildFailed(String),
}

/// Why a build request was refused.
#[derive(Debug, Clone, Copy, PartialEq, Eq, Structural)]
pub enum BuildRefusal {
    /// The floorplan has neither walls nor rooms.
    EmptyIr,
    /// A build is already queued or running.
    InProgress,
}

/// A progress notification for subscribers of a project.
pub struct ProgressEvent {
    pub status: ProjectStatus,
    pub progress_pct: u32,
    pub message: String,
}

/// What the caller has to do after a transition.
pub enum LifecycleOutput {
    /// Broadcast this event.
    Emit(ProgressEvent),
    /// Nothing to broadcast.
    Quiet,
    /// The request was refused; the project is unchanged.
    Refused(BuildRefusal),
}

/// Mathematical content of a [`LifecycleOutput`].
pub enum OutputView {
    Emit { status: ProjectStatus, progress_pct: u32, message: Seq<char> },
    Quiet,
    Refused(BuildRefusal),
}

impl View for LifecycleOutput {
    type V = OutputView;

    open spec fn view(&self) -> OutputView {
        match self {
            LifecycleOutput::Emit(e) => OutputView::Emit {
                status: e.status,
                progress_pct: e.progress_pct,
                message: e.message@,
            },
            LifecycleOutput::Quiet => OutputView::Quiet,
            LifecycleOutput::Refused(r) => OutputView::Refused(*r),
        }
    }
}

/// A build is queued or running.
pub open spec fn build_in_progress(s: ProjectStatus) -> bool {
    s == ProjectStatus::Meshing || s == ProjectStatus::Texturing || s == ProjectStatus::Confirmed
}

/// Sets status, progress and message; the event announces exactly these.
pub open spec fn announce(
    s: LifecycleView,
    status: ProjectStatus,
    pct: u32,
    msg: Seq<char>,
) -> (LifecycleView, OutputView) {
    (
        LifecycleView { status, progress_pct: pct, message: msg, ..s },
        OutputView::Emit { status, progress_pct: pct, message: msg },
    )
}

/// The next state and the caller's action for each input.
pub open spec fn step(s: LifecycleView, input: LifecycleInput) -> (LifecycleView, OutputView) {
    match input {
        LifecycleInput::BeginDetect => announce(s, ProjectStatus::Detecting, 10, "detecting walls"@),
        LifecycleInput::FloorplanUnreadable(e) => (
            LifecycleView { status: ProjectStatus::Failed, error: Some(e@), ..s },
            OutputView::Quiet,
        ),
        LifecycleInput::DetectSucceeded => announce(
            LifecycleView { error: None, ..s },
            ProjectStatus::NeedsCorrection,
            30,
            "needs correction"@,
        ),
        LifecycleInput::DetectFailed(e) => (
            LifecycleView {
                status: ProjectStatus::NeedsCorrection,
                progress_pct: 30,
                message: "detect failed, edit manually: "@ + e@,
                error: Some(e@),
                ..s
            },
            OutputView::Quiet,
        ),
        LifecycleInput::IrEdited => (
            LifecycleView { status: ProjectStatus::NeedsCorrection, ..s },
            OutputView::Quiet,
        ),
        LifecycleInput::RequestBuild { ir_empty } => if ir_empty {
            (s, OutputView::Refused(BuildRefusal::EmptyIr))
        } else if build_in_progress(s.status) {
            (s, OutputView::Refused(BuildRefusal::InProgress))
        } else {
            announce(LifecycleView { error: None, ..s }, ProjectStatus::Confirmed, 40, "queued for build"@)
        },
        LifecycleInput::StartMeshing => announce(s, ProjectStatus::Meshing, 55, "meshing"@),
        LifecycleInput::StartTexturing => announce(s, ProjectStatus::Texturing, 75, "texturing"@),
        LifecycleInput::BuildFinished => announce(
            LifecycleView { model_path: Some(model_file_name()), error: None, ..s },
            ProjectStatus::Ready,
            100,
            "ready"@,
        ),
        LifecycleInput::BuildFailed(e) => {
            let msg = "failed: "@ + e@;
            (
                LifecycleView { status: ProjectStatus::Failed, error: Some(e@), message: msg, ..s },
                OutputView::Emit { status: ProjectStatus::Failed, progress_pct: s.progress_pct, message: msg },
            )
        },
    }
}

/// File name of the built model, relative to the project directory.
pub open spec fn model_file_name() -> Seq<char> {
    "model.glb"@
}

impl Lifecycle {
    /// A freshly uploaded project.
    pub fn new() -> (r: Lifecycle)
        ensures
            r@.status == ProjectStatus::Uploaded,
            r@.progress_pct == 0,
            r@.message == "uploaded"@,
            r@.error is None,
            r@.model_path is None,
    {
        Lifecycle {
            status: ProjectStatus::Uploaded,
            progress_pct: 0,
            message: String::from_str("uploaded"),
            error: None,
            model_path: None,
        }
    }

    fn announce(&mut self, status: ProjectStatus, pct: u32, msg: &str) -> (r: LifecycleOutput)
        ensures
            (final(self)@, r@) == announce(old(self)@, status, pct, msg@),
    {
        self.status = status;
        self.progress_pct = pct;
        self.message = String::from_str(msg);
        LifecycleOutput::Emit(ProgressEvent { status, progress_pct: pct, message: String::from_str(msg) })
    }

    /// Applies one input: updates the project and says what to broadcast.
    pub fn apply(&mut self, input: LifecycleInput) -> (r: LifecycleOutput)
        ensures
            (final(self)@, r@) == step(old(self)@, input),
    {
        match input {
            LifecycleInput::BeginDetect => self.announce(ProjectStatus::Detecting, 10, "detecting walls"),
            LifecycleInput::FloorplanUnreadable(e) => {
                self.status = ProjectStatus::Failed;
                self.error = Some(e);
                LifecycleOutput::Quiet
            },
            LifecycleInput::DetectSucceeded => {
                self.error = None;
                self.announce(ProjectStatus::NeedsCorrection, 30, "needs correction")
            },
            LifecycleInput::DetectFailed(e) => {
                self.status = ProjectStatus::NeedsCorrection;
                self.progress_pct = 30;
                self.message = concat_str("detect failed, edit manually: ", e.as_str());
                self.error = Some(e);
                LifecycleOutput::Quiet
            },
            LifecycleInput::IrEdited => {
                self.status = ProjectStatus::NeedsCorrection;
                LifecycleOutput::Quiet
            },
            LifecycleInput::RequestBuild { ir_empty } => {
                if ir_empty {
                    LifecycleOutput::Refused(BuildRefusal::EmptyIr)
                } else if matches!(
                    self.status,
                    ProjectStatus::Meshing | ProjectStatus::Texturing | ProjectStatus::Confirmed
                ) {
                    LifecycleOutput::Refused(BuildRefusal::InProgress)
                } else {
                    self.error = None;
                    self.announce(ProjectStatus::Confirmed, 40, "queued for build")
                }
            },
            LifecycleInput::StartMeshing => self.announce(ProjectStatus::Meshing, 55, "meshing"),
            LifecycleInput::StartTexturing => self.announce(ProjectStatus::Texturing, 75, "texturing"),
            LifecycleInput::BuildFinished => {
                self.model_path = Some(String::from_str("model.glb"));
                self.error = None;
                self.announce(ProjectStatus::Ready, 100, "ready")
            },
            LifecycleInput::BuildFailed(e) => {
                let msg = concat_str("failed: ", e.as_str());
                self.status = ProjectStatus::Failed;
                self.error = Some(e);
                self.message = msg.clone();
                LifecycleOutput::Emit(
                    ProgressEvent { status: ProjectStatus::Failed, progress_pct: self.progress_pct, message: msg },
                )
            },
        }
    }
}

impl BuildRefusal {
    /// The HTTP status a refused build is answered with.
    pub fn http_status(&self) -> (r: u16)
        ensures
            *self == BuildRefusal::EmptyIr ==> r == 400,
            *self == BuildRefusal::InProgress ==> r == 409,
    {
        match self {
            BuildRefusal::EmptyIr => 400,
            BuildRefusal::InProgress => 409,
        }
    }

    /// The explanation a refused build is answered with.
    pub fn message(&self) -> (r: &'static str)
        ensures
            *self == BuildRefusal::EmptyIr ==> r@ == "IR is empty; correct walls/rooms before build"@,
            *self == BuildRefusal::InProgress ==> r@ == "build already in progress; wait or refresh status"@,
    {
        match self {
            BuildRefusal::EmptyIr => "IR is empty; correct walls/rooms before build",
            BuildRefusal::InProgress => "build already in progress; wait or refresh status",
        }
    }
}


/// A build request is refused exactly when the floorplan is empty or a build
/// is already queued or running, and a refused request changes nothing.
pub proof fn lemma_build_refusal(s: LifecycleView, ir_empty: bool)
    ensures
        ({
            let (t, out) = step(s, LifecycleInput::RequestBuild { ir_empty });
            &&& (out is Refused) <==> (ir_empty || build_in_progress(s.status))
            &&& out is Refused ==> t == s
            &&& ir_empty ==> out == OutputView::Refused(BuildRefusal::EmptyIr)
            &&& !ir_empty && build_in_progress(s.status) ==> out == OutputView::Refused(BuildRefusal::InProgress)
        }),
{
}

/// Every broadcast event reports the status and progress the project has
/// after the transition, and the same message.
pub proof fn lemma_event_matches_state(s: LifecycleView, input: LifecycleInput)
    ensures
        ({
            let (t, out) = step(s, input);
            out matches OutputView::Emit { status, progress_pct, message } ==> status == t.status
                && progress_pct == t.progress_pct && message == t.message
        }),
{
}

/// A build that is accepted and runs through meshing and texturing ends
/// `Ready` with the model recorded and no error, and its progress rises
/// strictly at every stage (40, 55, 75, 100 percent).
pub proof fn lemma_successful_build(s: LifecycleView)
    requires
        !build_in_progress(s.status),
    ensures
        ({
            let (s1, o1) = step(s, LifecycleInput::RequestBuild { ir_empty: false });
            let (s2, o2) = step(s1, LifecycleInput::StartMeshing);
            let (s3, o3) = step(s2, LifecycleInput::StartTexturing);
            let (s4, o4) = step(s3, LifecycleInput::BuildFinished);
            &&& o1 is Emit && o2 is Emit && o3 is Emit && o4 is Emit
            &&& s1.status == ProjectStatus::Confirmed
            &&& s2.status == ProjectStatus::Meshing
            &&& s3.status == ProjectStatus::Texturing
            &&& s4.status == ProjectStatus::Ready
            &&& s1.progress_pct < s2.progress_pct < s3.progress_pct < s4.progress_pct == 100
            &&& s4.model_path == Some(model_file_name())
            &&& s4.error is None
        }),
{
}

/// While a build is queued or running, a second build request is refused.
pub proof fn lemma_no_concurrent_builds(s: LifecycleView)
    requires
        !build_in_progress(s.status),
    ensures
        ({
            let (s1, o1) = step(s, LifecycleInput::RequestBuild { ir_empty: false });
            let (s2, o2) = step(s1, LifecycleInput::StartMeshing);
            let (s3, o3) = step(s2, LifecycleInput::StartTexturing);
            &&& step(s1, LifecycleInput::RequestBuild { ir_empty: false }).1
                == OutputView::Refused(BuildRefusal::InProgress)
            &&& step(s2, LifecycleInput::RequestBuild { ir_empty: false }).1
                == OutputView::Refused(BuildRefusal::InProgress)
            &&& step(s3, LifecycleInput::RequestBuild { ir_empty: false }).1
                == OutputView::Refused(BuildRefusal::InProgress)
        }),
{
}

/// A failed build leaves the project `Failed` with the error recorded, and
/// a new build can then be requested.
pub proof fn lemma_failed_build(s: LifecycleView, e: String)
    ensures
        ({
            let (t, out) = step(s, LifecycleInput::BuildFailed(e));
            &&& t.status == ProjectStatus::Failed
            &&& t.error == Some(e@)
            &&& t.message == "failed: "@ + e@
            &&& !build_in_progress(t.status)
            &&& out is Emit
        }),
{
}

/// A successful detection leaves the project waiting for correction at 30%
/// with no error recorded, whatever happened before (an earlier failed
/// detection included), and announces exactly that.
pub proof fn lemma_detect_success(s: LifecycleView)
    ensures
        ({
            let (t, out) = step(s, LifecycleInput::DetectSucceeded);
            &&& t.status == ProjectStatus::NeedsCorrection
            &&& t.progress_pct == 30
            &&& t.message == "needs correction"@
            &&& t.error is None
            &&& t.model_path == s.model_path
            &&& out == OutputView::Emit { status: ProjectStatus::NeedsCorrection, progress_pct: 30, message: "needs correction"@ }
        }),
{
}

} // verus!
