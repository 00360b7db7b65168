use openspace::lifecycle::{BuildRefusal, Lifecycle, LifecycleInput, LifecycleOutput};
use openspace::status::ProjectStatus;

fn emitted(out: LifecycleOutput) -> (ProjectStatus, u32, String) {
    match out {
        LifecycleOutput::Emit(e) => (e.status, e.progress_pct, e.message),
        LifecycleOutput::Quiet => panic!("expected an event, got none"),
        LifecycleOutput::Refused(r) => panic!("expected an event, got refusal {:?}", r),
    }
}

#[test]
fn new_project_is_uploaded() {
    let l = Lifecycle::new();
    assert_eq!(l.status, ProjectStatus::Uploaded);
    assert_eq!(l.progress_pct, 0);
    assert_eq!(l.message, "uploaded");
    assert!(l.error.is_none());
    assert!(l.model_path.is_none());
}

#[test]
fn detect_then_build_pipeline() {
    let mut l = Lifecycle::new();
    assert_eq!(emitted(l.apply(LifecycleInput::BeginDetect)), (ProjectStatus::Detecting, 10, "detecting walls".to_string()));
    assert_eq!(
        emitted(l.apply(LifecycleInput::DetectSucceeded)),
        (ProjectStatus::NeedsCorrection, 30, "needs correction".to_string())
    );
    assert_eq!(
        emitted(l.apply(LifecycleInput::RequestBuild { ir_empty: false })),
        (ProjectStatus::Confirmed, 40, "queued for build".to_string())
    );
    assert_eq!(emitted(l.apply(LifecycleInput::StartMeshing)), (ProjectStatus::Meshing, 55, "meshing".to_string()));
    assert_eq!(emitted(l.apply(LifecycleInput::StartTexturing)), (ProjectStatus::Texturing, 75, "texturing".to_string()));
    assert_eq!(emitted(l.apply(LifecycleInput::BuildFinished)), (ProjectStatus::Ready, 100, "ready".to_string()));
    assert_eq!(l.status, ProjectStatus::Ready);
    assert_eq!(l.model_path.as_deref(), Some("model.glb"));
    assert!(l.error.is_none());
}

#[test]
fn empty_floorplan_build_is_refused() {
    let mut l = Lifecycle::new();
    let out = l.apply(LifecycleInput::RequestBuild { ir_empty: true });
    match out {
        LifecycleOutput::Refused(r) => {
            assert_eq!(r, BuildRefusal::EmptyIr);
            assert_eq!(r.http_status(), 400);
            assert_eq!(r.message(), "IR is empty; correct walls/rooms before build");
        }
        _ => panic!("expected a refusal"),
    }
    assert_eq!(l.status, ProjectStatus::Uploaded);
}

#[test]
fn second_build_is_refused_while_running() {
    let mut l = Lifecycle::new();
    l.apply(LifecycleInput::RequestBuild { ir_empty: false });
    for step in [None, Some(LifecycleInput::StartMeshing), Some(LifecycleInput::StartTexturing)] {
        if let Some(s) = step {
            l.apply(s);
        }
        let before = l.status;
        match l.apply(LifecycleInput::RequestBuild { ir_empty: false }) {
            LifecycleOutput::Refused(r) => {
                assert_eq!(r, BuildRefusal::InProgress);
                assert_eq!(r.http_status(), 409);
                assert_eq!(r.message(), "build already in progress; wait or refresh status");
            }
            _ => panic!("expected a refusal"),
        }
        assert_eq!(l.status, before);
    }
}

#[test]
fn failed_build_records_error_and_allows_retry() {
    let mut l = Lifecycle::new();
    l.apply(LifecycleInput::RequestBuild { ir_empty: false });
    l.apply(LifecycleInput::StartMeshing);
    let (status, pct, msg) = emitted(l.apply(LifecycleInput::BuildFailed("disk full".to_string())));
    assert_eq!(status, ProjectStatus::Failed);
    assert_eq!(pct, 55);
    assert_eq!(msg, "failed: disk full");
    assert_eq!(l.error.as_deref(), Some("disk full"));
    assert_eq!(l.message, "failed: disk full");
    let (status, _, _) = emitted(l.apply(LifecycleInput::RequestBuild { ir_empty: false }));
    assert_eq!(status, ProjectStatus::Confirmed);
    assert!(l.error.is_none());
}

#[test]
fn failed_detection_asks_for_manual_editing() {
    let mut l = Lifecycle::new();
    l.apply(LifecycleInput::BeginDetect);
    assert!(matches!(l.apply(LifecycleInput::DetectFailed("no walls".to_string())), LifecycleOutput::Quiet));
    assert_eq!(l.status, ProjectStatus::NeedsCorrection);
    assert_eq!(l.progress_pct, 30);
    assert_eq!(l.message, "detect failed, edit manually: no walls");
    assert_eq!(l.error.as_deref(), Some("no walls"));
}

#[test]
fn unreadable_floorplan_fails_quietly() {
    let mut l = Lifecycle::new();
    l.apply(LifecycleInput::BeginDetect);
    assert!(matches!(l.apply(LifecycleInput::FloorplanUnreadable("bad png".to_string())), LifecycleOutput::Quiet));
    assert_eq!(l.status, ProjectStatus::Failed);
    assert_eq!(l.error.as_deref(), Some("bad png"));
    assert_eq!(l.progress_pct, 10);
}

#[test]
fn editing_returns_to_correction() {
    let mut l = Lifecycle::new();
    l.apply(LifecycleInput::RequestBuild { ir_empty: false });
    l.apply(LifecycleInput::StartMeshing);
    l.apply(LifecycleInput::StartTexturing);
    l.apply(LifecycleInput::BuildFinished);
    assert!(matches!(l.apply(LifecycleInput::IrEdited), LifecycleOutput::Quiet));
    assert_eq!(l.status, ProjectStatus::NeedsCorrection);
    assert_eq!(l.progress_pct, 100);
}
