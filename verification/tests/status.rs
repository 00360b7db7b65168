use openspace::status::{parse_status, status_str, OpeningKind, ProjectStatus};
use openspace::error::OpenSpaceError;
use openspace::backend::{GeometricBackend, OnnxBackend, Stage};

const ALL: [ProjectStatus; 8] = [
    ProjectStatus::Uploaded,
    ProjectStatus::Detecting,
    ProjectStatus::NeedsCorrection,
    ProjectStatus::Confirmed,
    ProjectStatus::Meshing,
    ProjectStatus::Texturing,
    ProjectStatus::Ready,
    ProjectStatus::Failed,
];

#[test]
fn project_status_default() {
    assert_eq!(ProjectStatus::default(), ProjectStatus::Uploaded);
}

#[test]
fn status_names_are_snake_case() {
    assert_eq!(status_str(ProjectStatus::Uploaded), "uploaded");
    assert_eq!(status_str(ProjectStatus::NeedsCorrection), "needs_correction");
    assert_eq!(status_str(ProjectStatus::Texturing), "texturing");
    assert_eq!(status_str(ProjectStatus::Failed), "failed");
}

#[test]
fn status_name_roundtrip() {
    for s in ALL {
        assert_eq!(parse_status(status_str(s)), s);
    }
}

#[test]
fn status_names_are_distinct() {
    for a in ALL {
        for b in ALL {
            if a != b {
                assert_ne!(status_str(a), status_str(b));
            }
        }
    }
}

#[test]
fn unknown_status_reads_as_uploaded() {
    assert_eq!(parse_status("bogus"), ProjectStatus::Uploaded);
    assert_eq!(parse_status(""), ProjectStatus::Uploaded);
    assert_eq!(parse_status("Ready"), ProjectStatus::Uploaded);
    assert_eq!(parse_status("ready"), ProjectStatus::Ready);
}

#[test]
fn opening_kinds_differ() {
    assert_ne!(OpeningKind::Door, OpeningKind::Window);
}

#[test]
fn onnx_returns_unsupported() {
    let b = OnnxBackend;
    let err = b.unsupported(Stage::Detect);
    assert!(matches!(err, OpenSpaceError::Unsupported(_)));
}

#[test]
fn onnx_stage_messages() {
    let b = OnnxBackend;
    assert_eq!(
        b.unsupported(Stage::Detect).message(),
        "unsupported backend: OnnxBackend::detect is not implemented yet; use GeometricBackend"
    );
    assert_eq!(
        b.unsupported(Stage::Mesh).message(),
        "unsupported backend: OnnxBackend::mesh is not implemented yet"
    );
    assert_eq!(
        b.unsupported(Stage::Texture).message(),
        "unsupported backend: OnnxBackend::texture is not implemented yet"
    );
}

#[test]
fn backend_names() {
    assert_eq!(GeometricBackend.name(), "geometric");
    assert_eq!(OnnxBackend.name(), "onnx");
}

#[test]
fn error_messages_have_prefixes() {
    assert_eq!(OpenSpaceError::Unsupported("x".to_string()).message(), "unsupported backend: x");
    assert_eq!(OpenSpaceError::InvalidFloorplan("x".to_string()).message(), "invalid floorplan: x");
    assert_eq!(OpenSpaceError::Io("x".to_string()).message(), "io error: x");
    assert_eq!(OpenSpaceError::NotFound("x".to_string()).message(), "not found: x");
    assert_eq!(OpenSpaceError::BadRequest("x".to_string()).message(), "bad request: x");
    assert_eq!(OpenSpaceError::Internal("x".to_string()).message(), "internal: x");
}
