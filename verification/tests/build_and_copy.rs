use cargo_run_copy::cargo_build::{
    build_executable, build_outcome, copy_destination, last_executable, BuildError, BuildOutcome,
};
use cargo_run_copy::hash::to_hash;
use cargo_run_copy::paths::PathComponent;

fn normal(s: &str) -> PathComponent {
    PathComponent::Normal(s.as_bytes().to_vec())
}

const ARTIFACT_WITH_EXE: &str = r#"{"reason":"compiler-artifact","package_id":"server 0.1.0 (path+file:///proj)","manifest_path":"/proj/Cargo.toml","target":{"kind":["bin"],"crate_types":["bin"],"name":"server","src_path":"/proj/src/main.rs","edition":"2021","doctest":false},"profile":{"opt_level":"0","debuginfo":2,"debug_assertions":true,"overflow_checks":true,"test":false},"features":[],"filenames":["/proj/target/debug/server"],"executable":"/proj/target/debug/server","fresh":false}"#;

const ARTIFACT_WITHOUT_EXE: &str = r#"{"reason":"compiler-artifact","package_id":"dep 0.1.0 (path+file:///dep)","manifest_path":"/dep/Cargo.toml","target":{"kind":["lib"],"crate_types":["lib"],"name":"dep","src_path":"/dep/src/lib.rs","edition":"2021","doctest":true},"profile":{"opt_level":"0","debuginfo":2,"debug_assertions":true,"overflow_checks":true,"test":false},"features":[],"filenames":["/proj/target/debug/libdep.rlib"],"executable":null,"fresh":true}"#;

const BUILD_FINISHED: &str = r#"{"reason":"build-finished","success":true}"#;

#[test]
fn blake3_hash_of_known_inputs() {
    assert_eq!(
        to_hash(b""),
        "af1349b9f5f9a1a6a0404dea36dcc9499bcb25c9adc112b7cc9a93cae41f3262"
    );
    assert_eq!(
        to_hash(b"abc"),
        "6437b3ac38465133ffb63b75273a8db548c558465d79db03fd359c6cd5bd9d85"
    );
}

#[test]
fn executable_is_taken_from_artifact_messages() {
    let lines = vec![
        format!("{ARTIFACT_WITHOUT_EXE}\n"),
        format!("{ARTIFACT_WITH_EXE}\n"),
        "plain text\n".to_string(),
        format!("{BUILD_FINISHED}\n"),
    ];
    assert_eq!(build_executable(&lines), Some("/proj/target/debug/server".to_string()));
}

#[test]
fn no_executable_without_artifacts_naming_one() {
    let lines = vec![ARTIFACT_WITHOUT_EXE.to_string(), BUILD_FINISHED.to_string()];
    assert_eq!(build_executable(&lines), None);
    assert_eq!(build_executable(&Vec::new()), None);
}

#[test]
fn last_executable_wins() {
    let found = vec![Some("a".to_string()), None, Some("b".to_string()), None];
    assert_eq!(last_executable(found), Some("b".to_string()));
    assert_eq!(last_executable(vec![None, None]), None);
}

#[test]
fn build_outcomes() {
    assert_eq!(build_outcome(true, Some(0), Some("x".into())), BuildOutcome::Built("x".into()));
    assert_eq!(
        build_outcome(true, Some(0), None),
        BuildOutcome::Failed(BuildError::NoExecutable)
    );
    assert_eq!(build_outcome(false, Some(101), Some("x".into())), BuildOutcome::Exit(101));
    assert_eq!(build_outcome(false, None, Some("x".into())), BuildOutcome::Failed(BuildError::CargoFailed));
}

#[test]
fn copy_goes_under_run_copy_and_hash() {
    let target = vec![PathComponent::RootDir, normal("proj"), normal("target")];
    let exe = vec![PathComponent::RootDir, normal("proj"), normal("target"), normal("debug"), normal("server")];
    let dest = copy_destination(&target, &exe, b"abc").unwrap();
    assert_eq!(
        dest,
        vec![
            PathComponent::RootDir,
            normal("proj"),
            normal("target"),
            normal("run-copy"),
            normal("6437b3ac38465133ffb63b75273a8db548c558465d79db03fd359c6cd5bd9d85"),
            normal("server"),
        ]
    );
}

#[test]
fn copy_needs_a_file_name() {
    let target = vec![normal("target")];
    let exe = vec![normal("target"), PathComponent::ParentDir];
    assert_eq!(copy_destination(&target, &exe, b""), None);
}
