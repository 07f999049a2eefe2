use asr_data::dataset::{modelscope_revision, ModelScopeRequestError};
use asr_data::dataset::{modelscope_snapshot_path, parse_modelscope_license};

#[test]
fn modelscope_license_supports_plain_and_quoted_scalars() {
    assert_eq!(
        parse_modelscope_license("---\nlicense: Apache License 2.0\n---\n"),
        Ok("Apache License 2.0".to_owned())
    );
    assert_eq!(
        parse_modelscope_license("---\nlicense: \"CC-BY-4.0\"\n---\n"),
        Ok("CC-BY-4.0".to_owned())
    );
    assert_eq!(
        parse_modelscope_license("---\nlicense: 'ODC-BY'\n---\n"),
        Ok("ODC-BY".to_owned())
    );
    assert_eq!(
        parse_modelscope_license("# No front matter\n"),
        Ok(String::new())
    );
    assert_eq!(
        parse_modelscope_license("---\nlanguage: zh\n---\n"),
        Ok(String::new())
    );
    assert!(parse_modelscope_license("---\nlicense: [MIT]\n---\n").is_err());
    assert!(parse_modelscope_license("---\nlicense: MIT\n").is_err());
}

#[test]
fn snapshot_path_flattens_the_repository_id() {
    assert_eq!(
        modelscope_snapshot_path("/cache", "di-osc/calls", "master"),
        "/cache/datasets/di-osc--calls/snapshots/master"
    );
    assert_eq!(
        modelscope_snapshot_path("/cache/", "a/b/c", "v1"),
        "/cache/datasets/a--b--c/snapshots/v1"
    );
    assert_eq!(modelscope_snapshot_path("/cache", "r", "/abs"), "/abs");
}

#[test]
fn modelscope_requests_are_checked_before_download() {
    assert_eq!(modelscope_revision("  ", Some("v1")), Err(ModelScopeRequestError::EmptyRepositoryId));
    assert_eq!(modelscope_revision("org/data", Some(" ")), Err(ModelScopeRequestError::EmptyRevision));
    assert_eq!(modelscope_revision("org/data", None), Ok("master".to_string()));
    assert_eq!(modelscope_revision("org/data", Some("v1")), Ok("v1".to_string()));
}
