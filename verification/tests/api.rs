use monitoring_rs::api::{read_logs, respond};
use monitoring_rs::log_database::StoreError;

#[test]
fn read_logs_non_existent_key() {
    let response = read_logs::<StoreError>(Ok(None));
    assert_eq!(response.status, 404);
    assert_eq!(response.body, None);
}

#[test]
fn read_logs_existing_key() {
    let response = read_logs::<StoreError>(Ok(Some(vec!["hello".to_string(), "world".to_string()])));
    assert_eq!(response.status, 200);
    assert_eq!(response.body, Some(b"[\"hello\",\"world\"]".to_vec()));
}

#[test]
fn read_logs_without_lines_and_with_failures() {
    let response = read_logs::<StoreError>(Ok(Some(Vec::new())));
    assert_eq!(response.status, 200);
    assert_eq!(response.body, Some(b"[]".to_vec()));

    let response = read_logs(Err(StoreError::CorruptShard {
        fingerprint: "abc".to_string(),
    }));
    assert_eq!(response.status, 500);
    assert_eq!(response.body, None);

    let response = respond::<StoreError>(Ok(Some(b"[]".to_vec())));
    assert_eq!((response.status, response.body), (200, Some(b"[]".to_vec())));
    assert_eq!(respond::<StoreError>(Ok(None)).status, 404);
    assert_eq!(
        respond(Err(StoreError::MissingShard {
            fingerprint: String::new()
        }))
        .status,
        500
    );
}

#[test]
fn read_logs_after_a_failure_of_any_kind() {
    let failed: Result<Option<Vec<String>>, std::io::Error> = Err(std::io::Error::new(
        std::io::ErrorKind::PermissionDenied,
        "denied",
    ));
    let response = read_logs(failed);
    assert_eq!(response.status, 500);
    assert_eq!(response.body, None);

    let response = read_logs::<()>(Ok(Some(vec!["a \"b\"".to_string()])));
    assert_eq!(response.status, 200);
    assert_eq!(response.body, Some(b"[\"a \\\"b\\\"\"]".to_vec()));
}
