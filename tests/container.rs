use azure_data_cosmos::{ContainerSession, Error, PartitionKeyRangeId};

#[test]
fn new_container_session_is_empty() {
    let session = ContainerSession::new();
    assert!(session.get_session_token().is_none());
}

#[test]
fn set_single_partition_token() {
    let mut session = ContainerSession::new();
    session.set_session_token("42:1#123#4=500").unwrap();

    let token = session.get_session_token().unwrap();
    assert_eq!(token, "42:1#123#4=500");
}

#[test]
fn set_multiple_partition_tokens() {
    let mut session = ContainerSession::new();
    session
        .set_session_token("42:1#123#4=500,43:1#124#4=501")
        .unwrap();

    let token = session.get_session_token().unwrap();
    assert!(token.contains("42:1#123#4=500"));
    assert!(token.contains("43:1#124#4=501"));
    assert!(token.contains(","));
}

#[test]
fn container_get_partition_session_token() {
    let mut session = ContainerSession::new();
    session
        .set_session_token("42:1#123#4=500,43:1#124#4=501")
        .unwrap();

    let pk_range_id = PartitionKeyRangeId::new("42".to_string());
    let token = session.get_partition_session_token(&pk_range_id).unwrap();
    assert_eq!(token, "42:1#123#4=500");

    let missing_id = PartitionKeyRangeId::new("99".to_string());
    assert!(session.get_partition_session_token(&missing_id).is_none());
}

#[test]
fn container_clear_session() {
    let mut session = ContainerSession::new();
    session.set_session_token("42:1#123#4=500").unwrap();
    assert!(session.get_session_token().is_some());

    session.clear_session();
    assert!(session.get_session_token().is_none());
}

#[test]
fn container_set_empty_token_fails() {
    let mut session = ContainerSession::new();
    let result = session.set_session_token("");
    assert_eq!(result.unwrap_err(), Error::EmptyInput);
}

#[test]
fn set_invalid_partition_token_fails() {
    let mut session = ContainerSession::new();
    let result = session.set_session_token("invalid_token");
    assert!(result.is_err());
}

#[test]
fn partition_tokens_are_replaced_on_update() {
    let mut session = ContainerSession::new();

    session.set_session_token("42:1#123#4=500").unwrap();
    let pk_range_id = PartitionKeyRangeId::new("42".to_string());
    assert_eq!(
        session.get_partition_session_token(&pk_range_id).unwrap(),
        "42:1#123#4=500"
    );

    session.set_session_token("42:2#456#4=600").unwrap();
    assert_eq!(
        session.get_partition_session_token(&pk_range_id).unwrap(),
        "42:2#456#4=600"
    );
}

// Further cases.

#[test]
fn container_text_is_sorted_and_joined() {
    let mut session = ContainerSession::new();
    session
        .set_session_token("43:1#124#4=501,42:1#123#4=500")
        .unwrap();
    assert_eq!(
        session.get_session_token().unwrap(),
        "42:1#123#4=500,43:1#124#4=501"
    );
    session.set_session_token("4:9#9").unwrap();
    assert_eq!(
        session.get_session_token().unwrap(),
        "42:1#123#4=500,43:1#124#4=501,4:9#9"
    );
}

#[test]
fn segments_are_trimmed_and_empty_ones_skipped() {
    let mut session = ContainerSession::new();
    session
        .set_session_token(" 1:1#10 ,\t,2:1#20,")
        .unwrap();
    assert_eq!(session.get_session_token().unwrap(), "1:1#10,2:1#20");
    let result = session.set_session_token(" , ");
    assert_eq!(result, Ok(()));
    assert_eq!(session.get_session_token().unwrap(), "1:1#10,2:1#20");
}

#[test]
fn segments_before_a_failure_stay_applied() {
    let mut session = ContainerSession::new();
    let result = session.set_session_token("1:1#10,2:x#20,3:1#30");
    assert_eq!(result, Err(Error::InvalidVersion("x".to_string())));
    assert_eq!(session.get_session_token().unwrap(), "1:1#10");
}

#[test]
fn replacement_is_not_a_merge() {
    let mut session = ContainerSession::new();
    session.set_session_token("42:2#456#4=600").unwrap();
    session.set_session_token("42:1#123#4=500").unwrap();
    let id = PartitionKeyRangeId::new("42".to_string());
    assert_eq!(
        session.get_partition_session_token(&id).unwrap(),
        "42:1#123#4=500"
    );
    assert_eq!(session.get_session_token().unwrap(), "42:1#123#4=500");
}
