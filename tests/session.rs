use azure_data_cosmos::{Error, PartitionKeyRangeId, ResourceId, Session};

#[test]
fn new_session_is_empty() {
    let session = Session::new();
    let container = ResourceId::new("container1".to_string());
    assert!(session.get_session_token(&container).is_none());
    assert_eq!(session.container_count(), 0);
}

#[test]
fn set_and_get_session_token() {
    let mut session = Session::new();
    let container = ResourceId::new("container1".to_string());

    session
        .set_session_token(&container, "42:1#123#4=500")
        .unwrap();

    let token = session.get_session_token(&container).unwrap();
    assert_eq!(token, "42:1#123#4=500");
    assert_eq!(session.container_count(), 1);
}

#[test]
fn multiple_containers() {
    let mut session = Session::new();
    let container1 = ResourceId::new("container1".to_string());
    let container2 = ResourceId::new("container2".to_string());

    session
        .set_session_token(&container1, "42:1#123#4=500")
        .unwrap();
    session
        .set_session_token(&container2, "43:1#124#4=501")
        .unwrap();

    assert_eq!(
        session.get_session_token(&container1).unwrap(),
        "42:1#123#4=500"
    );
    assert_eq!(
        session.get_session_token(&container2).unwrap(),
        "43:1#124#4=501"
    );
    assert_eq!(session.container_count(), 2);
}

#[test]
fn session_get_partition_session_token() {
    let mut session = Session::new();
    let container = ResourceId::new("container1".to_string());
    let pk_range_id = PartitionKeyRangeId::new("42".to_string());

    session
        .set_session_token(&container, "42:1#123#4=500,43:1#124#4=501")
        .unwrap();

    let token = session
        .get_partition_session_token(&container, &pk_range_id)
        .unwrap();
    assert_eq!(token, "42:1#123#4=500");

    let missing_pk = PartitionKeyRangeId::new("99".to_string());
    assert!(session
        .get_partition_session_token(&container, &missing_pk)
        .is_none());

    let missing_container = ResourceId::new("missing".to_string());
    assert!(session
        .get_partition_session_token(&missing_container, &pk_range_id)
        .is_none());
}

#[test]
fn session_clear_session() {
    let mut session = Session::new();
    let container = ResourceId::new("container1".to_string());

    session
        .set_session_token(&container, "42:1#123#4=500")
        .unwrap();
    assert!(session.get_session_token(&container).is_some());

    session.clear_session(&container);
    assert!(session.get_session_token(&container).is_none());
    assert_eq!(session.container_count(), 1);
}

#[test]
fn clear_all_sessions() {
    let mut session = Session::new();
    let container1 = ResourceId::new("container1".to_string());
    let container2 = ResourceId::new("container2".to_string());

    session
        .set_session_token(&container1, "42:1#123#4=500")
        .unwrap();
    session
        .set_session_token(&container2, "43:1#124#4=501")
        .unwrap();
    assert_eq!(session.container_count(), 2);

    session.clear_all_sessions();
    assert_eq!(session.container_count(), 0);
    assert!(session.get_session_token(&container1).is_none());
    assert!(session.get_session_token(&container2).is_none());
}

#[test]
fn clear_nonexistent_container_does_nothing() {
    let mut session = Session::new();
    let container = ResourceId::new("nonexistent".to_string());

    session.clear_session(&container);
    assert_eq!(session.container_count(), 0);
}

#[test]
fn session_set_empty_token_fails() {
    let mut session = Session::new();
    let container = ResourceId::new("container1".to_string());

    let result = session.set_session_token(&container, "");
    assert_eq!(result.unwrap_err(), Error::EmptyInput);
    assert_eq!(session.container_count(), 0);
}

#[test]
fn default_session_is_empty() {
    let session = Session::default();
    assert_eq!(session.container_count(), 0);
}

// Further cases.

#[test]
fn failing_token_creates_no_container() {
    let mut session = Session::new();
    let container = ResourceId::new("c".to_string());
    let result = session.set_session_token(&container, "1:1#1,bad");
    assert_eq!(result, Err(Error::MissingComponents));
    assert_eq!(session.container_count(), 0);
    assert!(session.get_session_token(&container).is_none());
}

#[test]
fn failing_token_on_known_container_keeps_earlier_segments() {
    let mut session = Session::new();
    let container = ResourceId::new("c".to_string());
    session.set_session_token(&container, "1:1#1").unwrap();
    let result = session.set_session_token(&container, "2:1#2,bad");
    assert_eq!(result, Err(Error::MissingComponents));
    assert_eq!(session.container_count(), 1);
    assert_eq!(session.get_session_token(&container).unwrap(), "1:1#1,2:1#2");
}
