use ravenna::StatusCode;

#[test]
fn classifies_each_range() {
    let cases: [(u16, StatusCode); 12] = [
        (100, StatusCode::Informational),
        (150, StatusCode::Informational),
        (199, StatusCode::Informational),
        (200, StatusCode::Successful),
        (250, StatusCode::Successful),
        (299, StatusCode::Successful),
        (300, StatusCode::Redirection),
        (399, StatusCode::Redirection),
        (400, StatusCode::ClientError),
        (499, StatusCode::ClientError),
        (500, StatusCode::ServerError),
        (599, StatusCode::ServerError),
    ];
    for (code, expected) in cases {
        assert_eq!(StatusCode::from(Some(code)), expected, "code {code}");
    }
}

#[test]
fn out_of_range_and_absent_are_unknown() {
    assert_eq!(StatusCode::from(Some(600)), StatusCode::Unknown);
    assert_eq!(StatusCode::from(Some(99)), StatusCode::Unknown);
    assert_eq!(StatusCode::from(Some(0)), StatusCode::Unknown);
    assert_eq!(StatusCode::from(Some(u16::MAX)), StatusCode::Unknown);
    assert_eq!(StatusCode::from(None), StatusCode::Unknown);
}

#[test]
fn status_labels() {
    assert_eq!(StatusCode::ClientError.label(), "ClientError");
    assert_eq!(StatusCode::Successful.label(), "Successful");
    assert_eq!(StatusCode::Unknown.label(), "Unknown");
}
