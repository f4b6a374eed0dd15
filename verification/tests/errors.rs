use tree::error::{Error, ErrorKind};

#[test]
fn new_records_kind_and_cause() {
    let e = Error::new(ErrorKind::Io, "disk on fire".to_string());
    assert_eq!(*e.kind(), ErrorKind::Io);
    assert!(e.message().is_none());
    assert_eq!("disk on fire", e.describe());
}

#[test]
fn with_message_is_reported() {
    let e = Error::with_message(ErrorKind::InvalidData, "bad path".to_string());
    assert_eq!(*e.kind(), ErrorKind::InvalidData);
    assert_eq!(Some("bad path"), e.message());
    assert_eq!("bad path", e.describe());
}

#[test]
fn with_message_fn_is_evaluated() {
    let e = Error::with_message_fn(ErrorKind::Other, || format!("at depth {}", 3));
    assert_eq!(*e.kind(), ErrorKind::Other);
    assert_eq!(Some("at depth 3"), e.message());
    assert_eq!("at depth 3", e.describe());
    assert!(e.source().is_none());
}

#[test]
fn from_kind_is_bare() {
    let e = Error::from(ErrorKind::Other);
    assert_eq!(*e.kind(), ErrorKind::Other);
    assert!(e.message().is_none());
    assert_eq!("Other", e.describe());
}

#[test]
fn source_reports_the_cause() {
    let e = Error::new(ErrorKind::Io, "permission denied".to_string());
    assert_eq!(Some("permission denied"), e.source());

    let plain = Error::with_message(ErrorKind::Other, "no cause here".to_string());
    assert!(plain.source().is_none());

    let bare = Error::from(ErrorKind::Io);
    assert!(bare.source().is_none());
}

#[test]
fn kind_names() {
    assert_eq!("InvalidData", ErrorKind::InvalidData.describe());
    assert_eq!("Io", ErrorKind::Io.describe());
    assert_eq!("Other", ErrorKind::Other.describe());
}
