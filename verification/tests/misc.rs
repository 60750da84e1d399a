use sourisdb::client::{
    bool_to_string, created_from_status, response_status, CreationResult, ResponseStatus,
    DEFAULT_SOURISD_PORT,
};
use sourisdb::display_bytes_as_hex_array;
use sourisdb::net::tcp_utils::{Action, ResponseRequired, ACTION_KEY, DB_NAME_KEY};
use sourisdb::utilities::cursor::Cursor;
use sourisdb::version::{Version, VersionSerError};

#[test]
fn hex_arrays() {
    assert_eq!(display_bytes_as_hex_array(&[]), "[]");
    assert_eq!(display_bytes_as_hex_array(&[0xAB]), "[0xAB]");
    assert_eq!(display_bytes_as_hex_array(&[1, 0, 255]), "[0x1, 0x0, 0xFF]");
}

#[test]
fn version_roundtrips() {
    let bytes = Version::V0_1_0.to_bytes();
    assert_eq!(bytes, b"V0_1_0");
    let mut cursor = Cursor::new(bytes);
    assert_eq!(Version::from_bytes(&mut cursor).unwrap(), Version::V0_1_0);
    assert!(cursor.is_finished());
}

#[test]
fn version_errors() {
    let mut cursor = Cursor::new(b"V0_1");
    assert!(matches!(Version::from_bytes(&mut cursor), Err(VersionSerError::NotEnoughBytes)));
    assert_eq!(cursor.pos(), 0);
    let mut cursor = Cursor::new(b"V9_9_9");
    assert!(matches!(Version::from_bytes(&mut cursor), Err(VersionSerError::Invalid)));
}

#[test]
fn actions_roundtrip_through_bytes() {
    for b in 0u8..=8 {
        assert_eq!(Action::try_from_u8(b).unwrap().to_u8(), b);
    }
    assert!(Action::try_from_u8(9).is_err());
    assert_eq!(Action::GetValue.to_u8(), 8);
    assert_eq!(ResponseRequired::try_from_u8(0).unwrap().to_u8(), 0);
    assert!(ResponseRequired::try_from_u8(1).is_err());
    assert_eq!(ACTION_KEY, "action");
    assert_eq!(DB_NAME_KEY, "name");
}

#[test]
fn client_texts() {
    assert_eq!(bool_to_string(true), "true");
    assert_eq!(bool_to_string(false), "false");
    assert_eq!(CreationResult::UnableToFindDB.to_text(), "Unable to find database");
    assert_eq!(
        CreationResult::FoundExistingKey.to_text(),
        "Found existing key in existing database, didn't overwrite"
    );
    assert_eq!(DEFAULT_SOURISD_PORT, 7687);
}

#[test]
fn created_from_status_reads_ok_and_created() {
    assert_eq!(created_from_status(200), Some(false));
    assert_eq!(created_from_status(201), Some(true));
    assert_eq!(created_from_status(500), None);
}

#[test]
fn response_status_classes() {
    assert_eq!(response_status(410), ResponseStatus::Gone);
    assert_eq!(response_status(200), ResponseStatus::Success);
    assert_eq!(response_status(201), ResponseStatus::Success);
    assert_eq!(response_status(404), ResponseStatus::Failure);
    assert_eq!(response_status(500), ResponseStatus::Failure);
}
