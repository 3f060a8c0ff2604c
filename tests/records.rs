use lastlog::common::decode_text;
use lastlog::{new_record, unix_timestamp, AccountDirectory, LoginTime, RecordType};

#[test]
fn zero_timestamp_is_never() {
    assert_eq!(unix_timestamp(0), LoginTime::Never);
}

#[test]
fn nonzero_timestamp_is_kept_exactly() {
    assert_eq!(unix_timestamp(1_700_000_000), LoginTime::Last(1_700_000_000));
    assert_eq!(unix_timestamp(u32::MAX), LoginTime::Last(4_294_967_295));
}

#[test]
fn login_time_seconds_round_trip() {
    assert_eq!(LoginTime::from_seconds(None), LoginTime::Never);
    assert_eq!(LoginTime::from_seconds(Some(42)).seconds(), Some(42));
    assert_eq!(LoginTime::Never.seconds(), None);
    assert!(LoginTime::Last(2).is_later_than(&LoginTime::Last(1)));
    assert!(!LoginTime::Last(1).is_later_than(&LoginTime::Last(1)));
    assert!(LoginTime::Last(0).is_later_than(&LoginTime::Never));
    assert!(!LoginTime::Never.is_later_than(&LoginTime::Last(5)));
}

#[test]
fn record_type_tags() {
    assert_eq!(RecordType::try_from(0), Some(RecordType::Empty));
    assert_eq!(RecordType::try_from(2), Some(RecordType::BootTime));
    assert_eq!(RecordType::try_from(7), Some(RecordType::User));
    assert_eq!(RecordType::try_from(9), Some(RecordType::Accounting));
    assert_eq!(RecordType::try_from(10), None);
    assert_eq!(RecordType::try_from(11), None);
    assert_eq!(RecordType::try_from(-1), None);
}

#[test]
fn new_record_never_logged_in() {
    let r = new_record(1000, "alice".to_string());
    assert_eq!(r.rtype, RecordType::User);
    assert_eq!(r.uid, Some(1000));
    assert_eq!(r.name, "alice");
    assert_eq!(r.tty, "");
    assert_eq!(r.last_login, LoginTime::Never);
}

#[test]
fn text_field_padding_is_dropped() {
    let mut field = vec![0u8; 8];
    field[..4].copy_from_slice(b"tty1");
    assert_eq!(decode_text(&field), Some("tty1".to_string()));
    let lead = [0u8, 0, b'p', b't', b's', 0];
    assert_eq!(decode_text(&lead), Some("pts".to_string()));
    assert_eq!(decode_text(&[0u8; 4]), Some(String::new()));
    let multibyte = "é".as_bytes();
    assert_eq!(decode_text(multibyte), Some("é".to_string()));
}

#[test]
fn text_field_not_utf8_is_rejected() {
    assert_eq!(decode_text(&[b'a', 0xff, 0]), None);
}

#[test]
fn directory_keeps_one_entry_per_name() {
    let mut d = AccountDirectory::new();
    assert!(d.insert(1, "alice".to_string()));
    assert!(d.insert(1, "bob".to_string()));
    assert!(!d.insert(2, "alice".to_string()));
    assert_eq!(d.len(), 2);
    assert_eq!(d.lookup_name(&"alice".to_string()), Some(2));
    assert_eq!(d.lookup_name(&"bob".to_string()), Some(1));
    assert_eq!(d.lookup_uid(1), Some("bob".to_string()));
    assert_eq!(d.lookup_uid(3), None);
}
