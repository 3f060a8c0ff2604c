use lastlog::passwd::parse_uid;
use lastlog::{read_passwd_idmap, read_passwd_nmap};

#[test]
fn passwd_lines_become_accounts() {
    let text = b"root:x:0:0:root:/root:/bin/bash\nalice:x:1000:1000::/home/alice:/bin/sh\n";
    let d = read_passwd_nmap(text);
    assert_eq!(d.len(), 2);
    assert_eq!(d.lookup_name(&"root".to_string()), Some(0));
    assert_eq!(d.lookup_name(&"alice".to_string()), Some(1000));
}

#[test]
fn malformed_passwd_lines_are_skipped() {
    let text = b"\n   \nnofields\nbob:x:notanumber:1\ncarol:x:\ndave:x:4294967296:1\neve:x:4294967295:1\n";
    let d = read_passwd_nmap(text);
    assert_eq!(d.len(), 1);
    assert_eq!(d.lookup_name(&"eve".to_string()), Some(4294967295));
}

#[test]
fn repeated_passwd_name_keeps_the_last() {
    let text = b"alice:x:5:5\nalice:x:6:6\nbob:x:5:5\n";
    let d = read_passwd_nmap(text);
    assert_eq!(d.len(), 2);
    assert_eq!(d.lookup_name(&"alice".to_string()), Some(6));
    assert_eq!(d.lookup_name(&"bob".to_string()), Some(5));
}

#[test]
fn shared_uid_keeps_both_names() {
    let text = b"root:x:0:0\ntoor:x:0:0\nalice:x:7:7\n";
    let d = read_passwd_nmap(text);
    assert_eq!(d.len(), 3);
    assert_eq!(d.lookup_name(&"root".to_string()), Some(0));
    assert_eq!(d.lookup_name(&"toor".to_string()), Some(0));
    assert_eq!(d.lookup_uid(0), Some("toor".to_string()));
    let ids = read_passwd_idmap(&d);
    let pairs: Vec<(u32, &str)> = ids.iter().map(|a| (a.uid, a.name.as_str())).collect();
    assert_eq!(pairs, vec![(0, "toor"), (7, "alice")]);
}

#[test]
fn idmap_is_sorted_by_uid() {
    let text = b"c:x:30:0\na:x:10:0\nb:x:20:0\nz:x:0:0\n";
    let d = read_passwd_nmap(text);
    let sorted = read_passwd_idmap(&d);
    let uids: Vec<u32> = sorted.iter().map(|a| a.uid).collect();
    assert_eq!(uids, vec![0, 10, 20, 30]);
    let names: Vec<&str> = sorted.iter().map(|a| a.name.as_str()).collect();
    assert_eq!(names, vec!["z", "a", "b", "c"]);
}

#[test]
fn uid_field_parsing() {
    assert_eq!(parse_uid(b"0"), Some(0));
    assert_eq!(parse_uid(b"1000"), Some(1000));
    assert_eq!(parse_uid(b""), None);
    assert_eq!(parse_uid(b"12a"), None);
    assert_eq!(parse_uid(b"-1"), None);
    assert_eq!(parse_uid(b"4294967295"), Some(u32::MAX));
    assert_eq!(parse_uid(b"4294967296"), None);
    assert_eq!(parse_uid(b"99999999999"), None);
}

#[test]
fn uid_with_plus_sign_is_accepted() {
    assert_eq!(parse_uid(b"+5"), Some(5));
    assert_eq!(parse_uid(b"+"), None);
    assert_eq!(parse_uid(b"++5"), None);
    assert_eq!(parse_uid(b"5+"), None);
    let d = read_passwd_nmap(b"alice:x:+42:0\n");
    assert_eq!(d.lookup_name(&"alice".to_string()), Some(42));
}

#[test]
fn non_utf8_passwd_line_is_skipped() {
    let d = read_passwd_nmap(b"alice:x:1:1:\xff\xfe:/home/alice\nbob:x:2:2::/home/bob\n");
    assert_eq!(d.len(), 1);
    assert_eq!(d.lookup_name(&"bob".to_string()), Some(2));
}

#[test]
fn crlf_passwd_lines_are_read() {
    let d = read_passwd_nmap(b"alice:x:1\r\nbob:x:2:2\r\n");
    assert_eq!(d.len(), 2);
    assert_eq!(d.lookup_name(&"alice".to_string()), Some(1));
    assert_eq!(d.lookup_name(&"bob".to_string()), Some(2));
}
