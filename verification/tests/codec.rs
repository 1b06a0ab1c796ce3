use recall::bytes::{bytes_eq, contains_sub, last_segment};
use recall::codec::parse_u64;
use recall::encoding::{percent_decode, percent_encode};
use recall::geometric_mean;
use recall::list::ThingList;
use recall::thing::Thing;
use recall::time::Time;

fn item(name: &[u8], link: Option<&[u8]>) -> Thing {
    Thing {
        name: name.to_vec(),
        link: link.map(|l| l.to_vec()),
        created: Time(3),
        first_chosen: Time(4),
        chosen: Time(5),
        next: Time(6),
        count: 2,
        parent_code: b"code".to_vec(),
        parent_name: b"list".to_vec(),
    }
}

fn list(things: Vec<Thing>) -> ThingList {
    ThingList { code: b"code".to_vec(), name: b"list".to_vec(), things }
}

#[test]
fn load_missing_file_is_empty() {
    let l = ThingList::load(b"c", b"n", None);
    assert_eq!(l.code, b"c".to_vec());
    assert_eq!(l.name, b"n".to_vec());
    assert!(l.things.is_empty());
}

#[test]
fn save_then_load_round_trips() {
    let l = list(vec![
        item(b"plain", None),
        item(b"with link", Some(b"http://example/x?q=1")),
        item(b"odd %/\n\r bytes", Some(b"")),
    ]);
    let bytes = l.save();
    let r = ThingList::load(b"code", b"list", Some(bytes.as_slice()));
    assert_eq!(r.things.len(), 3);
    for (a, b) in l.things.iter().zip(r.things.iter()) {
        assert!(a == b);
    }
}

#[test]
fn empty_list_round_trips() {
    let l = list(vec![]);
    let bytes = l.save();
    assert!(bytes.is_empty());
    let r = ThingList::load(b"code", b"list", Some(bytes.as_slice()));
    assert!(r.things.is_empty());
}

#[test]
fn stored_format_is_stable() {
    let mut t = item(b"a", Some(b"u"));
    t.created = Time(1);
    t.first_chosen = Time(2);
    t.chosen = Time(3);
    t.next = Time(10);
    t.count = 7;
    let l = list(vec![t]);
    let expected = b"- name: a\n  link: u\n  created: 1\n  first_chosen: 2\n  chosen: 3\n  next: 10\n  count: 7\n  parent_code: code\n  parent_name: list\n";
    assert_eq!(l.save(), expected.to_vec());
}

#[test]
fn load_drops_empty_names_and_duplicates() {
    let keep = item(b"keep", None);
    let empty_named = item(b"", None);
    let dup = item(b"keep", None);
    let other = item(b"other", None);
    let l = list(vec![keep, empty_named, dup, other]);
    let bytes = l.save();
    let r = ThingList::load(b"code", b"list", Some(bytes.as_slice()));
    // the empty name and the exact duplicate are both gone
    assert_eq!(r.things.len(), 2);
    assert_eq!(r.things[0].name, b"keep".to_vec());
    assert_eq!(r.things[1].name, b"other".to_vec());
}

#[test]
fn load_keeps_same_name_different_fields() {
    let a = item(b"twin", None);
    let mut b = item(b"twin", None);
    b.count = 9;
    let l = list(vec![a, b]);
    let bytes = l.save();
    let r = ThingList::load(b"code", b"list", Some(bytes.as_slice()));
    // duplicate removal is by full structural equality, not by name
    assert_eq!(r.things.len(), 2);
}

#[test]
fn malformed_bytes_load_empty() {
    for bad in [
        &b"garbage"[..],
        &b"- name: x"[..],                       // no line break
        &b"- name: x\n  created: zap\n"[..],     // non-numeric field
        &b"  chosen: 3\n"[..],                   // record must start with its name
    ] {
        let r = ThingList::load(b"c", b"n", Some(bad));
        assert!(r.things.is_empty());
    }
}

#[test]
fn storage_path_joins_code_and_name() {
    let l = list(vec![]);
    assert_eq!(l.storage_path(), b"data/code/list".to_vec());
}

#[test]
fn geometric_mean_exact_values() {
    let t = |v: u64| Time(v);
    assert_eq!(geometric_mean(&[]).0, 1);
    assert_eq!(geometric_mean(&[t(8)]).0, 8);
    assert_eq!(geometric_mean(&[t(4), t(9)]).0, 6);
    assert_eq!(geometric_mean(&[t(2), t(3)]).0, 2);
    assert_eq!(geometric_mean(&[t(2), t(4), t(8)]).0, 4);
    assert_eq!(geometric_mean(&[t(5), t(1), t(3)]).0, 2);
    assert_eq!(geometric_mean(&[t(3), t(3), t(3)]).0, 3);
    assert_eq!(geometric_mean(&[t(7), t(0), t(9)]).0, 0);
    assert_eq!(geometric_mean(&[t(u64::MAX), t(1)]).0, 4294967295);
}

#[test]
fn percent_round_trip() {
    let raw = b"a%b\nc\rd e";
    let enc = percent_encode(raw);
    assert_eq!(enc, b"a%25b%0Ac%0Dd e".to_vec());
    assert_eq!(percent_decode(enc.as_slice()), raw.to_vec());
}

#[test]
fn percent_decode_handles_path_segments() {
    assert_eq!(percent_decode(b"a%41b"), b"aAb".to_vec());
    assert_eq!(percent_decode(b"a%2fb"), b"a/b".to_vec());
    // a malformed escape passes through unchanged
    assert_eq!(percent_decode(b"a%zzb"), b"a%zzb".to_vec());
    assert_eq!(percent_decode(b"tail%4"), b"tail%4".to_vec());
}

#[test]
fn parse_u64_accepts_digits_only() {
    assert_eq!(parse_u64(b"0"), Some(0));
    assert_eq!(parse_u64(b"007"), Some(7));
    assert_eq!(parse_u64(b"18446744073709551615"), Some(u64::MAX));
    assert_eq!(parse_u64(b"18446744073709551616"), None);
    assert_eq!(parse_u64(b""), None);
    assert_eq!(parse_u64(b"12a"), None);
    assert_eq!(parse_u64(b"-1"), None);
}

#[test]
fn byte_helpers() {
    assert!(bytes_eq(b"abc", b"abc"));
    assert!(!bytes_eq(b"abc", b"abd"));
    assert!(!bytes_eq(b"abc", b"ab"));
    assert!(contains_sub(b"hello world", b"lo w"));
    assert!(!contains_sub(b"hello", b"world"));
    assert!(contains_sub(b"x", b""));
    assert_eq!(last_segment(b"data/code/list"), b"list".to_vec());
    assert_eq!(last_segment(b"nodirs"), b"nodirs".to_vec());
    assert_eq!(last_segment(b"trailing/"), b"".to_vec());
}
