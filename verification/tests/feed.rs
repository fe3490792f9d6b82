use feedcore::auth::init;
use feedcore::store::{decode_record, read_be_i64, DecodeError, Entry, Record, UserCtlRaw};
use std::collections::HashMap;

fn value(timestamp: i64, title: &str) -> Vec<u8> {
    format!("{{\"timestamp\": \"{}\", \"title\": \"{}\"}}", timestamp, title).into_bytes()
}

fn entry(timestamp: i64, title: &str) -> Entry {
    Entry { timestamp, value: value(timestamp, title) }
}

fn fields(pairs: &[(&str, &str)]) -> HashMap<String, String> {
    let mut m = HashMap::new();
    for (k, v) in pairs {
        m.insert(k.to_string(), v.to_string());
    }
    m
}

fn three() -> UserCtlRaw {
    let entries = vec![entry(300, "third"), entry(200, "second"), entry(100, "first")];
    UserCtlRaw::new(init("unused"), entries).expect("entries come newest first")
}

fn titles(recs: &[Record]) -> Vec<String> {
    let mut out = Vec::new();
    for r in recs {
        out.push(r.fields["title"].clone());
    }
    out
}

fn stamps(recs: &[Record]) -> Vec<i64> {
    let mut out = Vec::new();
    for r in recs {
        out.push(r.timestamp);
    }
    out
}

#[test]
fn first_page_is_the_two_newest() {
    let recs = three().read_latest(0, 2).unwrap();
    assert_eq!(stamps(&recs), vec![300, 200]);
    assert_eq!(titles(&recs), vec!["third".to_string(), "second".to_string()]);
}

#[test]
fn page_after_one_skipped() {
    let recs = three().read_latest(1, 2).unwrap();
    assert_eq!(stamps(&recs), vec![200, 100]);
    assert_eq!(titles(&recs), vec!["second".to_string(), "first".to_string()]);
}

#[test]
fn page_end_is_left_out() {
    let ctl = three();
    assert_eq!(stamps(&ctl.read_latest(0, 1).unwrap()), vec![300]);
    assert_eq!(stamps(&ctl.read_latest(1, 1).unwrap()), vec![200]);
    assert_eq!(stamps(&ctl.read_latest(2, 1).unwrap()), vec![100]);
    assert_eq!(stamps(&ctl.read_latest(0, 3).unwrap()), vec![300, 200, 100]);
}

#[test]
fn page_is_cut_at_the_end_of_the_store() {
    let ctl = three();
    assert_eq!(stamps(&ctl.read_latest(2, 5).unwrap()), vec![100]);
    assert_eq!(stamps(&ctl.read_latest(0, 10).unwrap()), vec![300, 200, 100]);
    assert_eq!(stamps(&ctl.read_latest(0, usize::MAX).unwrap()), vec![300, 200, 100]);
    assert_eq!(stamps(&ctl.read_latest(1, usize::MAX).unwrap()), vec![200, 100]);
}

#[test]
fn count_of_zero_is_an_empty_page() {
    let ctl = three();
    assert!(ctl.read_latest(0, 0).unwrap().is_empty());
    assert!(ctl.read_latest(2, 0).unwrap().is_empty());
}

#[test]
fn skip_past_the_end_is_an_empty_page() {
    let ctl = three();
    assert!(ctl.read_latest(3, 2).unwrap().is_empty());
    assert!(ctl.read_latest(4, 1).unwrap().is_empty());
    assert!(ctl.read_latest(usize::MAX, usize::MAX).unwrap().is_empty());
}

#[test]
fn empty_store_gives_empty_pages() {
    let ctl = UserCtlRaw::new(init("unused"), Vec::new()).unwrap();
    assert_eq!(ctl.len(), 0);
    assert!(ctl.read_latest(0, 10).unwrap().is_empty());
    assert!(ctl.read_latest(5, 10).unwrap().is_empty());
}

#[test]
fn pages_never_exceed_count_and_descend() {
    let ctl = three();
    for start in 0..5usize {
        for num in 0..5usize {
            let recs = ctl.read_latest(start, num).unwrap();
            assert!(recs.len() <= num);
            for i in 1..recs.len() {
                assert!(recs[i].timestamp < recs[i - 1].timestamp);
            }
        }
    }
}

#[test]
fn fields_come_back_unmodified() {
    let raw = "{\"timestamp\": \"1700000000\", \"title\": \"hello\"}";
    let entries = vec![Entry { timestamp: 1700000000, value: raw.as_bytes().to_vec() }];
    let ctl = UserCtlRaw::new(init("unused"), entries).unwrap();
    let recs = ctl.read_latest(0, 1).unwrap();
    assert_eq!(recs.len(), 1);
    assert_eq!(recs[0].timestamp, 1700000000);
    assert_eq!(recs[0].fields, fields(&[("timestamp", "1700000000"), ("title", "hello")]));
}

#[test]
fn invalid_text_fails_every_page_that_holds_it() {
    let entries = vec![
        entry(300, "third"),
        Entry { timestamp: 200, value: vec![0xff, 0xfe, 0x80] },
        entry(100, "first"),
    ];
    let ctl = UserCtlRaw::new(init("unused"), entries).unwrap();
    assert!(matches!(ctl.read_latest(0, 2), Err(DecodeError::InvalidText(_))));
    assert!(matches!(ctl.read_latest(0, 3), Err(DecodeError::InvalidText(_))));
    assert!(matches!(ctl.read_latest(1, 1), Err(DecodeError::InvalidText(_))));
    assert!(matches!(ctl.read_latest(1, 2), Err(DecodeError::InvalidText(_))));
}

#[test]
fn invalid_text_outside_the_page_does_no_harm() {
    let entries = vec![
        entry(300, "third"),
        Entry { timestamp: 200, value: vec![0xff, 0xfe, 0x80] },
        entry(100, "first"),
    ];
    let ctl = UserCtlRaw::new(init("unused"), entries).unwrap();
    assert_eq!(stamps(&ctl.read_latest(0, 1).unwrap()), vec![300]);
    assert_eq!(stamps(&ctl.read_latest(2, 5).unwrap()), vec![100]);
    assert!(ctl.read_latest(3, 5).unwrap().is_empty());
}

#[test]
fn invalid_fields_fail_the_page() {
    let entries = vec![
        entry(300, "third"),
        Entry { timestamp: 200, value: b"not a mapping".to_vec() },
    ];
    let ctl = UserCtlRaw::new(init("unused"), entries).unwrap();
    assert!(matches!(ctl.read_latest(0, 2), Err(DecodeError::InvalidFields(_))));
    assert_eq!(stamps(&ctl.read_latest(0, 1).unwrap()), vec![300]);
}

#[test]
fn first_failing_entry_decides_the_error() {
    let entries = vec![
        Entry { timestamp: 300, value: b"[1, 2]".to_vec() },
        Entry { timestamp: 200, value: vec![0xc3] },
    ];
    let ctl = UserCtlRaw::new(init("unused"), entries).unwrap();
    assert!(matches!(ctl.read_latest(0, 2), Err(DecodeError::InvalidFields(_))));
    assert!(matches!(ctl.read_latest(1, 1), Err(DecodeError::InvalidText(_))));
}

#[test]
fn values_that_are_not_string_mappings_are_refused() {
    let bad: [&[u8]; 5] = [b"", b"{\"a\": 1}", b"{\"a\": null}", b"\"text\"", b"{\"a\": \"b\"} x"];
    for raw in bad {
        let e = Entry { timestamp: 1, value: raw.to_vec() };
        assert!(matches!(decode_record(&e), Err(DecodeError::InvalidFields(_))));
    }
}

#[test]
fn decode_reads_the_fields() {
    let e = Entry { timestamp: 42, value: b"{\"k\": \"v\", \"title\": \"caf\xc3\xa9\"}".to_vec() };
    let rec = decode_record(&e).unwrap();
    assert_eq!(rec.timestamp, 42);
    assert_eq!(rec.fields, fields(&[("k", "v"), ("title", "caf\u{e9}")]));
}

#[test]
fn decode_of_an_empty_mapping() {
    let e = Entry { timestamp: -5, value: b"{}".to_vec() };
    let rec = decode_record(&e).unwrap();
    assert_eq!(rec.timestamp, -5);
    assert!(rec.fields.is_empty());
}

#[test]
fn error_message_is_that_of_the_cause() {
    let text = "{\"a\": 1}";
    let cause = serde_json::from_str::<HashMap<String, String>>(text).unwrap_err().to_string();
    let e = Entry { timestamp: 1, value: text.as_bytes().to_vec() };
    let err = decode_record(&e).unwrap_err();
    assert_eq!(err.message(), cause);

    let bytes = vec![b'a', 0xff];
    let cause = std::str::from_utf8(&bytes).unwrap_err().to_string();
    let e = Entry { timestamp: 1, value: bytes };
    let err = decode_record(&e).unwrap_err();
    assert!(matches!(err, DecodeError::InvalidText(_)));
    assert_eq!(err.message(), cause);
}

#[test]
fn record_from_parsed_fields() {
    let parsed = serde_json::from_str::<HashMap<String, String>>("{\"x\": \"y\"}");
    let rec = Record::from_parsed(9, parsed).unwrap();
    assert_eq!(rec.timestamp, 9);
    assert_eq!(rec.fields, fields(&[("x", "y")]));
}

#[test]
fn record_from_refused_text() {
    let parsed = serde_json::from_str::<HashMap<String, String>>("{");
    let cause = serde_json::from_str::<HashMap<String, String>>("{").unwrap_err().to_string();
    match Record::from_parsed(9, parsed) {
        Err(DecodeError::InvalidFields(msg)) => assert_eq!(msg, cause),
        other => panic!("expected a refusal, got {:?}", other),
    }
}

#[test]
fn entries_out_of_order_are_refused() {
    let ascending = vec![entry(100, "a"), entry(200, "b")];
    assert!(UserCtlRaw::new(init("unused"), ascending).is_none());
    let repeated = vec![entry(200, "a"), entry(200, "b")];
    assert!(UserCtlRaw::new(init("unused"), repeated).is_none());
    let late = vec![entry(300, "a"), entry(200, "b"), entry(250, "c")];
    assert!(UserCtlRaw::new(init("unused"), late).is_none());
}

#[test]
fn entries_in_order_are_kept() {
    let ctl = three();
    assert_eq!(ctl.len(), 3);
    let one = UserCtlRaw::new(init("unused"), vec![entry(i64::MIN, "only")]).unwrap();
    assert_eq!(one.len(), 1);
    let wide = vec![entry(i64::MAX, "a"), entry(0, "b"), entry(-1, "c"), entry(i64::MIN, "d")];
    let wide = UserCtlRaw::new(init("unused"), wide).unwrap();
    assert_eq!(stamps(&wide.read_latest(1, 2).unwrap()), vec![0, -1]);
}

#[test]
fn shared_state_hands_out_its_directory() {
    let ctl = three();
    let user = ctl.meta().check_password("zbr", "password").unwrap();
    assert_eq!(user.user_id, 2);
    assert!(ctl.meta().authenticate(Some(2)).is_some());
    assert!(ctl.meta().authenticate(None).is_none());
}

#[test]
fn big_endian_keys() {
    assert_eq!(read_be_i64(&[0, 0, 0, 0, 0, 0, 0, 100]), 100);
    assert_eq!(read_be_i64(&[0, 0, 0, 0, 0, 0, 1, 0]), 256);
    assert_eq!(read_be_i64(&[1, 2, 3, 4, 5, 6, 7, 8]), 0x0102030405060708);
    assert_eq!(read_be_i64(&[0; 8]), 0);
    assert_eq!(read_be_i64(&[0xff; 8]), -1);
    assert_eq!(read_be_i64(&[0x7f, 0xff, 0xff, 0xff, 0xff, 0xff, 0xff, 0xff]), i64::MAX);
    assert_eq!(read_be_i64(&[0x80, 0, 0, 0, 0, 0, 0, 0]), i64::MIN);
    assert_eq!(read_be_i64(&[0xff, 0xff, 0xff, 0xff, 0xff, 0xff, 0xff, 0x9c]), -100);
}

#[test]
fn big_endian_keys_agree_with_std() {
    let samples: [i64; 7] = [0, 1, -1, 1700000000, -1700000000, i64::MAX, i64::MIN];
    for t in samples {
        assert_eq!(read_be_i64(&t.to_be_bytes()), t);
    }
}

#[test]
fn bytes_after_the_key_are_ignored() {
    assert_eq!(read_be_i64(&[0, 0, 0, 0, 0, 0, 0, 7, 0xaa, 0xbb]), 7);
}

#[test]
fn key_order_is_time_order() {
    let a = 100i64.to_be_bytes();
    let b = 200i64.to_be_bytes();
    assert!(a < b);
    assert!(read_be_i64(&a) < read_be_i64(&b));
}
