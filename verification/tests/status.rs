use onyan::decoders::{parse_port_list, parse_timestamp, PortRange, Timestamp};
use onyan::errors::{Field, ParseError, StatusError, ValidationError};
use onyan::grammar::parse_document;
use onyan::codec::serialize_document;
use onyan::model::Variant;
use onyan::parse_status_document;

fn doc(lines: &[&str]) -> Vec<u8> {
    let mut out = String::new();
    for l in lines {
        out.push_str(l);
        out.push('\n');
    }
    out.into_bytes()
}

const SIG: &str =
    "directory-signature 0123456789ABCDEF0123456789ABCDEF01234567 89ABCDEF0123456789ABCDEF0123456789ABCDEF";

fn minimal_consensus() -> Vec<&'static str> {
    vec![
        "network-status-version 3",
        "vote-status consensus",
        "valid-after 2024-01-01 00:00:00",
        "fresh-until 2024-01-01 01:00:00",
        "valid-until 2024-01-01 02:00:00",
        "voting-delay 300 300",
        "known-flags Exit Fast Guard",
        SIG,
    ]
}

#[test]
fn minimal_consensus_parses() {
    let bytes = doc(&minimal_consensus());
    let d = parse_status_document(&bytes).expect("minimal consensus must parse");
    assert_eq!(d.network_status_version, Some(3));
    assert_eq!(d.variant, Some(Variant::Consensus));
    assert!(!d.has_footer);
    assert_eq!(d.signatures.len(), 1);
    let kf = d.known_flags.as_ref().unwrap();
    assert_eq!(kf.len(), 3);
    assert_eq!(kf[0], b"Exit".to_vec());
}

#[test]
fn method_nine_without_footer_fails_validation() {
    let mut lines = minimal_consensus();
    lines.insert(2, "consensus-method 9");
    let bytes = doc(&lines);
    match parse_status_document(&bytes) {
        Err(StatusError::Validation(v)) => {
            assert_eq!(v, vec![ValidationError::MissingFooter]);
        }
        other => panic!("expected a validation failure, got {:?}", other),
    }
}

#[test]
fn method_nine_with_footer_parses() {
    let mut lines = minimal_consensus();
    lines.insert(2, "consensus-method 9");
    let at = lines.len() - 1;
    lines.insert(at, "directory-footer");
    let bytes = doc(&lines);
    let d = parse_status_document(&bytes).expect("footer satisfies method 9");
    assert!(d.has_footer);
}

#[test]
fn missing_vote_status_fails() {
    let lines: Vec<&str> = minimal_consensus()
        .into_iter()
        .filter(|l| !l.starts_with("vote-status"))
        .collect();
    let bytes = doc(&lines);
    match parse_status_document(&bytes) {
        Err(StatusError::Parse(e)) => {
            assert_eq!(e, ParseError::MissingField(Field::VoteStatus));
        }
        other => panic!("expected MissingField(vote-status), got {:?}", other),
    }
}

fn minimal_vote() -> Vec<&'static str> {
    vec![
        "network-status-version 3",
        "vote-status vote",
        "published 2024-01-01 00:00:00",
        "valid-after 2024-01-01 00:00:00",
        "fresh-until 2024-01-01 01:00:00",
        "valid-until 2024-01-01 02:00:00",
        "voting-delay 300 300",
        "known-flags Exit Fast Guard",
        SIG,
    ]
}

#[test]
fn duplicate_published_fails() {
    let mut lines = minimal_vote();
    lines.insert(3, "published 2024-01-01 00:00:01");
    let bytes = doc(&lines);
    match parse_status_document(&bytes) {
        Err(StatusError::Parse(e)) => {
            assert_eq!(e, ParseError::DuplicateField(Field::Published));
        }
        other => panic!("expected DuplicateField(published), got {:?}", other),
    }
}

#[test]
fn minimal_vote_parses() {
    let bytes = doc(&minimal_vote());
    let d = parse_status_document(&bytes).expect("minimal vote must parse");
    assert_eq!(d.variant, Some(Variant::Vote));
    assert!(d.published.is_some());
}

#[test]
fn package_order_violation_fails() {
    let mut lines = minimal_consensus();
    lines.insert(2, "consensus-method 19");
    let at = lines.len() - 1;
    lines.insert(at, "package tor 1.0 http://example.test sha256=aa");
    let at = lines.len() - 1;
    lines.insert(at, "package tor 0.9 http://example.test sha256=aa");
    let at = lines.len() - 1;
    lines.insert(at, "directory-footer");
    let bytes = doc(&lines);
    match parse_status_document(&bytes) {
        Err(StatusError::Validation(v)) => {
            assert_eq!(v, vec![ValidationError::PackageOrder]);
        }
        other => panic!("expected PackageOrder, got {:?}", other),
    }
}

#[test]
fn packages_below_method_nineteen_fail() {
    let mut lines = minimal_consensus();
    lines.insert(2, "consensus-method 9");
    let at = lines.len() - 1;
    lines.insert(at, "package tor 1.0 http://example.test sha256=aa");
    let at = lines.len() - 1;
    lines.insert(at, "directory-footer");
    let bytes = doc(&lines);
    match parse_status_document(&bytes) {
        Err(StatusError::Parse(e)) => {
            assert_eq!(e, ParseError::UnexpectedField(Field::Package));
        }
        other => panic!("expected UnexpectedField(package), got {:?}", other),
    }
}

#[test]
fn mismatched_object_delimiters_fail() {
    let bytes = doc(&["foo bar", "-----BEGIN X-----", "AAAA", "-----END Y-----"]);
    match parse_document(&bytes) {
        Err(e) => assert_eq!(e, ParseError::MalformedObject),
        Ok(_) => panic!("mismatched BEGIN/END keywords must fail"),
    }
}

#[test]
fn matched_object_delimiters_parse() {
    let bytes = doc(&["foo bar", "-----BEGIN X-----", "AAAA", "-----END X-----"]);
    let d = parse_document(&bytes).expect("well-formed object must parse");
    assert_eq!(d.items.len(), 1);
    assert_eq!(d.items[0].objects.len(), 1);
    assert_eq!(d.items[0].objects[0].keyword.bytes, b"X".to_vec());
    assert_eq!(d.items[0].objects[0].data, b"AAAA\n".to_vec());
}

#[test]
fn unterminated_object_fails() {
    let bytes = doc(&["foo bar", "-----BEGIN X-----", "AAAA"]);
    match parse_document(&bytes) {
        Err(e) => assert_eq!(e, ParseError::UnterminatedObject),
        Ok(_) => panic!("unterminated object must fail"),
    }
}

#[test]
fn reversed_port_range_is_rejected() {
    assert_eq!(parse_port_list(&b"80-22".to_vec()), None);
    assert_eq!(parse_port_list(&b"0-10".to_vec()), None);
    assert_eq!(parse_port_list(&b"1-70000".to_vec()), None);
}

#[test]
fn port_list_exact_values() {
    let ps = parse_port_list(&b"80,443-445".to_vec()).expect("valid list");
    assert_eq!(
        ps,
        vec![PortRange { low: 80, high: 80 }, PortRange { low: 443, high: 445 }]
    );
}

#[test]
fn reversed_port_range_in_document_fails() {
    let mut lines = minimal_consensus();
    lines.insert(
        7,
        "r nick AAAAAAAAAAAAAAAAAAAAAAAAAAA BBBBBBBBBBBBBBBBBBBBBBBBBBB 2024-01-01 00:00:00 1.2.3.4 9001 0",
    );
    lines.insert(8, "s Exit Fast");
    lines.insert(9, "p accept 80-22");
    let bytes = doc(&lines);
    match parse_status_document(&bytes) {
        Err(StatusError::Parse(e)) => assert_eq!(e, ParseError::InvalidPortRange),
        other => panic!("expected InvalidPortRange, got {:?}", other),
    }
}

#[test]
fn unsorted_flags_fail_validation() {
    let mut lines = minimal_consensus();
    lines.insert(
        7,
        "r nick AAAAAAAAAAAAAAAAAAAAAAAAAAA BBBBBBBBBBBBBBBBBBBBBBBBBBB 2024-01-01 00:00:00 1.2.3.4 9001 0",
    );
    lines.insert(8, "s Guard Fast");
    let bytes = doc(&lines);
    match parse_status_document(&bytes) {
        Err(StatusError::Validation(v)) => {
            assert_eq!(v, vec![ValidationError::FlagOrder]);
        }
        other => panic!("expected FlagOrder, got {:?}", other),
    }
}

#[test]
fn router_order_violation_fails() {
    let mut lines = minimal_consensus();
    lines.insert(
        7,
        "r nickb BBBBBBBBBBBBBBBBBBBBBBBBBBB BBBBBBBBBBBBBBBBBBBBBBBBBBB 2024-01-01 00:00:00 1.2.3.4 9001 0",
    );
    lines.insert(8, "s Exit Fast");
    lines.insert(
        9,
        "r nicka AAAAAAAAAAAAAAAAAAAAAAAAAAA AAAAAAAAAAAAAAAAAAAAAAAAAAA 2024-01-01 00:00:00 1.2.3.5 9001 0",
    );
    lines.insert(10, "s Exit Fast");
    let bytes = doc(&lines);
    match parse_status_document(&bytes) {
        Err(StatusError::Validation(v)) => {
            assert_eq!(v, vec![ValidationError::RouterOrder]);
        }
        other => panic!("expected RouterOrder, got {:?}", other),
    }
}

#[test]
fn missing_router_flags_fail() {
    let mut lines = minimal_consensus();
    lines.insert(
        7,
        "r nick AAAAAAAAAAAAAAAAAAAAAAAAAAA BBBBBBBBBBBBBBBBBBBBBBBBBBB 2024-01-01 00:00:00 1.2.3.4 9001 0",
    );
    let bytes = doc(&lines);
    match parse_status_document(&bytes) {
        Err(StatusError::Parse(e)) => assert_eq!(e, ParseError::MissingField(Field::RouterS)),
        other => panic!("expected MissingField(s), got {:?}", other),
    }
}

#[test]
fn round_trip_minimal_consensus() {
    let bytes = doc(&minimal_consensus());
    let d1 = parse_document(&bytes).expect("parse");
    let ser = serialize_document(&d1);
    let d2 = parse_document(&ser).expect("reparse of canonical bytes");
    let ser2 = serialize_document(&d2);
    assert_eq!(ser, ser2);
    let t1 = parse_status_document(&bytes).expect("typed parse");
    let t2 = parse_status_document(&ser).expect("typed reparse");
    assert_eq!(t1, t2);
}

#[test]
fn round_trip_with_objects() {
    let bytes = doc(&[
        "network-status-version 3",
        "vote-status consensus",
        "valid-after 2024-01-01 00:00:00",
        "fresh-until 2024-01-01 01:00:00",
        "valid-until 2024-01-01 02:00:00",
        "voting-delay 300 300",
        "known-flags Exit Fast Guard",
        SIG,
        "-----BEGIN SIGNATURE-----",
        "dGVzdA==",
        "-----END SIGNATURE-----",
    ]);
    let d1 = parse_document(&bytes).expect("parse");
    let ser = serialize_document(&d1);
    assert_eq!(ser, bytes);
    let d2 = parse_document(&ser).expect("reparse");
    assert_eq!(serialize_document(&d2), ser);
}

#[test]
fn timestamp_decoder_exact_values() {
    let t = parse_timestamp(&b"2024-02-29".to_vec(), &b"12:34:56".to_vec())
        .expect("2024 is a leap year");
    assert_eq!(
        t,
        Timestamp { year: 2024, month: 2, day: 29, hour: 12, minute: 34, second: 56 }
    );
    assert_eq!(parse_timestamp(&b"2023-02-29".to_vec(), &b"12:34:56".to_vec()), None);
    assert_eq!(parse_timestamp(&b"2024-13-01".to_vec(), &b"12:34:56".to_vec()), None);
    assert_eq!(parse_timestamp(&b"2024-01-01".to_vec(), &b"24:00:00".to_vec()), None);
}

#[test]
fn invalid_timestamp_in_document_fails() {
    let mut lines = minimal_consensus();
    lines[2] = "valid-after 2024-02-30 00:00:00";
    let bytes = doc(&lines);
    match parse_status_document(&bytes) {
        Err(StatusError::Parse(e)) => assert_eq!(e, ParseError::InvalidTimestamp),
        other => panic!("expected InvalidTimestamp, got {:?}", other),
    }
}

#[test]
fn invalid_character_reports_offset() {
    let bytes = b"foo \x01bar\n".to_vec();
    match parse_document(&bytes) {
        Err(e) => assert_eq!(e, ParseError::InvalidCharacter { offset: 4 }),
        Ok(_) => panic!("control character must fail"),
    }
}

#[test]
fn missing_final_newline_fails() {
    let bytes = b"network-status-version 3".to_vec();
    match parse_document(&bytes) {
        Err(e) => assert_eq!(e, ParseError::SyntaxError { line: 1 }),
        Ok(_) => panic!("unterminated final line must fail"),
    }
}

#[test]
fn vote_only_field_in_consensus_fails() {
    let mut lines = minimal_consensus();
    lines.insert(2, "published 2024-01-01 00:00:00");
    let bytes = doc(&lines);
    match parse_status_document(&bytes) {
        Err(StatusError::Parse(e)) => {
            assert_eq!(e, ParseError::UnexpectedField(Field::Published));
        }
        other => panic!("expected UnexpectedField(published), got {:?}", other),
    }
}

#[test]
fn unknown_keywords_are_ignored() {
    let mut lines = minimal_consensus();
    lines.insert(2, "some-future-extension with arguments");
    let bytes = doc(&lines);
    assert!(parse_status_document(&bytes).is_ok());
}

#[test]
fn unsorted_params_fail_validation() {
    let mut lines = minimal_consensus();
    lines.insert(2, "consensus-method 7");
    lines.insert(3, "params circwindow=1000 bwweightscale=10000");
    let bytes = doc(&lines);
    match parse_status_document(&bytes) {
        Err(StatusError::Validation(v)) => {
            assert_eq!(v, vec![ValidationError::ParamOrder]);
        }
        other => panic!("expected ParamOrder, got {:?}", other),
    }
}

#[test]
fn sorted_params_parse_with_values() {
    let mut lines = minimal_consensus();
    lines.insert(2, "consensus-method 7");
    lines.insert(3, "params bwweightscale=10000 circwindow=1000 x=-5");
    let bytes = doc(&lines);
    let d = parse_status_document(&bytes).expect("sorted params parse");
    let ps = d.params.as_ref().unwrap();
    assert_eq!(ps.len(), 3);
    assert_eq!(ps[0].key, b"bwweightscale".to_vec());
    assert_eq!(ps[0].value, 10000);
    assert_eq!(ps[2].value, -5);
}

#[test]
fn blank_lines_between_items_are_discarded() {
    let bytes = doc(&["foo bar", "", "baz"]);
    let d = parse_document(&bytes).expect("blank lines are permitted");
    assert_eq!(d.items.len(), 2);
}

#[test]
fn signed_range_boundary() {
    let bytes = doc(&minimal_consensus());
    let off = onyan::grammar::signed_range(&bytes).expect("signature line present");
    let prefix = b"directory-signature ";
    let pos = bytes
        .windows(prefix.len())
        .position(|w| w == prefix)
        .expect("fixture holds a signature line");
    assert_eq!(off, pos + prefix.len());
    assert_eq!(onyan::grammar::signed_range(b"foo bar\n"), None);
}
