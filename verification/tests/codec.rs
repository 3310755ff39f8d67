use kbdi::codec::{Error, InputList, InputListItem};
use kbdi::hexnum::{dec_string, hex_string};

#[test]
fn parse_valid_lowercase() {
    let it = InputListItem::parse("0c09:00000409").unwrap();
    assert_eq!(it.lang_id, 0x0c09);
    assert_eq!(it.tip_id, 0x00000409);
}

#[test]
fn parse_valid_uppercase() {
    let it = InputListItem::parse("0C09:A000040F").unwrap();
    assert_eq!(it.lang_id, 0x0c09);
    assert_eq!(it.tip_id, 0xa000040f);
}

#[test]
fn round_trip_lowercase_descriptors() {
    for s in ["0c09:00000409", "2000:a0010402", "0000:00000000", "ffff:ffffffff"] {
        let it = InputListItem::parse(s).unwrap();
        assert_eq!(it.format().as_str(), s);
    }
}

#[test]
fn format_normalizes_case() {
    let it = InputListItem::parse("0C09:A000040F").unwrap();
    assert_eq!(it.format().as_str(), "0c09:a000040f");
}

#[test]
fn format_pads_fixed_width() {
    let it = InputListItem { lang_id: 0x1, tip_id: 0x2 };
    assert_eq!(it.format().as_str(), "0001:00000002");
}

#[test]
fn parse_rejects_short_fields() {
    assert_eq!(InputListItem::parse("12:34"), Err(Error::FormatError));
}

#[test]
fn parse_rejects_non_hex() {
    assert_eq!(InputListItem::parse("zzzz:00000001"), Err(Error::FormatError));
}

#[test]
fn parse_rejects_missing_delimiter() {
    assert_eq!(InputListItem::parse("0c09 00000409"), Err(Error::FormatError));
    assert_eq!(InputListItem::parse("0c0900000409"), Err(Error::FormatError));
}

#[test]
fn parse_rejects_wrong_widths() {
    assert_eq!(InputListItem::parse("c09:00000409"), Err(Error::FormatError));
    assert_eq!(InputListItem::parse("00c09:0000409"), Err(Error::FormatError));
    assert_eq!(InputListItem::parse(""), Err(Error::FormatError));
}

#[test]
fn parse_rejects_bad_tail_digit() {
    assert_eq!(InputListItem::parse("0c09:0000040g"), Err(Error::FormatError));
}

#[test]
fn list_deduplicates_keeping_first_seen_order() {
    let a = InputListItem { lang_id: 0x0c09, tip_id: 0x409 };
    let b = InputListItem { lang_id: 0x2000, tip_id: 0xa0010402 };
    let l = InputList::from_items(&vec![a, b, a, b, a]);
    assert_eq!(l.items().as_slice(), &[a, b]);
}

#[test]
fn list_from_strings_parses_and_deduplicates() {
    let strs = vec![
        "0c09:00000409".to_string(),
        "2000:a0010402".to_string(),
        "0C09:00000409".to_string(),
    ];
    let l = InputList::try_from_strings(&strs).unwrap();
    assert_eq!(l.items().len(), 2);
    assert_eq!(l.items()[0].lang_id, 0x0c09);
    assert_eq!(l.items()[1].tip_id, 0xa0010402);
}

#[test]
fn list_from_strings_rejects_malformed_entry() {
    let strs = vec!["0c09:00000409".to_string(), "bogus".to_string()];
    assert!(matches!(InputList::try_from_strings(&strs), Err(Error::FormatError)));
}

#[test]
fn wire_string_joins_with_semicolons() {
    let strs = vec!["0c09:00000409".to_string(), "2000:a0010402".to_string()];
    let l = InputList::try_from_strings(&strs).unwrap();
    assert_eq!(l.to_wire_string().as_str(), "0c09:00000409;2000:a0010402");
}

#[test]
fn wire_string_of_empty_list_is_empty() {
    let l = InputList::from_items(&vec![]);
    assert_eq!(l.to_wire_string().as_str(), "");
}

#[test]
fn hex_string_formats_fixed_width_lowercase() {
    assert_eq!(hex_string(0x1a2b, 4).as_str(), "1a2b");
    assert_eq!(hex_string(0x409, 8).as_str(), "00000409");
    assert_eq!(hex_string(0, 8).as_str(), "00000000");
    assert_eq!(hex_string(0xdeadbeef, 8).as_str(), "deadbeef");
}

#[test]
fn dec_string_formats_ordinals() {
    assert_eq!(dec_string(1).as_str(), "1");
    assert_eq!(dec_string(10).as_str(), "10");
    assert_eq!(dec_string(12).as_str(), "12");
    assert_eq!(dec_string(0).as_str(), "0");
}
