use boros_config::{Choice, ConfItem};

fn s(x: &str) -> String {
    x.to_string()
}

fn hex(val: &str, maxlen: usize, lsb: bool) -> ConfItem {
    ConfItem::Hex { id: s("pipe"), caption: s("Pipe"), val: s(val), maxlen, lsb }
}

fn hex_val(item: &ConfItem) -> String {
    match item {
        ConfItem::Hex { val, .. } => val.clone(),
        _ => panic!("not a hex item"),
    }
}

fn rate() -> ConfItem {
    ConfItem::Choice {
        id: s("rate"),
        caption: s("Data rate"),
        val: 1,
        values: vec![
            Choice { val: 10, desc: s("250Kbps") },
            Choice { val: 20, desc: s("1Mbps") },
            Choice { val: 30, desc: s("2Mbps") },
        ],
        default_index: 2,
    }
}

fn choice_val(item: &ConfItem) -> usize {
    match item {
        ConfItem::Choice { val, .. } => *val,
        _ => panic!("not a choice item"),
    }
}

#[test]
fn invert_reverses_byte_groups() {
    assert_eq!(ConfItem::invert("AABBCCDDEE"), "EEDDCCBBAA");
    assert_eq!(ConfItem::invert("0a1B2c"), "2c1B0a");
    assert_eq!(ConfItem::invert(""), "");
}

#[test]
fn invert_twice_gives_hex_back() {
    for t in ["AB", "0123456789abcdef", "A1B2C3", "ffEE00"] {
        assert_eq!(ConfItem::invert(&ConfItem::invert(t)), t);
    }
}

#[test]
fn invert_keeps_group_boundaries() {
    // groups are pairs, not single characters
    assert_eq!(ConfItem::invert("123456"), "563412");
    // a character that starts no pair of hex digits is skipped
    assert_eq!(ConfItem::invert("AxBCD"), "BC");
    assert_eq!(ConfItem::invert("ABC"), "AB");
}

#[test]
fn is_hex_rules() {
    assert!(ConfItem::is_hex("AABBcc"));
    assert!(!ConfItem::is_hex(""));
    assert!(!ConfItem::is_hex("ABC"));
    assert!(!ConfItem::is_hex("GG"));
}

#[test]
fn hex_validation() {
    assert!(hex("AABBCCDDEE", 5, true).validate().0);
    assert!(!hex("AABBCCDDEEFF", 5, true).validate().0);
    assert!(!hex("", 5, true).validate().0);
    assert!(!hex("AAB", 5, true).validate().0);
    assert_eq!(hex("zz", 5, true).validate().1, "Pipe");
}

#[test]
fn hex_lsb_decodes_reversed() {
    let mut item = hex("00", 5, true);
    item.from_device("AABBCCDDEE");
    assert_eq!(hex_val(&item), "EEDDCCBBAA");
}

#[test]
fn hex_plain_decodes_verbatim() {
    let mut item = hex("00", 5, false);
    item.from_device("AABBCCDDEE");
    assert_eq!(hex_val(&item), "AABBCCDDEE");
}

#[test]
fn hex_encode() {
    assert_eq!(hex("AABBCCDDEE", 5, true).to_device(), "pipe EEDDCCBBAA");
    assert_eq!(hex("AABBCCDDEE", 5, false).to_device(), "pipe AABBCCDDEE");
}

#[test]
fn int_encode_decode() {
    let item = ConfItem::Int { id: s("cha"), caption: s("Channel"), val: 76, vmax: 126, vmin: 1 };
    assert_eq!(item.to_device(), "cha 76");
    let neg = ConfItem::Int { id: s("off"), caption: s("Offset"), val: -42, vmax: 100, vmin: -100 };
    assert_eq!(neg.to_device(), "off -42");
}

#[test]
fn int_round_trip() {
    for v in [-100, -1, 0, 7, 100, i32::MIN, i32::MAX] {
        let sent = ConfItem::Int { id: s("n"), caption: s("N"), val: v, vmax: 100, vmin: -100 };
        let wire = sent.to_device();
        let value = &wire[2..];
        let mut back = ConfItem::Int { id: s("n"), caption: s("N"), val: 3, vmax: 100, vmin: -100 };
        back.from_device(value);
        match back {
            ConfItem::Int { val, .. } => assert_eq!(val, v),
            _ => panic!("kind changed"),
        }
    }
}

#[test]
fn int_decode_failure_keeps_value() {
    let mut item = ConfItem::Int { id: s("n"), caption: s("N"), val: 15, vmax: 100, vmin: 0 };
    item.from_device("abc");
    assert!(matches!(item, ConfItem::Int { val: 15, .. }));
    item.from_device("+21");
    assert!(matches!(item, ConfItem::Int { val: 21, .. }));
    item.from_device("99999999999");
    assert!(matches!(item, ConfItem::Int { val: 21, .. }));
}

#[test]
fn choice_encodes_underlying_value() {
    assert_eq!(rate().to_device(), "rate 20");
}

#[test]
fn choice_decode_matches_value() {
    let mut item = rate();
    item.from_device("10");
    assert_eq!(choice_val(&item), 0);
    item.from_device("30");
    assert_eq!(choice_val(&item), 2);
}

#[test]
fn choice_decode_unknown_falls_back_to_default() {
    let mut item = rate();
    item.from_device("1");
    assert_eq!(choice_val(&item), 2);
    let mut item = rate();
    item.from_device("junk");
    assert_eq!(choice_val(&item), 2);
}

#[test]
fn choice_validation() {
    let mut item = rate();
    assert!(item.validate().0);
    if let ConfItem::Choice { val, .. } = &mut item {
        *val = 3;
    }
    assert!(!item.validate().0);
}

#[test]
fn check_encode_decode() {
    let mut item = ConfItem::Check { id: s("led"), caption: s("Enable led"), val: false };
    assert_eq!(item.to_device(), "led 0");
    item.from_device("1");
    assert_eq!(item.to_device(), "led 1");
    item.from_device("yes");
    assert!(matches!(item, ConfItem::Check { val: false, .. }));
}

#[test]
fn text_rules() {
    let mut item = ConfItem::Text { id: s("tpl"), caption: s("Template"), val: s("%Id"), maxlen: 5 };
    assert!(item.validate().0);
    assert_eq!(item.to_device(), "tpl %Id");
    item.from_device("%Id,%Td");
    assert!(!item.validate().0);
    item.from_device("ñññññ");
    assert!(item.validate().0);
}

#[test]
fn is_matches_id() {
    let item = rate();
    assert!(item.is("rate"));
    assert!(!item.is("rat"));
    assert_eq!(item.id(), "rate");
    assert_eq!(item.caption(), "Data rate");
}

#[test]
fn choice_decode_non_integer_falls_back_to_default() {
    let mut item = ConfItem::Choice {
        id: s("crc"),
        caption: s("CRC"),
        val: 0,
        values: vec![
            Choice { val: 0, desc: s("Disabled") },
            Choice { val: 1, desc: s("8bit") },
            Choice { val: 2, desc: s("16bit") },
        ],
        default_index: 2,
    };
    item.from_device("off");
    assert_eq!(choice_val(&item), 2);
    item.from_device("0");
    assert_eq!(choice_val(&item), 0);
}
