use boros_config::{Choice, ConfItem, Device, DeviceError, Root, Section, Signature, WriteStep};

fn s(x: &str) -> String {
    x.to_string()
}

fn device(product: &str, model: &str, version: &str, sections: Vec<Section>) -> Device {
    Device { signature: Signature::new(product, model, version), title: s("Device"), sections }
}

fn general() -> Section {
    Section {
        name: s("General settings"),
        help: s("General behaviour"),
        items: vec![
            ConfItem::Int { id: s("id"), caption: s("Device ID"), val: 1, vmax: 65536, vmin: 0 },
            ConfItem::Check { id: s("led"), caption: s("Enable led"), val: false },
            ConfItem::Text { id: s("tpl"), caption: s("Payload template"), val: s("%Id"), maxlen: 10 },
        ],
    }
}

fn radio() -> Section {
    Section {
        name: s("Radio configuration"),
        help: s("Radio"),
        items: vec![
            ConfItem::Choice {
                id: s("txp"),
                caption: s("Tx power"),
                val: 1,
                values: vec![Choice { val: 0, desc: s("Min") }, Choice { val: 1, desc: s("Low") }],
                default_index: 1,
            },
            ConfItem::Hex { id: s("pipe"), caption: s("Notification pipe"), val: s("AABBCCDDEE"), maxlen: 5, lsb: true },
            ConfItem::Int { id: s("id"), caption: s("Shadow ID"), val: 9, vmax: 10, vmin: 0 },
        ],
    }
}

fn lines(v: &[&str]) -> Vec<String> {
    v.iter().map(|x| x.to_string()).collect()
}

#[test]
fn signature_lookup_example() {
    let root = Root { spec: vec![device("BM", "24M", "4", vec![])] };
    assert_eq!(root.check_signature(&Signature::new("BM", "24M", "4")), Some(0));
    assert_eq!(root.check_signature(&Signature::new("BM", "24M", "3")), None);
}

#[test]
fn signature_lookup_first_match() {
    let root = Root {
        spec: vec![
            device("BM", "24M", "3", vec![]),
            device("BM", "24M", "4", vec![]),
            device("BM", "24M", "4", vec![]),
        ],
    };
    assert_eq!(root.check_signature(&Signature::new("BM", "24M", "4")), Some(1));
}

#[test]
fn identify_device() {
    let root = Root { spec: vec![device("BM", "24M", "4", vec![])] };
    assert_eq!(root.identify(true, &lines(&["Boros [BM<24M>V4] ok", "[OK]"])), Ok(0));
    assert_eq!(root.identify(true, &lines(&["Boros [BM<24M>V3] ok", "[OK]"])), Err(DeviceError::UnknownDevice));
    assert_eq!(root.identify(true, &lines(&["garbage"])), Err(DeviceError::ProtocolError));
    assert_eq!(root.identify(false, &lines(&["Boros [BM<24M>V4] ok"])), Err(DeviceError::ProtocolError));
}

#[test]
fn find_first_in_section_order() {
    let d = device("BM", "24M", "4", vec![general(), radio()]);
    assert_eq!(d.find("id"), Some((0, 0)));
    assert_eq!(d.find("pipe"), Some((1, 1)));
    assert_eq!(d.find("nope"), None);
    assert_eq!(general().find("tpl"), Some(2));
}

#[test]
fn read_config_dispatches_by_id() {
    let mut d = device("BM", "24M", "4", vec![general(), radio()]);
    d.read_config(true, &lines(&["[id] Device ID:42", "[pipe] Pipe:0102030405", "[zz] Unknown:1", "noise", "[txp] Tx:0", "[OK]"]));
    assert!(matches!(d.sections[0].items[0], ConfItem::Int { val: 42, .. }));
    assert!(matches!(d.sections[1].items[2], ConfItem::Int { val: 9, .. }));
    assert!(matches!(d.sections[1].items[0], ConfItem::Choice { val: 0, .. }));
    match &d.sections[1].items[1] {
        ConfItem::Hex { val, .. } => assert_eq!(val, "0504030201"),
        _ => panic!("kind changed"),
    }
}

#[test]
fn read_config_ignores_failed_reply() {
    let mut d = device("BM", "24M", "4", vec![general()]);
    d.read_config(false, &lines(&["[id] Device ID:42"]));
    assert!(matches!(d.sections[0].items[0], ConfItem::Int { val: 1, .. }));
}

#[test]
fn apply_value_reports_position() {
    let mut d = device("BM", "24M", "4", vec![general(), radio()]);
    assert_eq!(d.apply_value("led", "1"), Some((0, 1)));
    assert!(matches!(d.sections[0].items[1], ConfItem::Check { val: true, .. }));
    assert_eq!(d.apply_value("none", "1"), None);
}

#[test]
fn save_config_writes_all_valid_items() {
    let d = device("BM", "24M", "4", vec![general(), radio()]);
    let plan = d.save_config();
    assert!(plan.invalid.is_none());
    let cmds: Vec<String> = plan.commands.iter().map(|c| c.command.clone()).collect();
    assert_eq!(cmds, vec!["id 1", "led 0", "tpl %Id", "txp 1", "pipe EEDDCCBBAA", "id 9"]);
    assert_eq!(plan.commands[4].caption, "Notification pipe");
    assert_eq!(plan.commands[4].section, "Radio configuration");
}

#[test]
fn save_config_stops_at_first_invalid_item() {
    let sec = Section {
        name: s("Plain mode"),
        help: s(""),
        items: vec![
            ConfItem::Int { id: s("psz"), caption: s("Pipe address size"), val: 5, vmax: 5, vmin: 3 },
            ConfItem::Hex { id: s("pipe"), caption: s("Notification pipe"), val: s("XYZ"), maxlen: 5, lsb: true },
            ConfItem::Check { id: s("ack"), caption: s("Enable Ack"), val: true },
        ],
    };
    let d = device("BM", "24M", "4", vec![sec]);
    let plan = d.save_config();
    assert_eq!(plan.commands.len(), 1);
    assert_eq!(plan.commands[0].command, "psz 5");
    let bad = plan.invalid.expect("an invalid field");
    assert_eq!(bad.caption, "Notification pipe");
    assert_eq!(bad.section, "Plain mode");
}

#[test]
fn save_config_invalid_in_later_section() {
    let mut second = radio();
    second.items[0] = ConfItem::Choice { id: s("txp"), caption: s("Tx power"), val: 7, values: vec![], default_index: 0 };
    let d = device("BM", "24M", "4", vec![general(), second]);
    let plan = d.save_config();
    assert_eq!(plan.commands.len(), 3);
    let bad = plan.invalid.unwrap();
    assert_eq!(bad.caption, "Tx power");
    assert_eq!(bad.section, "Radio configuration");
}

fn three_items_second_invalid() -> Device {
    let sec = Section {
        name: s("Plain mode"),
        help: s(""),
        items: vec![
            ConfItem::Int { id: s("psz"), caption: s("Pipe address size"), val: 5, vmax: 5, vmin: 3 },
            ConfItem::Text { id: s("tpl"), caption: s("Template"), val: s("far too long"), maxlen: 3 },
            ConfItem::Check { id: s("ack"), caption: s("Enable Ack"), val: true },
        ],
    };
    device("BM", "24M", "4", vec![sec])
}

#[test]
fn write_steps_stop_at_invalid_item() {
    let plan = three_items_second_invalid().save_config();
    assert!(matches!(plan.step(0, true), WriteStep::Send(0)));
    assert_eq!(plan.commands[0].command, "psz 5");
    match plan.step(1, true) {
        WriteStep::Invalid(f) => {
            assert_eq!(f.caption, "Template");
            assert_eq!(f.section, "Plain mode");
        }
        _ => panic!("expected the invalid field"),
    }
}

#[test]
fn write_steps_stop_at_failed_send() {
    let plan = device("BM", "24M", "4", vec![general()]).save_config();
    assert!(matches!(plan.step(0, false), WriteStep::Send(0)));
    assert!(matches!(plan.step(1, true), WriteStep::Send(1)));
    match plan.step(2, false) {
        WriteStep::SendFailed(f) => {
            assert_eq!(f.caption, "Enable led");
            assert_eq!(f.section, "General settings");
        }
        _ => panic!("expected the failed field"),
    }
    assert!(matches!(plan.step(3, true), WriteStep::Done));
}
