use boros_config::{parse_config, parse_signature, BorosSerial, DeviceError, Signature};

fn ready() -> BorosSerial {
    let mut ch = BorosSerial::new();
    ch.connect();
    for b in b"boot\r\n>" {
        ch.wait_prompt(*b);
    }
    assert!(ch.is_ready());
    ch
}

fn lines(v: &[&str]) -> Vec<String> {
    v.iter().map(|x| x.to_string()).collect()
}

#[test]
fn command_without_prompt_is_refused() {
    let mut ch = BorosSerial::new();
    assert_eq!(ch.do_cmd("show"), Err(DeviceError::NotConnected));
    assert!(!ch.is_ready());
}

#[test]
fn boot_without_prompt_is_not_ready() {
    let mut ch = BorosSerial::new();
    ch.connect();
    for b in b"booting...\r\n" {
        assert!(!ch.wait_prompt(*b));
    }
    assert!(!ch.is_ready());
    assert_eq!(ch.do_cmd("ver"), Err(DeviceError::NotConnected));
}

#[test]
fn boot_prompt_needs_newline_before_it() {
    let mut ch = BorosSerial::new();
    ch.connect();
    assert!(!ch.wait_prompt(b'>'));
    assert!(!ch.wait_prompt(b'\n'));
    assert!(ch.wait_prompt(b'>'));
}

#[test]
fn command_text_has_newline() {
    let mut ch = ready();
    assert_eq!(ch.do_cmd("show"), Ok("show\n".to_string()));
    assert!(!ch.is_ready());
    assert_eq!(ch.do_cmd("show"), Err(DeviceError::NotConnected));
}

#[test]
fn show_response_example() {
    let mut ch = ready();
    ch.do_cmd("show").unwrap();
    let (ok, got) = ch.take_response("show", "show\r\n[id] Device ID:42\r\n[OK]\r\n\n>");
    assert!(ok);
    assert_eq!(got, lines(&["[id] Device ID:42", "[OK]"]));
    assert!(ch.is_ready());
}

#[test]
fn response_strips_one_echo_and_one_prompt() {
    let mut ch = ready();
    ch.do_cmd("x").unwrap();
    let (ok, got) = ch.take_response("x", "x\nx\n>\n  >  \n");
    assert!(!ok);
    assert_eq!(got, lines(&["x", ">"]));
    assert!(ch.is_ready());
}

#[test]
fn response_without_prompt_leaves_channel_closed() {
    let mut ch = ready();
    ch.do_cmd("fac").unwrap();
    let (ok, got) = ch.take_response("fac", "fac\r\n[OK]\r\n");
    assert!(ok);
    assert_eq!(got, lines(&["[OK]"]));
    assert!(!ch.is_ready());
}

#[test]
fn failed_response() {
    let mut ch = ready();
    ch.do_cmd("tpl abc").unwrap();
    let (ok, got) = ch.take_response("tpl abc", "tpl abc\n[ERR] bad value\n>");
    assert!(!ok);
    assert_eq!(got, lines(&["[ERR] bad value"]));
}

#[test]
fn signature_from_reply() {
    let sig = parse_signature(true, &lines(&["Boros [BM<24M>V4] ready", "[OK]"])).unwrap();
    assert_eq!(sig, Signature::new("BM", "24M", "4"));
    assert_eq!(sig.product, "BM");
    assert_eq!(sig.model, "24M");
    assert_eq!(sig.version, 4);
}

#[test]
fn signature_version_not_numeric_reads_as_one() {
    // an Arabic-Indic digit matches the pattern but is no i32
    let sig = parse_signature(true, &lines(&["x[BM<24M>V\u{664}]y"])).unwrap();
    assert_eq!(sig.version, 1);
    assert_eq!(Signature::new("BM", "24M", "zz").version, 1);
}

#[test]
fn signature_errors() {
    let good = lines(&["Boros [BM<24M>V4] ready"]);
    assert_eq!(parse_signature(false, &good), Err(DeviceError::ProtocolError));
    assert_eq!(parse_signature(true, &lines(&[])), Err(DeviceError::ProtocolError));
    assert_eq!(parse_signature(true, &lines(&["no signature here"])), Err(DeviceError::ProtocolError));
}

#[test]
fn signature_equality_uses_all_fields() {
    let a = Signature::new("BM", "24M", "4");
    assert!(a == Signature::new("BM", "24M", "4"));
    assert!(a != Signature::new("BM", "24M", "3"));
    assert!(a != Signature::new("BX", "24M", "4"));
    assert!(a != Signature::new("BM", "25M", "4"));
}

#[test]
fn config_lines_parsed() {
    let got = parse_config(true, &lines(&["[id] Device ID:42", "noise", "[tpl] Template:%Id,%Td", "[OK]"]));
    assert_eq!(
        got,
        vec![("id".to_string(), "42".to_string()), ("tpl".to_string(), "%Id,%Td".to_string())]
    );
    assert!(parse_config(false, &lines(&["[id] Device ID:42"])).is_empty());
}

#[test]
fn boot_prompt_after_empty_line() {
    let mut ch = BorosSerial::new();
    ch.connect();
    let mut seen = false;
    for b in b"boot\r\n\n>" {
        seen = ch.wait_prompt(*b);
    }
    assert!(seen);
    assert!(ch.is_ready());
    let mut ch = BorosSerial::new();
    ch.connect();
    assert!(!ch.wait_prompt(b'\n'));
    assert!(!ch.wait_prompt(b'\n'));
    assert!(ch.wait_prompt(b'>'));
}
