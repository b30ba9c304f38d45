use panelmc::json::{parse_json, Json};
use panelmc::status::{
    mc_status, read_varint, reply_length_ok, status_of, status_request, text_of_reply,
    write_varint, VarintRead,
};

fn varint(n: i32) -> Vec<u8> {
    let mut out = Vec::new();
    write_varint(&mut out, n);
    out
}

#[test]
fn status_ping_reads_players_and_names() {
    let json = br#"{"players":{"online":2,"max":8,"sample":[{"name":"Ada","id":"a"},{"name":"Bea","id":"b"}]}}"#;
    let mut body = Vec::new();
    write_varint(&mut body, 0);
    write_varint(&mut body, json.len() as i32);
    body.extend_from_slice(json);
    let mut packet = Vec::new();
    write_varint(&mut packet, body.len() as i32);
    packet.extend_from_slice(&body);

    let (len, used) = match read_varint(&packet) {
        VarintRead::Value { value, used } => (value, used),
        other => panic!("{other:?}"),
    };
    assert!(reply_length_ok(len));
    assert_eq!(packet.len(), used + len as usize);
    let status = mc_status(&packet[used..]).expect("status");
    assert_eq!(status.online, 2);
    assert_eq!(status.max, 8);
    assert_eq!(status.names, "Ada, Bea");
}

#[test]
fn numbers_in_packets() {
    assert_eq!(varint(0), vec![0]);
    assert_eq!(varint(127), vec![127]);
    assert_eq!(varint(128), vec![128, 1]);
    assert_eq!(varint(25565), vec![0xdd, 0xc7, 0x01]);
    assert_eq!(varint(i32::MAX), vec![0xff, 0xff, 0xff, 0xff, 0x07]);
    for n in [0, 1, 127, 128, 300, 25565, 1_048_576, i32::MAX] {
        let mut bytes = varint(n);
        let used = bytes.len();
        bytes.extend_from_slice(&[0x80, 7]);
        assert_eq!(read_varint(&bytes), VarintRead::Value { value: n, used });
    }
    assert_eq!(
        read_varint(&[0xff, 0xff, 0xff, 0xff, 0x0f]),
        VarintRead::Value { value: -1, used: 5 }
    );
    assert_eq!(
        read_varint(&[0x80, 0x80, 0x80, 0x80, 0x08]),
        VarintRead::Value { value: i32::MIN, used: 5 }
    );
    assert_eq!(read_varint(&[]), VarintRead::Incomplete);
    assert_eq!(read_varint(&[0x80, 0x80]), VarintRead::Incomplete);
    assert_eq!(read_varint(&[0x80; 5]), VarintRead::TooLong);
    assert_eq!(read_varint(&[0x80; 9]), VarintRead::TooLong);
}

#[test]
fn the_request_for_a_status() {
    let mut want = vec![15u8, 0, 47, 9];
    want.extend_from_slice(b"localhost");
    want.extend_from_slice(&25565u16.to_be_bytes());
    want.extend_from_slice(&[1, 1, 0]);
    assert_eq!(status_request(25565), want);
}

#[test]
fn replies_that_are_none() {
    assert!(!reply_length_ok(1));
    assert!(reply_length_ok(2));
    assert!(reply_length_ok(1_048_576));
    assert!(!reply_length_ok(1_048_577));
    assert!(text_of_reply(&[]).is_none());
    assert!(text_of_reply(&[0, 1, b'{']).is_none());
    assert!(text_of_reply(&[0, 3, b'{', b'}']).is_none());
    assert_eq!(text_of_reply(&[0, 2, b'{', b'}', 9]), Some(&b"{}"[..]));
    assert!(text_of_reply(&[0x80, 0x80]).is_none());
    assert!(mc_status(&[0, 2, b'{', b'}']).is_none());
    assert!(mc_status(&[0, 2, b'x', b'}']).is_none());
}

fn status(json: &str) -> Option<(i32, i32, String)> {
    let j = parse_json(json.as_bytes()).expect("json");
    status_of(&j).map(|s| (s.online, s.max, s.names))
}

#[test]
fn what_a_status_says() {
    assert_eq!(status(r#"{"players":{"online":1,"max":20}}"#), Some((1, 20, String::new())));
    assert_eq!(status(r#"{"players":{"online":"1","max":20}}"#), None);
    assert_eq!(status(r#"{"players":{"online":1}}"#), None);
    assert_eq!(status(r#"{"player":{}}"#), None);
    assert_eq!(
        status(r#"{"players":{"online":4294967297,"max":-1,"sample":{}}}"#),
        Some((1, -1, String::new()))
    );
    let names: Vec<String> = (0..10).map(|i| format!("{{\"name\":\"p{i}\"}}")).collect();
    let many = format!(
        "{{\"players\":{{\"online\":10,\"max\":20,\"sample\":[{{}},7,{}]}}}}",
        names.join(",")
    );
    assert_eq!(status(&many).expect("status").2, "p0, p1, p2, p3, p4, p5, p6, p7");
}

#[test]
fn values_are_read_as_the_parser_reads_them() {
    let text = r#"{"a":"x","n":5,"m":-5,"f":1.5,"t":true,"l":[1,"two",null],"o":{"k":"v"},"z":null}"#;
    let ours = parse_json(text.as_bytes()).expect("json");
    let theirs: serde_json::Value = serde_json::from_str(text).unwrap();
    for key in ["a", "n", "m", "f", "t", "l", "o", "z", "missing"] {
        let a = ours.get(key);
        let b = theirs.get(key);
        assert_eq!(a.is_some(), b.is_some(), "{key}");
        if let (Some(a), Some(b)) = (a, b) {
            assert_eq!(a.as_str().map(|s| s.as_str()), b.as_str(), "{key}");
            assert_eq!(a.as_u64(), b.as_u64(), "{key}");
            assert_eq!(a.as_i64(), b.as_i64(), "{key}");
            assert_eq!(a.as_bool(), b.as_bool(), "{key}");
            assert_eq!(a.as_array().map(|v| v.len()), b.as_array().map(|v| v.len()), "{key}");
        }
    }
    assert_eq!(ours.text("a"), Some("x".to_string()));
    assert_eq!(ours.text("n"), None);
    assert_eq!(ours.text_or_empty("n"), "");
    assert_eq!(ours.number("n"), Some(5));
    assert_eq!(ours.items("l").expect("list")[1].as_str().expect("text"), "two");
    assert!(parse_json(b"{").is_none());
    assert!(parse_json(b"\"\xff\"").is_none());
    match ours.get("f").expect("number") {
        Json::Number { text, signed, unsigned } => {
            assert_eq!(text, "1.5");
            assert_eq!((*signed, *unsigned), (None, None));
        }
        _ => panic!("no number"),
    }
}

#[test]
fn a_field_that_was_set_is_read_back() {
    let j = parse_json(br#"{"a":1,"b":"old"}"#).expect("json");
    let j = j.with("b", Json::Str("new".into())).with("c", Json::Bool(true));
    assert_eq!(j.text("b"), Some("new".to_string()));
    assert_eq!(j.number("a"), Some(1));
    assert_eq!(j.get("c").and_then(|v| v.as_bool()), Some(true));
    let j = Json::Null.with("k", Json::Null);
    assert!(j.get("k").is_some());
    assert!(j.get("other").is_none());
}
