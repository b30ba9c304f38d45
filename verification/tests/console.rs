use panelmc::console::{
    read_latest_log, saved_since, tail_lines, ChildState, ConsoleLog, LineSplitter,
};

#[test]
fn the_log_keeps_the_last_lines() {
    let mut log = ConsoleLog::new();
    for i in 0..305 {
        log.append_log(format!("satır {i}"));
    }
    assert_eq!(log.logs.len(), 300);
    assert_eq!(log.logs[0], "satır 5");
    assert_eq!(log.logs[299], "satır 304");
    let text: String = (5..305).map(|i| format!("satır {i}\n")).collect();
    assert_eq!(log.text, text);
}

#[test]
fn the_log_notes_what_is_sent_and_what_ends() {
    let mut log = ConsoleLog::new();
    log.echo("stop");
    log.append_error("bad");
    assert!(!log.reap_finished_child(ChildState::Absent));
    assert!(log.reap_finished_child(ChildState::Running));
    assert_eq!(log.text, "> stop\n[HATA-STDERR] bad\n");
    assert!(!log.reap_finished_child(ChildState::Ended));
    assert_eq!(log.logs[2], "[SİSTEM] Java süreci sonlandı.");
}

fn split(chunks: &[&[u8]]) -> Vec<String> {
    let mut splitter = LineSplitter::new();
    let mut out = Vec::new();
    for c in chunks {
        out.extend(splitter.push(c));
    }
    out.extend(splitter.finish());
    out
}

#[test]
fn no_line_of_a_stream_is_empty_or_holds_a_line_feed() {
    let bytes: &[u8] = b"a\xc3\n\xf0\x9f\n\n\r\n \n\xff\xfe\nb\x0cc\xe2\x82";
    for i in 0..bytes.len() {
        let lines = split(&[&bytes[..i], &bytes[i..]]);
        assert_eq!(lines, vec!["a\u{fffd}", "\u{fffd}", " ", "\u{fffd}\u{fffd}", "b\u{c}c\u{fffd}"]);
        assert!(lines.iter().all(|line| !line.is_empty() && !line.contains('\n')));
    }
}

#[test]
fn lines_of_a_stream() {
    let bytes = "[12:00] Done (3.2s)!\r\n\n  indented\r\r\n\u{e7}\u{131}\nrest ".as_bytes();
    let expected = vec!["[12:00] Done (3.2s)!", "  indented", "çı", "rest"];
    assert_eq!(split(&[bytes]), expected);
    for i in 0..bytes.len() {
        assert_eq!(split(&[&bytes[..i], &bytes[i..]]), expected);
    }
    let single: Vec<&[u8]> = bytes.chunks(1).collect();
    assert_eq!(split(&single), expected);
}

#[test]
fn damaged_bytes_do_not_stop_a_stream() {
    assert_eq!(split(&[b"a\xffb\nc"]), vec!["a\u{fffd}b", "c"]);
    assert_eq!(split(&[b"   "]), Vec::<String>::new());
    assert_eq!(split(&[]), Vec::<String>::new());
}

#[test]
fn the_log_file() {
    let missing = "logs/latest.log yok. Sunucuyu bir kez çalıştırın.";
    assert_eq!(read_latest_log(&None), missing);
    assert_eq!(read_latest_log(&Some(Vec::new())), missing);
    assert_eq!(read_latest_log(&Some(b"a\r\nb\n".to_vec())), "a\nb");
    let many: String = (0..400).map(|i| format!("{i}\n")).collect();
    let shown = read_latest_log(&Some(many.into_bytes()));
    assert!(shown.starts_with("100\n101\n"));
    assert!(shown.ends_with("\n399"));
    let mut long = vec![b'x'; 300_000];
    long.extend_from_slice(b"\nlast");
    let shown = read_latest_log(&Some(long));
    assert_eq!(shown.len(), 262_144);
    assert!(shown.ends_with("\nlast"));
    assert_eq!(tail_lines("one\ntwo"), "one\ntwo");
}

#[test]
fn saving_is_seen_in_what_was_added() {
    let log = b"Saved the game\nmore Saved the game";
    assert!(saved_since(log, 0));
    assert!(saved_since(log, 15));
    assert!(!saved_since(log, 25));
    assert!(!saved_since(log, log.len()));
    assert!(!saved_since(log, 1000));
}
