use netlog::conn::Connection;
use netlog::messages::clean_message;
use netlog::sink::dispatch_chunk;
use netlog::sink::format_log_line;
use netlog::sink::LogSink;
use netlog::timestamp::now;
use netlog::timestamp::render_rfc3339;
use netlog::timestamp::Timestamp;

fn ts(year: i64, month: u8, day: u8, hour: u8, minute: u8, second: u8) -> Timestamp {
    Timestamp::from_parts(year, month, day, hour, minute, second)
}

/// The complete lines of a log image: pieces ended by a delimiter; bytes
/// after the last delimiter belong to no line.
fn complete_lines(file: &[u8]) -> Vec<Vec<u8>> {
    let mut lines: Vec<Vec<u8>> = Vec::new();
    let mut cur: Vec<u8> = Vec::new();
    for &b in file {
        if b == b'\n' {
            lines.push(cur.clone());
            cur.clear();
        } else {
            cur.push(b);
        }
    }
    lines
}

fn is_well_formed_line(line: &[u8]) -> bool {
    line.len() >= 23 && line[0] == b'[' && line[21] == b']' && line[22] == b' '
}

#[test]
fn trims_trailing_whitespace() {
    assert_eq!(clean_message(&b"hi \t".to_vec()), Some(b"hi".to_vec()));
    assert_eq!(clean_message(&b"hello".to_vec()), Some(b"hello".to_vec()));
    assert_eq!(clean_message(&b"  leading stays".to_vec()), Some(b"  leading stays".to_vec()));
    assert_eq!(clean_message(&b"line\r".to_vec()), Some(b"line".to_vec()));
}

#[test]
fn whitespace_only_line_carries_no_message() {
    assert_eq!(clean_message(&b"".to_vec()), None);
    assert_eq!(clean_message(&b"   ".to_vec()), None);
    assert_eq!(clean_message(&b"\t \r".to_vec()), None);
}

#[test]
fn one_write_three_lines_in_order() {
    let mut conn = Connection::new();
    let msgs = conn.feed(&b"a\nb\nc\n".to_vec());
    assert_eq!(msgs, vec![b"a".to_vec(), b"b".to_vec(), b"c".to_vec()]);
    assert_eq!(conn.close(), b"".to_vec());
}

#[test]
fn empty_lines_produce_no_entry() {
    let mut conn = Connection::new();
    let msgs = conn.feed(&b"\n\n  \n\t\r\nreal\n".to_vec());
    assert_eq!(msgs, vec![b"real".to_vec()]);
}

#[test]
fn chunking_does_not_change_the_messages() {
    let mut piecewise = Connection::new();
    let mut collected: Vec<Vec<u8>> = Vec::new();
    collected.extend(piecewise.feed(&b"hel".to_vec()));
    collected.extend(piecewise.feed(&b"lo\nwor".to_vec()));
    collected.extend(piecewise.feed(&b"ld\n".to_vec()));

    let mut whole = Connection::new();
    let at_once = whole.feed(&b"hello\nworld\n".to_vec());

    assert_eq!(collected, at_once);
    assert_eq!(collected, vec![b"hello".to_vec(), b"world".to_vec()]);
    assert_eq!(piecewise.close(), whole.close());
}

#[test]
fn undelimited_tail_is_dropped_not_logged() {
    let mut conn = Connection::new();
    let msgs = conn.feed(&b"done\npart".to_vec());
    assert_eq!(msgs, vec![b"done".to_vec()]);
    assert_eq!(conn.close(), b"part".to_vec());
}

#[test]
fn mid_message_disconnect_yields_nothing() {
    let mut conn = Connection::new();
    let msgs = conn.feed(&b"no delimiter before the end".to_vec());
    assert!(msgs.is_empty());
    assert_eq!(conn.close(), b"no delimiter before the end".to_vec());
}

#[test]
fn renders_rfc3339_exactly() {
    let t = ts(2024, 1, 2, 3, 4, 5);
    assert_eq!(render_rfc3339(&t), b"2024-01-02T03:04:05Z".to_vec());
    let t = ts(987, 11, 30, 23, 59, 59);
    assert_eq!(render_rfc3339(&t), b"0987-11-30T23:59:59Z".to_vec());
}

#[test]
fn year_saturates_to_four_digits() {
    assert_eq!(ts(-5, 6, 7, 8, 9, 10).year, 0);
    assert_eq!(ts(123456, 6, 7, 8, 9, 10).year, 9999);
    assert_eq!(ts(2024, 6, 7, 8, 9, 10).year, 2024);
}

#[test]
fn clock_hands_back_calendar_shaped_parts() {
    let t = now();
    assert!(t.year <= 9999);
    assert!((1..=12).contains(&t.month));
    assert!((1..=31).contains(&t.day));
    assert!(t.hour <= 23);
    assert!(t.minute <= 59);
    assert!(t.second <= 59);
}

#[test]
fn formats_one_complete_line() {
    let t = ts(2024, 1, 2, 3, 4, 5);
    let line = format_log_line(&t, &b"hi".to_vec());
    assert_eq!(line, b"[2024-01-02T03:04:05Z] hi\n".to_vec());
}

#[test]
fn sink_starts_empty_and_appends_whole_lines() {
    let mut sink = LogSink::new();
    assert!(sink.file.is_empty());
    let t = ts(2024, 1, 2, 3, 4, 5);
    sink.append(t, &b"first".to_vec());
    sink.append(t, &b"second".to_vec());
    assert_eq!(
        sink.file,
        b"[2024-01-02T03:04:05Z] first\n[2024-01-02T03:04:05Z] second\n".to_vec()
    );
}

#[test]
fn concurrent_burst_yields_only_complete_lines() {
    let mut sink = LogSink::new();
    let t = ts(2024, 6, 7, 8, 9, 10);
    let mut sent: Vec<Vec<u8>> = Vec::new();
    for i in 0..20u8 {
        let msg = format!("message number {}", i).into_bytes();
        sink.append(t, &msg);
        sent.push(msg);
    }
    let lines = complete_lines(&sink.file);
    assert_eq!(lines.len(), sent.len());
    for (line, msg) in lines.iter().zip(sent.iter()) {
        assert!(is_well_formed_line(line));
        assert_eq!(&line[23..], &msg[..]);
    }
}

#[test]
fn two_clients_one_line_each() {
    let mut a = Connection::new();
    let mut b = Connection::new();
    let mut sink = LogSink::new();
    dispatch_chunk(&mut a, &mut sink, &b"hello\n".to_vec());
    dispatch_chunk(&mut b, &mut sink, &b"world\n".to_vec());
    let lines = complete_lines(&sink.file);
    assert_eq!(lines.len(), 2);
    for line in &lines {
        assert!(is_well_formed_line(line));
    }
    let bodies: Vec<&[u8]> = lines.iter().map(|l| &l[23..]).collect();
    assert!(bodies.contains(&&b"hello"[..]));
    assert!(bodies.contains(&&b"world"[..]));
}

#[test]
fn per_connection_order_survives_interleaving() {
    let mut a = Connection::new();
    let mut b = Connection::new();
    let mut sink = LogSink::new();
    dispatch_chunk(&mut a, &mut sink, &b"a1\n".to_vec());
    dispatch_chunk(&mut b, &mut sink, &b"b1\n".to_vec());
    dispatch_chunk(&mut a, &mut sink, &b"a2\n".to_vec());
    dispatch_chunk(&mut b, &mut sink, &b"b2\n".to_vec());
    dispatch_chunk(&mut a, &mut sink, &b"a3\n".to_vec());
    let lines = complete_lines(&sink.file);
    assert_eq!(lines.len(), 5);
    let from_a: Vec<&[u8]> =
        lines.iter().map(|l| &l[23..]).filter(|m| m.starts_with(b"a")).collect();
    let from_b: Vec<&[u8]> =
        lines.iter().map(|l| &l[23..]).filter(|m| m.starts_with(b"b")).collect();
    assert_eq!(from_a, vec![&b"a1"[..], &b"a2"[..], &b"a3"[..]]);
    assert_eq!(from_b, vec![&b"b1"[..], &b"b2"[..]]);
}

#[test]
fn dispatched_lines_carry_non_decreasing_timestamps() {
    let mut conn = Connection::new();
    let mut sink = LogSink::new();
    dispatch_chunk(&mut conn, &mut sink, &b"a\nb\nc\n".to_vec());
    let lines = complete_lines(&sink.file);
    assert_eq!(lines.len(), 3);
    assert_eq!(&lines[0][23..], b"a");
    assert_eq!(&lines[1][23..], b"b");
    assert_eq!(&lines[2][23..], b"c");
    for w in lines.windows(2) {
        let earlier = &w[0][1..21];
        let later = &w[1][1..21];
        assert!(earlier <= later);
    }
}
