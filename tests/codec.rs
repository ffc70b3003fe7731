use roguebench_commands::codec::{decode_entry, decode_log, encode_entry, encode_log};
use roguebench_commands::commands::{CommandId, CommandMeta};
use roguebench_commands::decimal::{push_decimal, read_numeral};
use roguebench_commands::log::LogEntry;

fn record(json: &str, id: u64, frame: Option<u64>, ok: bool) -> LogEntry<Vec<u8>> {
    let meta = CommandMeta::new(CommandId::new(id), 1000 + id);
    let meta = match frame {
        Some(f) => meta.with_frame(f),
        None => meta,
    };
    LogEntry {
        command: json.as_bytes().to_vec(),
        meta,
        succeeded: ok,
    }
}

#[test]
fn encode_entry_exact_bytes() {
    let meta = CommandMeta::new(CommandId::new(18446744073709551615), 0).with_frame(10);
    let line = encode_entry(b"[1,2]", &meta, false);
    assert_eq!(
        String::from_utf8(line).unwrap(),
        "{\"command\":[1,2],\"meta\":{\"id\":18446744073709551615,\"timestamp_ms\":0,\"frame\":10},\"succeeded\":false}"
    );
}

#[test]
fn decode_entry_reads_back() {
    let meta = CommandMeta::new(CommandId::new(12), 34);
    let line = encode_entry(b"{\"meta\":{\"id\":5}}", &meta, true);
    let e = decode_entry(&line).unwrap();
    assert_eq!(e.command, b"{\"meta\":{\"id\":5}}".to_vec());
    assert_eq!(e.meta, meta);
    assert!(e.succeeded);
}

#[test]
fn decode_entry_rejects_non_canonical() {
    let leading_zero =
        b"{\"command\":1,\"meta\":{\"id\":01,\"timestamp_ms\":0,\"frame\":null},\"succeeded\":true}";
    assert!(decode_entry(leading_zero).is_none());
    let too_big = b"{\"command\":1,\"meta\":{\"id\":18446744073709551616,\"timestamp_ms\":0,\"frame\":null},\"succeeded\":true}";
    assert!(decode_entry(too_big).is_none());
    let spaced =
        b"{\"command\":1, \"meta\":{\"id\":1,\"timestamp_ms\":0,\"frame\":null},\"succeeded\":true}";
    assert!(decode_entry(spaced).is_none());
    assert!(decode_entry(b"").is_none());
}

#[test]
fn log_text_round_trip() {
    let records = vec![
        record("{\"value\":1}", 1, Some(1), true),
        record("{\"value\":2}", 2, None, false),
        record("\"x\"", 3, Some(0), true),
    ];
    let text = encode_log(&records);
    assert_eq!(text.iter().filter(|b| **b == b'\n').count(), 3);
    let back = decode_log(&text).unwrap();
    assert_eq!(back.len(), 3);
    for (a, b) in records.iter().zip(back.iter()) {
        assert_eq!(a.command, b.command);
        assert_eq!(a.meta, b.meta);
        assert_eq!(a.succeeded, b.succeeded);
    }
    assert!(decode_log(&encode_log(&[])).unwrap().is_empty());
}

#[test]
fn decode_log_blank_line_fails() {
    let mut text = encode_log(&[record("1", 1, None, true)]);
    text.push(b'\n');
    assert_eq!(decode_log(&text).unwrap_err().line, 2);
}

#[test]
fn numerals() {
    let mut out = Vec::new();
    push_decimal(&mut out, 0);
    out.push(b' ');
    push_decimal(&mut out, 1907);
    assert_eq!(out, b"0 1907".to_vec());
    assert_eq!(read_numeral(b"x1907", 1, 5), Some(1907));
    assert_eq!(read_numeral(b"007", 0, 3), None);
    assert_eq!(read_numeral(b"0", 0, 1), Some(0));
    assert_eq!(read_numeral(b"", 0, 0), None);
    assert_eq!(read_numeral(b"12a", 0, 3), None);
}

#[test]
fn frame_field_may_be_left_out() {
    let line =
        b"{\"command\":{\"value\":4},\"meta\":{\"id\":9,\"timestamp_ms\":77},\"succeeded\":false}";
    let e = decode_entry(line).unwrap();
    assert_eq!(e.command, b"{\"value\":4}".to_vec());
    assert_eq!(e.meta, CommandMeta::new(CommandId::new(9), 77));
    assert!(!e.succeeded);
    let mut text = line.to_vec();
    text.push(b'\n');
    assert_eq!(decode_log(&text).unwrap().len(), 1);
}
