//! The persisted log format: one JSON record per line,
//! `{"command":C,"meta":{"id":I,"timestamp_ms":T,"frame":F},"succeeded":B}`,
//! where `C` is the command's own JSON text, `I` and `T` are decimal
//! numerals, `F` is a numeral or `null`, and `B` is `true` or `false`.
use crate::commands::{CommandId, CommandMeta};
use crate::decimal::{
    all_digits, decimal, is_digit, lemma_canonical_is_decimal, lemma_decimal, numeral_value,
    push_decimal, read_numeral,
};
use crate::log::LogEntry;
use vstd::prelude::*;

verus! {

/// The line of a record whose frame field is left out; it reads as having
/// no frame.
pub open spec fn frameless_line(command: Seq<u8>, id: u64, timestamp_ms: u64, succeeded: bool) -> Seq<
    u8,
> {
    command_key() + command + id_key() + decimal(id as nat) + timestamp_key() + decimal(
        timestamp_ms as nat,
    ) + succeeded_key() + flag_text(succeeded) + seq![125u8]
}

/// Whether `line` is a line that holds the record `e`: its line, or, where
/// it has no frame, its line without the frame field.
pub open spec fn line_reads_as(line: Seq<u8>, e: LogEntry<Seq<u8>>) -> bool {
    line == entry_line(e.command, e.meta, e.succeeded) || (e.meta.frame is None && line
        == frameless_line(e.command, e.meta.id.0, e.meta.timestamp_ms, e.succeeded))
}

/// `{"command":`
pub open spec fn command_key() -> Seq<u8> {
    seq![123u8, 34, 99, 111, 109, 109, 97, 110, 100, 34, 58]
}

/// `,"meta":{"id":`
pub open spec fn id_key() -> Seq<u8> {
    seq![44u8, 34, 109, 101, 116, 97, 34, 58, 123, 34, 105, 100, 34, 58]
}

/// `,"timestamp_ms":`
pub open spec fn timestamp_key() -> Seq<u8> {
    seq![44u8, 34, 116, 105, 109, 101, 115, 116, 97, 109, 112, 95, 109, 115, 34, 58]
}

/// `,"frame":`
pub open spec fn frame_key() -> Seq<u8> {
    seq![44u8, 34, 102, 114, 97, 109, 101, 34, 58]
}

/// `},"succeeded":`
pub open spec fn succeeded_key() -> Seq<u8> {
    seq![125u8, 44, 34, 115, 117, 99, 99, 101, 101, 100, 101, 100, 34, 58]
}

/// `null`
pub open spec fn null_text() -> Seq<u8> {
    seq![110u8, 117, 108, 108]
}

/// `true` or `false`.
pub open spec fn flag_text(b: bool) -> Seq<u8> {
    if b {
        seq![116u8, 114, 117, 101]
    } else {
        seq![102u8, 97, 108, 115, 101]
    }
}

/// A frame's numeral, or `null` where there is none.
pub open spec fn frame_text(frame: Option<u64>) -> Seq<u8> {
    match frame {
        Some(f) => decimal(f as nat),
        None => null_text(),
    }
}

/// The line that records a command with JSON text `command`, its metadata
/// and whether it succeeded; without a line break.
pub open spec fn entry_line(command: Seq<u8>, meta: CommandMeta, succeeded: bool) -> Seq<u8> {
    command_key() + command + id_key() + decimal(meta.id.0 as nat) + timestamp_key() + decimal(
        meta.timestamp_ms as nat,
    ) + frame_key() + frame_text(meta.frame) + succeeded_key() + flag_text(succeeded) + seq![
        125u8,
    ]
}

/// The bytes of `command_key`.
fn command_key_bytes() -> (r: Vec<u8>)
    ensures
        r@ == command_key(),
{
    let r = vec![123u8, 34, 99, 111, 109, 109, 97, 110, 100, 34, 58];
    assert(r@ =~= command_key());
    r
}

/// The bytes of `id_key`.
fn id_key_bytes() -> (r: Vec<u8>)
    ensures
        r@ == id_key(),
{
    let r = vec![44u8, 34, 109, 101, 116, 97, 34, 58, 123, 34, 105, 100, 34, 58];
    assert(r@ =~= id_key());
    r
}

/// The bytes of `timestamp_key`.
fn timestamp_key_bytes() -> (r: Vec<u8>)
    ensures
        r@ == timestamp_key(),
{
    let r = vec![44u8, 34, 116, 105, 109, 101, 115, 116, 97, 109, 112, 95, 109, 115, 34, 58];
    assert(r@ =~= timestamp_key());
    r
}

/// The bytes of `frame_key`.
fn frame_key_bytes() -> (r: Vec<u8>)
    ensures
        r@ == frame_key(),
{
    let r = vec![44u8, 34, 102, 114, 97, 109, 101, 34, 58];
    assert(r@ =~= frame_key());
    r
}

/// The bytes of `succeeded_key`.
fn succeeded_key_bytes() -> (r: Vec<u8>)
    ensures
        r@ == succeeded_key(),
{
    let r = vec![125u8, 44, 34, 115, 117, 99, 99, 101, 101, 100, 101, 100, 34, 58];
    assert(r@ =~= succeeded_key());
    r
}

/// The bytes of `null_text`.
fn null_text_bytes() -> (r: Vec<u8>)
    ensures
        r@ == null_text(),
{
    let r = vec![110u8, 117, 108, 108];
    assert(r@ =~= null_text());
    r
}

/// `true` or `false`.
fn flag_bytes(b: bool) -> (r: Vec<u8>)
    ensures
        r@ == flag_text(b),
{
    if b {
        let r = vec![116u8, 114, 117, 101];
        assert(r@ =~= flag_text(b));
        r
    } else {
        let r = vec![102u8, 97, 108, 115, 101];
        assert(r@ =~= flag_text(b));
        r
    }
}

/// Appends `bytes`.
fn push_bytes(out: &mut Vec<u8>, bytes: &[u8])
    ensures
        final(out)@ == old(out)@ + bytes@,
{
    let mut i: usize = 0;
    while i < bytes.len()
        invariant
            i <= bytes@.len(),
            out@ == old(out)@ + bytes@.subrange(0, i as int),
        decreases bytes@.len() - i,
    {
        out.push(bytes[i]);
        i = i + 1;
        assert(out@ =~= old(out)@ + bytes@.subrange(0, i as int));
    }
    assert(bytes@.subrange(0, bytes@.len() as int) =~= bytes@);
}

/// Writes the line that records a command with JSON text `command`, its
/// metadata and whether it succeeded; without a line break.
pub fn encode_entry(command: &[u8], meta: &CommandMeta, succeeded: bool) -> (r: Vec<u8>)
    ensures
        r@ == entry_line(command@, *meta, succeeded),
{
    let mut out = command_key_bytes();
    push_bytes(&mut out, command);
    push_bytes(&mut out, id_key_bytes().as_slice());
    push_decimal(&mut out, meta.id.0);
    push_bytes(&mut out, timestamp_key_bytes().as_slice());
    push_decimal(&mut out, meta.timestamp_ms);
    push_bytes(&mut out, frame_key_bytes().as_slice());
    match meta.frame {
        Some(f) => push_decimal(&mut out, f),
        None => push_bytes(&mut out, null_text_bytes().as_slice()),
    }
    push_bytes(&mut out, succeeded_key_bytes().as_slice());
    push_bytes(&mut out, flag_bytes(succeeded).as_slice());
    out.push(125u8);
    assert(out@ =~= entry_line(command@, *meta, succeeded));
    out
}

/// Whether `s[..end]` ends with `t`.
pub open spec fn ends_at(s: Seq<u8>, end: int, t: Seq<u8>) -> bool {
    t.len() <= end <= s.len() && s.subrange(end - t.len(), end) == t
}

/// Where the run of digits that ends at `end` starts.
pub open spec fn digit_run_start(s: Seq<u8>, end: int) -> int
    decreases end,
{
    if end <= 0 {
        0
    } else if is_digit(s[end - 1]) {
        digit_run_start(s, end - 1)
    } else {
        end
    }
}

/// The number whose numeral ends at `end`, preceded by `key`: where the
/// key starts, and the number.
pub open spec fn keyed_number(s: Seq<u8>, end: int, key: Seq<u8>) -> Option<(int, u64)> {
    let start = digit_run_start(s, end);
    match numeral_value(s.subrange(start, end)) {
        Some(v) => if ends_at(s, start, key) {
            Some((start - key.len(), v))
        } else {
            None
        },
        None => None,
    }
}

/// The frame field that ends at `end`: where its key starts, and the frame.
pub open spec fn frame_field(s: Seq<u8>, end: int) -> Option<(int, Option<u64>)> {
    if ends_at(s, end, null_text()) {
        if ends_at(s, end - 4, frame_key()) {
            Some((end - 4 - frame_key().len(), None))
        } else {
            None
        }
    } else {
        match keyed_number(s, end, frame_key()) {
            Some((p, v)) => Some((p, Some(v))),
            None => None,
        }
    }
}

/// The frame field that ends at `end`, or, where there is none, no frame
/// and the same position.
pub open spec fn frame_or_absent(s: Seq<u8>, end: int) -> (int, Option<u64>) {
    match frame_field(s, end) {
        Some(x) => x,
        None => (end, None),
    }
}

/// The success flag that ends at `end`: where its key starts, and the flag.
pub open spec fn flag_field(s: Seq<u8>, end: int) -> Option<(int, bool)> {
    if ends_at(s, end, flag_text(true)) {
        if ends_at(s, end - 4, succeeded_key()) {
            Some((end - 4 - succeeded_key().len(), true))
        } else {
            None
        }
    } else if ends_at(s, end, flag_text(false)) {
        if ends_at(s, end - 5, succeeded_key()) {
            Some((end - 5 - succeeded_key().len(), false))
        } else {
            None
        }
    } else {
        None
    }
}

/// The record that a line holds, read from its end.
pub open spec fn read_line(s: Seq<u8>) -> Option<LogEntry<Seq<u8>>> {
    if s.len() >= 1 && s.last() == 125 {
        match flag_field(s, s.len() - 1) {
            Some((e1, ok)) => match frame_or_absent(s, e1) {
                (e2, frame) => match keyed_number(s, e2, timestamp_key()) {
                    Some((e3, ts)) => match keyed_number(s, e3, id_key()) {
                        Some((e4, id)) => if command_key().len() <= e4 && s.subrange(
                            0,
                            command_key().len() as int,
                        ) == command_key() {
                            Some(
                                LogEntry {
                                    command: s.subrange(command_key().len() as int, e4),
                                    meta: CommandMeta { id: CommandId(id), timestamp_ms: ts, frame },
                                    succeeded: ok,
                                },
                            )
                        } else {
                            None
                        },
                        None => None,
                    },
                    None => None,
                },
            },
            None => None,
        }
    } else {
        None
    }
}

/// The run of digits ending at `end` lies before `end` and holds digits only.
proof fn lemma_run_start_bounds(s: Seq<u8>, end: int)
    requires
        0 <= end <= s.len(),
    ensures
        0 <= digit_run_start(s, end) <= end,
        all_digits(s.subrange(digit_run_start(s, end), end)),
    decreases end,
{
    if end > 0 && is_digit(s[end - 1]) {
        lemma_run_start_bounds(s, end - 1);
        let st = digit_run_start(s, end);
        assert forall|i: int| 0 <= i < end - st implies is_digit(
            #[trigger] s.subrange(st, end)[i],
        ) by {
            if i < end - 1 - st {
                assert(s.subrange(st, end)[i] == s.subrange(st, end - 1)[i]);
            }
        }
    }
}

/// The digits that end at `end` run back to the first non-digit.
proof fn lemma_run_start_at(s: Seq<u8>, end: int, start: int)
    requires
        0 <= start <= end <= s.len(),
        all_digits(s.subrange(start, end)),
        start == 0 || !is_digit(s[start - 1]),
    ensures
        digit_run_start(s, end) == start,
    decreases end,
{
    if end > start {
        assert(s.subrange(start, end)[end - 1 - start] == s[end - 1]);
        assert(all_digits(s.subrange(start, end - 1))) by {
            assert forall|i: int| 0 <= i < end - 1 - start implies is_digit(
                #[trigger] s.subrange(start, end - 1)[i],
            ) by {
                assert(s.subrange(start, end - 1)[i] == s.subrange(start, end)[i]);
            }
        }
        lemma_run_start_at(s, end - 1, start);
    }
}

/// Reading a key and a numeral back from their text.
proof fn lemma_keyed_number_of(s: Seq<u8>, end: int, pre: Seq<u8>, key: Seq<u8>, n: u64)
    requires
        0 <= end <= s.len(),
        key.len() >= 1,
        !is_digit(key.last()),
        s.subrange(0, end) == pre + key + decimal(n as nat),
    ensures
        keyed_number(s, end, key) == Some((pre.len() as int, n)),
{
    let d = decimal(n as nat);
    lemma_decimal(n as nat);
    let start = end - d.len();
    let t = s.subrange(0, end);
    let pk = pre + key;
    assert(t.len() == pk.len() + d.len());
    assert(s.subrange(start, end) =~= d) by {
        assert forall|i: int| 0 <= i < d.len() implies s.subrange(start, end)[i] == d[i] by {
            assert((pk + d)[pk.len() + i] == d[i]);
            assert(t[start + i] == d[i]);
        }
    }
    assert(s[start - 1] == key.last()) by {
        assert(t[start - 1] == key.last());
    }
    lemma_run_start_at(s, end, start);
    assert(s.subrange(start - key.len(), start) =~= key) by {
        assert forall|i: int| 0 <= i < key.len() implies s.subrange(start - key.len(), start)[i]
            == key[i] by {
            assert(t[pre.len() + i] == key[i]);
        }
    }
}

/// What a key and a numeral read back say of the text.
proof fn lemma_keyed_number_text(s: Seq<u8>, end: int, key: Seq<u8>)
    requires
        0 <= end <= s.len(),
        keyed_number(s, end, key) is Some,
    ensures
        ({
            let (p, v) = keyed_number(s, end, key)->0;
            0 <= p && s.subrange(0, end) == s.subrange(0, p) + key + decimal(v as nat)
        }),
{
    let start = digit_run_start(s, end);
    lemma_run_start_bounds(s, end);
    let num = s.subrange(start, end);
    lemma_canonical_is_decimal(num);
    let (p, v) = keyed_number(s, end, key)->0;
    assert(s.subrange(0, end) =~= s.subrange(0, p) + s.subrange(p, start) + num);
}

/// Text that ends at `end` with `t` ends there with `t`, after `pre`.
proof fn lemma_ends_with(s: Seq<u8>, end: int, pre: Seq<u8>, t: Seq<u8>)
    requires
        0 <= end <= s.len(),
        s.subrange(0, end) == pre + t,
    ensures
        ends_at(s, end, t),
        s.subrange(0, end - t.len()) == pre,
{
    let whole = s.subrange(0, end);
    assert(whole.len() == pre.len() + t.len());
    assert(s.subrange(end - t.len(), end) =~= t) by {
        assert forall|i: int| 0 <= i < t.len() implies s.subrange(end - t.len(), end)[i] == t[i] by {
            assert(whole[pre.len() + i] == (pre + t)[pre.len() + i]);
        }
    }
    assert(s.subrange(0, end - t.len()) =~= pre) by {
        assert forall|i: int| 0 <= i < pre.len() implies s.subrange(0, end - t.len())[i] == pre[i] by {
            assert(whole[i] == (pre + t)[i]);
        }
    }
}

/// Text that ends at `end` with `t` ends there with nothing else of the
/// same length.
proof fn lemma_not_ends_with(s: Seq<u8>, end: int, pre: Seq<u8>, t: Seq<u8>, u: Seq<u8>, i: int)
    requires
        0 <= end <= s.len(),
        s.subrange(0, end) == pre + t,
        u.len() <= t.len(),
        0 <= i < u.len(),
        t[t.len() - u.len() + i] != u[i],
    ensures
        !ends_at(s, end, u),
{
    lemma_ends_with(s, end, pre, t);
    if ends_at(s, end, u) {
        assert(s.subrange(end - u.len(), end)[i] == s.subrange(end - t.len(), end)[t.len()
            - u.len() + i]);
    }
}

/// Reading a frame field back from its text.
proof fn lemma_frame_field_of(s: Seq<u8>, end: int, pre: Seq<u8>, frame: Option<u64>)
    requires
        0 <= end <= s.len(),
        s.subrange(0, end) == pre + frame_key() + frame_text(frame),
    ensures
        frame_field(s, end) == Some((pre.len() as int, frame)),
{
    match frame {
        None => {
            lemma_ends_with(s, end, pre + frame_key(), null_text());
            lemma_ends_with(s, end - 4, pre, frame_key());
        },
        Some(f) => {
            let d = decimal(f as nat);
            lemma_decimal(f as nat);
            if d.len() >= 4 {
                assert(is_digit(d[d.len() - 1]));
                lemma_not_ends_with(s, end, pre + frame_key(), d, null_text(), 3);
            } else {
                if ends_at(s, end, null_text()) {
                    lemma_ends_with(s, end, pre + frame_key(), d);
                    assert(s.subrange(end - 4, end)[3] == s[end - 1]);
                    assert(s.subrange(end - d.len(), end)[d.len() - 1] == s[end - 1]);
                    assert(is_digit(d[d.len() - 1]));
                }
            }
            lemma_keyed_number_of(s, end, pre, frame_key(), f);
        },
    }
}

/// What a frame field read back says of the text.
proof fn lemma_frame_field_text(s: Seq<u8>, end: int)
    requires
        0 <= end <= s.len(),
        frame_field(s, end) is Some,
    ensures
        ({
            let (p, frame) = frame_field(s, end)->0;
            0 <= p && s.subrange(0, end) == s.subrange(0, p) + frame_key() + frame_text(frame)
        }),
{
    if ends_at(s, end, null_text()) {
        let p = end - 4 - 9;
        assert(s.subrange(0, end) =~= s.subrange(0, p) + s.subrange(p, end - 4) + s.subrange(
            end - 4,
            end,
        ));
    } else {
        lemma_keyed_number_text(s, end, frame_key());
    }
}

/// Reading a success flag back from its text.
proof fn lemma_flag_field_of(s: Seq<u8>, end: int, pre: Seq<u8>, ok: bool)
    requires
        0 <= end <= s.len(),
        s.subrange(0, end) == pre + succeeded_key() + flag_text(ok),
    ensures
        flag_field(s, end) == Some((pre.len() as int, ok)),
{
    lemma_ends_with(s, end, pre + succeeded_key(), flag_text(ok));
    lemma_ends_with(s, end - flag_text(ok).len(), pre, succeeded_key());
    if !ok {
        lemma_not_ends_with(s, end, pre + succeeded_key(), flag_text(false), flag_text(true), 0);
    }
}

/// What a success flag read back says of the text.
proof fn lemma_flag_field_text(s: Seq<u8>, end: int)
    requires
        0 <= end <= s.len(),
        flag_field(s, end) is Some,
    ensures
        ({
            let (p, ok) = flag_field(s, end)->0;
            0 <= p && s.subrange(0, end) == s.subrange(0, p) + succeeded_key() + flag_text(ok)
        }),
{
    let (p, ok) = flag_field(s, end)->0;
    let w = flag_text(ok).len() as int;
    assert(s.subrange(0, end) =~= s.subrange(0, p) + s.subrange(p, end - w) + s.subrange(
        end - w,
        end,
    ));
}

/// A prefix of a concatenation that lies within its first part.
proof fn lemma_concat_prefix(a: Seq<u8>, b: Seq<u8>, k: int)
    requires
        0 <= k <= a.len(),
    ensures
        (a + b).subrange(0, k) == a.subrange(0, k),
{
    assert((a + b).subrange(0, k) =~= a.subrange(0, k));
}

/// Every line that records a command reads back as that record.
#[verifier::rlimit(100)]
pub proof fn lemma_read_entry_line(command: Seq<u8>, meta: CommandMeta, succeeded: bool)
    ensures
        read_line(entry_line(command, meta, succeeded)) == Some(
            LogEntry { command, meta, succeeded },
        ),
{
    let d_id = decimal(meta.id.0 as nat);
    let d_ts = decimal(meta.timestamp_ms as nat);
    let head = command_key() + command;
    let to_id = head + id_key() + d_id;
    let to_stamp = to_id + timestamp_key() + d_ts;
    let to_frame = to_stamp + frame_key() + frame_text(meta.frame);
    let body = to_frame + succeeded_key() + flag_text(succeeded);
    let s = body + seq![125u8];
    assert(s == entry_line(command, meta, succeeded));
    let e0 = s.len() - 1;
    assert(s.subrange(0, e0) =~= body);
    lemma_flag_field_of(s, e0, to_frame, succeeded);
    lemma_concat_prefix(body, seq![125u8], to_frame.len() as int);
    lemma_concat_prefix(to_frame, succeeded_key() + flag_text(succeeded), to_frame.len() as int);
    assert(body == to_frame + (succeeded_key() + flag_text(succeeded)));
    assert(to_frame.subrange(0, to_frame.len() as int) =~= to_frame);
    lemma_frame_field_of(s, to_frame.len() as int, to_stamp, meta.frame);
    assert(to_frame == to_stamp + (frame_key() + frame_text(meta.frame)));
    lemma_concat_prefix(to_stamp, frame_key() + frame_text(meta.frame), to_stamp.len() as int);
    assert(to_stamp.subrange(0, to_stamp.len() as int) =~= to_stamp);
    assert(s.subrange(0, to_stamp.len() as int) == to_stamp) by {
        lemma_concat_prefix(body, seq![125u8], to_stamp.len() as int);
        assert(body == to_frame + (succeeded_key() + flag_text(succeeded)));
        lemma_concat_prefix(to_frame, succeeded_key() + flag_text(succeeded), to_stamp.len() as int);
    }
    lemma_keyed_number_of(s, to_stamp.len() as int, to_id, timestamp_key(), meta.timestamp_ms);
    assert(s.subrange(0, to_id.len() as int) == to_id) by {
        lemma_concat_prefix(body, seq![125u8], to_id.len() as int);
        lemma_concat_prefix(to_frame, succeeded_key() + flag_text(succeeded), to_id.len() as int);
        lemma_concat_prefix(to_stamp, frame_key() + frame_text(meta.frame), to_id.len() as int);
        assert(to_stamp == to_id + (timestamp_key() + d_ts));
        lemma_concat_prefix(to_id, timestamp_key() + d_ts, to_id.len() as int);
        assert(to_id.subrange(0, to_id.len() as int) =~= to_id);
    }
    lemma_keyed_number_of(s, to_id.len() as int, head, id_key(), meta.id.0);
    assert(s.subrange(0, head.len() as int) == head) by {
        lemma_concat_prefix(body, seq![125u8], head.len() as int);
        lemma_concat_prefix(to_frame, succeeded_key() + flag_text(succeeded), head.len() as int);
        lemma_concat_prefix(to_stamp, frame_key() + frame_text(meta.frame), head.len() as int);
        assert(to_stamp == to_id + (timestamp_key() + d_ts));
        lemma_concat_prefix(to_id, timestamp_key() + d_ts, head.len() as int);
        assert(to_id == head + (id_key() + d_id));
        lemma_concat_prefix(head, id_key() + d_id, head.len() as int);
        assert(head.subrange(0, head.len() as int) =~= head);
    }
    assert(s.subrange(0, command_key().len() as int) =~= command_key()) by {
        assert(s.subrange(0, head.len() as int).subrange(0, command_key().len() as int)
            =~= s.subrange(0, command_key().len() as int));
        assert(head.subrange(0, command_key().len() as int) =~= command_key());
    }
    assert(s.subrange(command_key().len() as int, head.len() as int) =~= command) by {
        assert(s.subrange(0, head.len() as int).subrange(command_key().len() as int, head.len() as int)
            =~= s.subrange(command_key().len() as int, head.len() as int));
        assert(head.subrange(command_key().len() as int, head.len() as int) =~= command);
    }
}

/// A line that reads back as a record is the line of that record.
pub proof fn lemma_read_line_text(s: Seq<u8>)
    requires
        read_line(s) is Some,
    ensures
        line_reads_as(s, read_line(s)->0),
{
    let e0 = s.len() - 1;
    lemma_flag_field_text(s, e0);
    let (e1, ok) = flag_field(s, e0)->0;
    if frame_field(s, e1) is Some {
        lemma_frame_field_text(s, e1);
    }
    let (e2, frame) = frame_or_absent(s, e1);
    lemma_keyed_number_text(s, e2, timestamp_key());
    let (e3, ts) = keyed_number(s, e2, timestamp_key())->0;
    lemma_keyed_number_text(s, e3, id_key());
    let (e4, id) = keyed_number(s, e3, id_key())->0;
    let e = read_line(s)->0;
    assert(s.subrange(0, e4) =~= command_key() + e.command);
    assert(s =~= s.subrange(0, e0) + seq![125u8]);
    if frame_field(s, e1) is Some {
        assert(s =~= entry_line(e.command, e.meta, e.succeeded));
    } else {
        assert(s.subrange(0, e0) =~= s.subrange(0, e2) + succeeded_key() + flag_text(ok));
        assert(s =~= frameless_line(e.command, e.meta.id.0, e.meta.timestamp_ms, e.succeeded));
    }
}

/// Text that ends with a timestamp field holds no frame field there.
proof fn lemma_no_frame_field(s: Seq<u8>, end: int, pre: Seq<u8>, n: u64)
    requires
        0 <= end <= s.len(),
        s.subrange(0, end) == pre + timestamp_key() + decimal(n as nat),
    ensures
        frame_field(s, end) is None,
{
    let d = decimal(n as nat);
    lemma_decimal(n as nat);
    lemma_ends_with(s, end, pre + timestamp_key(), d);
    if ends_at(s, end, null_text()) {
        assert(s.subrange(end - 4, end)[3] == s[end - 1]);
        assert(s.subrange(end - d.len(), end)[d.len() - 1] == s[end - 1]);
        assert(is_digit(d[d.len() - 1]));
    }
    lemma_keyed_number_of(s, end, pre, timestamp_key(), n);
    let st = end - d.len();
    lemma_not_ends_with(s, st, pre, timestamp_key(), frame_key(), 0);
}

/// Every line without a frame field reads back as a record with no frame.
#[verifier::rlimit(100)]
pub proof fn lemma_read_frameless_line(command: Seq<u8>, id: u64, timestamp_ms: u64, succeeded: bool)
    ensures
        read_line(frameless_line(command, id, timestamp_ms, succeeded)) == Some(
            LogEntry {
                command,
                meta: CommandMeta { id: CommandId(id), timestamp_ms, frame: None },
                succeeded,
            },
        ),
{
    let d_id = decimal(id as nat);
    let d_ts = decimal(timestamp_ms as nat);
    let head = command_key() + command;
    let to_id = head + id_key() + d_id;
    let to_stamp = to_id + timestamp_key() + d_ts;
    let body = to_stamp + succeeded_key() + flag_text(succeeded);
    let s = body + seq![125u8];
    assert(s == frameless_line(command, id, timestamp_ms, succeeded));
    let e0 = s.len() - 1;
    assert(s.subrange(0, e0) =~= body);
    lemma_flag_field_of(s, e0, to_stamp, succeeded);
    assert(s.subrange(0, to_stamp.len() as int) == to_stamp) by {
        lemma_concat_prefix(body, seq![125u8], to_stamp.len() as int);
        assert(body == to_stamp + (succeeded_key() + flag_text(succeeded)));
        lemma_concat_prefix(to_stamp, succeeded_key() + flag_text(succeeded), to_stamp.len() as int);
        assert(to_stamp.subrange(0, to_stamp.len() as int) =~= to_stamp);
    }
    lemma_no_frame_field(s, to_stamp.len() as int, to_id, timestamp_ms);
    lemma_keyed_number_of(s, to_stamp.len() as int, to_id, timestamp_key(), timestamp_ms);
    assert(s.subrange(0, to_id.len() as int) == to_id) by {
        lemma_concat_prefix(body, seq![125u8], to_id.len() as int);
        assert(body == to_stamp + (succeeded_key() + flag_text(succeeded)));
        lemma_concat_prefix(to_stamp, succeeded_key() + flag_text(succeeded), to_id.len() as int);
        assert(to_stamp == to_id + (timestamp_key() + d_ts));
        lemma_concat_prefix(to_id, timestamp_key() + d_ts, to_id.len() as int);
        assert(to_id.subrange(0, to_id.len() as int) =~= to_id);
    }
    lemma_keyed_number_of(s, to_id.len() as int, head, id_key(), id);
    assert(s.subrange(0, head.len() as int) == head) by {
        lemma_concat_prefix(body, seq![125u8], head.len() as int);
        assert(body == to_stamp + (succeeded_key() + flag_text(succeeded)));
        lemma_concat_prefix(to_stamp, succeeded_key() + flag_text(succeeded), head.len() as int);
        assert(to_stamp == to_id + (timestamp_key() + d_ts));
        lemma_concat_prefix(to_id, timestamp_key() + d_ts, head.len() as int);
        assert(to_id == head + (id_key() + d_id));
        lemma_concat_prefix(head, id_key() + d_id, head.len() as int);
        assert(head.subrange(0, head.len() as int) =~= head);
    }
    assert(s.subrange(0, command_key().len() as int) =~= command_key()) by {
        assert(s.subrange(0, head.len() as int).subrange(0, command_key().len() as int)
            =~= s.subrange(0, command_key().len() as int));
        assert(head.subrange(0, command_key().len() as int) =~= command_key());
    }
    assert(s.subrange(command_key().len() as int, head.len() as int) =~= command) by {
        assert(s.subrange(0, head.len() as int).subrange(command_key().len() as int, head.len() as int)
            =~= s.subrange(command_key().len() as int, head.len() as int));
        assert(head.subrange(command_key().len() as int, head.len() as int) =~= command);
    }
}

/// Whether `s[..end]` ends with `t`.
fn ends_at_exec(s: &[u8], end: usize, t: &[u8]) -> (r: bool)
    requires
        end <= s@.len(),
    ensures
        r == ends_at(s@, end as int, t@),
{
    if t.len() > end {
        return false;
    }
    let start = end - t.len();
    let mut i: usize = 0;
    while i < t.len()
        invariant
            start + t@.len() == end <= s@.len(),
            i <= t@.len(),
            forall|j: int| 0 <= j < i ==> s@[start + j] == t@[j],
        decreases t@.len() - i,
    {
        if s[start + i] != t[i] {
            assert(s@.subrange(start as int, end as int)[i as int] != t@[i as int]);
            return false;
        }
        i = i + 1;
    }
    assert(s@.subrange(start as int, end as int) =~= t@);
    true
}

/// Where the run of digits that ends at `end` starts.
fn run_start(s: &[u8], end: usize) -> (r: usize)
    requires
        end <= s@.len(),
    ensures
        r as int == digit_run_start(s@, end as int),
{
    let mut i = end;
    while i > 0 && 48 <= s[i - 1] && s[i - 1] <= 57
        invariant
            i <= end <= s@.len(),
            digit_run_start(s@, end as int) == digit_run_start(s@, i as int),
        decreases i,
    {
        i = i - 1;
    }
    i
}

/// Reads a numeral that ends at `end`, preceded by `key`.
fn read_keyed_number(s: &[u8], end: usize, key: &[u8]) -> (r: Option<(usize, u64)>)
    requires
        end <= s@.len(),
    ensures
        match r {
            Some((p, v)) => keyed_number(s@, end as int, key@) == Some((p as int, v)),
            None => keyed_number(s@, end as int, key@) is None,
        },
{
    let start = run_start(s, end);
    proof {
        lemma_run_start_bounds(s@, end as int);
    }
    match read_numeral(s, start, end) {
        Some(v) => if ends_at_exec(s, start, key) {
            Some((start - key.len(), v))
        } else {
            None
        },
        None => None,
    }
}

/// Reads the frame field that ends at `end`.
fn read_frame_field(s: &[u8], end: usize) -> (r: Option<(usize, Option<u64>)>)
    requires
        end <= s@.len(),
    ensures
        match r {
            Some((p, f)) => frame_field(s@, end as int) == Some((p as int, f)),
            None => frame_field(s@, end as int) is None,
        },
{
    let null = null_text_bytes();
    let key = frame_key_bytes();
    if ends_at_exec(s, end, null.as_slice()) {
        if ends_at_exec(s, end - 4, key.as_slice()) {
            Some((end - 4 - key.len(), None))
        } else {
            None
        }
    } else {
        match read_keyed_number(s, end, key.as_slice()) {
            Some((p, v)) => Some((p, Some(v))),
            None => None,
        }
    }
}

/// Reads the success flag that ends at `end`.
fn read_flag_field(s: &[u8], end: usize) -> (r: Option<(usize, bool)>)
    requires
        end <= s@.len(),
    ensures
        match r {
            Some((p, b)) => flag_field(s@, end as int) == Some((p as int, b)),
            None => flag_field(s@, end as int) is None,
        },
{
    let key = succeeded_key_bytes();
    if ends_at_exec(s, end, flag_bytes(true).as_slice()) {
        if ends_at_exec(s, end - 4, key.as_slice()) {
            Some((end - 4 - key.len(), true))
        } else {
            None
        }
    } else if ends_at_exec(s, end, flag_bytes(false).as_slice()) {
        if ends_at_exec(s, end - 5, key.as_slice()) {
            Some((end - 5 - key.len(), false))
        } else {
            None
        }
    } else {
        None
    }
}

/// A copy of `s[from..to]`.
fn copy_range(s: &[u8], from: usize, to: usize) -> (r: Vec<u8>)
    requires
        from <= to <= s@.len(),
    ensures
        r@ == s@.subrange(from as int, to as int),
{
    let mut out: Vec<u8> = Vec::new();
    let mut i = from;
    while i < to
        invariant
            from <= i <= to <= s@.len(),
            out@ == s@.subrange(from as int, i as int),
        decreases to - i,
    {
        out.push(s[i]);
        i = i + 1;
        assert(out@ =~= s@.subrange(from as int, i as int));
    }
    out
}

/// Reads the record that a line holds, where the line is the line of a
/// record.
pub fn decode_entry(line: &[u8]) -> (r: Option<LogEntry<Vec<u8>>>)
    ensures
        r matches Some(e) ==> line_reads_as(line@, record_view(e)) && read_line(line@) == Some(
            record_view(e),
        ),
        forall|command: Seq<u8>, id: u64, timestamp_ms: u64, succeeded: bool|
            #[trigger] frameless_line(command, id, timestamp_ms, succeeded) == line@ ==> (r matches Some(e)
                && e.command@ == command && e.meta == CommandMeta {
                id: CommandId(id),
                timestamp_ms,
                frame: None,
            } && e.succeeded == succeeded),
        forall|command: Seq<u8>, meta: CommandMeta, succeeded: bool|
            #[trigger] entry_line(command, meta, succeeded) == line@ ==> (r matches Some(e)
                && e.command@ == command && e.meta == meta && e.succeeded == succeeded),
{
    let r = decode_fields(line);
    proof {
        if r is Some {
            lemma_read_line_text(line@);
        }
        assert forall|command: Seq<u8>, id: u64, timestamp_ms: u64, succeeded: bool|
            #[trigger] frameless_line(command, id, timestamp_ms, succeeded) == line@ implies (r matches Some(e)
                && e.command@ == command && e.meta == CommandMeta {
                id: CommandId(id),
                timestamp_ms,
                frame: None,
            } && e.succeeded == succeeded) by {
            lemma_read_frameless_line(command, id, timestamp_ms, succeeded);
        }
        assert forall|command: Seq<u8>, meta: CommandMeta, succeeded: bool|
            #[trigger] entry_line(command, meta, succeeded) == line@ implies (r matches Some(e)
                && e.command@ == command && e.meta == meta && e.succeeded == succeeded) by {
            lemma_read_entry_line(command, meta, succeeded);
        }
    }
    r
}

/// Reads a line from its end, field by field.
fn decode_fields(s: &[u8]) -> (r: Option<LogEntry<Vec<u8>>>)
    ensures
        match r {
            Some(e) => read_line(s@) == Some(
                LogEntry { command: e.command@, meta: e.meta, succeeded: e.succeeded },
            ),
            None => read_line(s@) is None,
        },
{
    let n = s.len();
    if n == 0 || s[n - 1] != 125 {
        return None;
    }
    let (e1, ok) = match read_flag_field(s, n - 1) {
        Some(x) => x,
        None => return None,
    };
    let (e2, frame) = match read_frame_field(s, e1) {
        Some(x) => x,
        None => (e1, None),
    };
    let ts_key = timestamp_key_bytes();
    let (e3, ts) = match read_keyed_number(s, e2, ts_key.as_slice()) {
        Some(x) => x,
        None => return None,
    };
    let key = id_key_bytes();
    let (e4, id) = match read_keyed_number(s, e3, key.as_slice()) {
        Some(x) => x,
        None => return None,
    };
    let head = command_key_bytes();
    if head.len() > e4 || !ends_at_exec(s, head.len(), head.as_slice()) {
        return None;
    }
    let command = copy_range(s, head.len(), e4);
    Some(LogEntry { command, meta: CommandMeta { id: CommandId(id), timestamp_ms: ts, frame }, succeeded: ok })
}

/// Whether `s` holds no line feed.
pub open spec fn single_line(s: Seq<u8>) -> bool {
    forall|i: int| 0 <= i < s.len() ==> #[trigger] s[i] != 10
}

/// Lines, each followed by a line feed.
pub open spec fn join_lines(lines: Seq<Seq<u8>>) -> Seq<u8>
    decreases lines.len(),
{
    if lines.len() == 0 {
        Seq::empty()
    } else {
        join_lines(lines.drop_last()) + lines.last() + seq![10u8]
    }
}

/// A record whose command is JSON text held in a vector, seen as bytes.
pub open spec fn record_view(e: LogEntry<Vec<u8>>) -> LogEntry<Seq<u8>> {
    LogEntry { command: e.command@, meta: e.meta, succeeded: e.succeeded }
}

/// The records that a vector holds, seen as bytes.
pub open spec fn records_view(es: Seq<LogEntry<Vec<u8>>>) -> Seq<LogEntry<Seq<u8>>> {
    es.map_values(|e: LogEntry<Vec<u8>>| record_view(e))
}

/// The line of a record.
pub open spec fn record_line(e: LogEntry<Seq<u8>>) -> Seq<u8> {
    entry_line(e.command, e.meta, e.succeeded)
}

/// The text of a persisted log: the line of each record, in order, each
/// followed by a line feed.
pub open spec fn log_text(records: Seq<LogEntry<Seq<u8>>>) -> Seq<u8> {
    join_lines(records.map_values(|e: LogEntry<Seq<u8>>| record_line(e)))
}

/// Whether `text` is the persisted text of `records`, its last line
/// feed possibly left out.
pub open spec fn is_log_text(text: Seq<u8>, records: Seq<LogEntry<Seq<u8>>>) -> bool {
    text == log_text(records) || (records.len() > 0 && text == log_text(records).drop_last())
}

/// Whether `text` is made of lines, each followed by a line feed but
/// perhaps the last, that hold `records` in order.
pub open spec fn reads_as_log(text: Seq<u8>, records: Seq<LogEntry<Seq<u8>>>) -> bool {
    exists|lines: Seq<Seq<u8>>|
        #![trigger join_lines(lines)]
        lines.len() == records.len() && (forall|i: int|
            0 <= i < lines.len() ==> line_reads_as(#[trigger] lines[i], records[i])) && (text
            == join_lines(lines) || (lines.len() > 0 && lines.last().len() > 0 && text
            == join_lines(lines).drop_last()))
}

/// The text of no records is empty.
pub proof fn lemma_empty_log_text()
    ensures
        log_text(Seq::empty()) == Seq::<u8>::empty(),
{
    let none = Seq::<LogEntry<Seq<u8>>>::empty();
    assert(none.map_values(|e: LogEntry<Seq<u8>>| record_line(e)) =~= Seq::<Seq<u8>>::empty());
}

/// A record whose line is on one line has its command on one line.
proof fn lemma_command_single_line(line: Seq<u8>, e: LogEntry<Seq<u8>>)
    requires
        single_line(line),
        line_reads_as(line, e),
    ensures
        single_line(e.command),
{
    assert forall|i: int| 0 <= i < e.command.len() implies #[trigger] e.command[i] != 10 by {
        assert(line[command_key().len() + i] == e.command[i]);
    }
}

/// Whether no record's command text holds a line feed.
pub open spec fn commands_single_line(records: Seq<LogEntry<Seq<u8>>>) -> bool {
    forall|i: int| 0 <= i < records.len() ==> single_line(#[trigger] records[i].command)
}

/// Why a persisted log could not be read.
#[derive(Debug, Clone, Copy, PartialEq, Eq, Structural)]
pub struct LoadError {
    /// The line, counted from 1, that holds no record.
    pub line: usize,
}

/// A numeral holds no line feed.
proof fn lemma_decimal_single_line(n: nat)
    ensures
        single_line(decimal(n)),
{
    lemma_decimal(n);
    assert forall|i: int| 0 <= i < decimal(n).len() implies #[trigger] decimal(n)[i] != 10 by {
        assert(is_digit(decimal(n)[i]));
    }
}

/// The line of a record whose command is on one line is on one line too.
proof fn lemma_record_line_single(e: LogEntry<Seq<u8>>)
    requires
        single_line(e.command),
    ensures
        single_line(record_line(e)),
{
    lemma_decimal_single_line(e.meta.id.0 as nat);
    lemma_decimal_single_line(e.meta.timestamp_ms as nat);
    match e.meta.frame {
        Some(f) => lemma_decimal_single_line(f as nat),
        None => {},
    }
    assert(single_line(command_key() + e.command));
    assert(single_line(command_key() + e.command + id_key()));
    assert(single_line(command_key() + e.command + id_key() + decimal(e.meta.id.0 as nat)));
    assert(single_line(
        command_key() + e.command + id_key() + decimal(e.meta.id.0 as nat) + timestamp_key(),
    ));
    assert(single_line(
        command_key() + e.command + id_key() + decimal(e.meta.id.0 as nat) + timestamp_key()
            + decimal(e.meta.timestamp_ms as nat),
    ));
    assert(single_line(
        command_key() + e.command + id_key() + decimal(e.meta.id.0 as nat) + timestamp_key()
            + decimal(e.meta.timestamp_ms as nat) + frame_key(),
    ));
    assert(single_line(
        command_key() + e.command + id_key() + decimal(e.meta.id.0 as nat) + timestamp_key()
            + decimal(e.meta.timestamp_ms as nat) + frame_key() + frame_text(e.meta.frame),
    ));
    assert(single_line(
        command_key() + e.command + id_key() + decimal(e.meta.id.0 as nat) + timestamp_key()
            + decimal(e.meta.timestamp_ms as nat) + frame_key() + frame_text(e.meta.frame)
            + succeeded_key(),
    ));
    assert(single_line(
        command_key() + e.command + id_key() + decimal(e.meta.id.0 as nat) + timestamp_key()
            + decimal(e.meta.timestamp_ms as nat) + frame_key() + frame_text(e.meta.frame)
            + succeeded_key() + flag_text(e.succeeded),
    ));
}

/// The lines that vectors hold, seen as bytes.
pub open spec fn lines_view(lines: Seq<Vec<u8>>) -> Seq<Seq<u8>> {
    lines.map_values(|l: Vec<u8>| l@)
}

/// Joined lines end with a line feed, one per line.
proof fn lemma_join_len(lines: Seq<Seq<u8>>)
    ensures
        lines.len() > 0 ==> join_lines(lines).len() == join_lines(lines.drop_last()).len()
            + lines.last().len() + 1 && join_lines(lines).last() == 10,
        lines.len() == 0 ==> join_lines(lines).len() == 0,
{
}

/// Lines on one line each are told apart by their joined text.
proof fn lemma_join_injective(a: Seq<Seq<u8>>, b: Seq<Seq<u8>>)
    requires
        forall|i: int| 0 <= i < a.len() ==> single_line(#[trigger] a[i]),
        forall|i: int| 0 <= i < b.len() ==> single_line(#[trigger] b[i]),
        join_lines(a) == join_lines(b),
    ensures
        a == b,
    decreases a.len(),
{
    lemma_join_len(a);
    lemma_join_len(b);
    if a.len() == 0 || b.len() == 0 {
        assert(a.len() == 0 && b.len() == 0);
        assert(a =~= b);
    } else {
        let t = join_lines(a);
        let pa = join_lines(a.drop_last());
        let pb = join_lines(b.drop_last());
        let la = a.last();
        let lb = b.last();
        lemma_join_len(a.drop_last());
        lemma_join_len(b.drop_last());
        assert(t == pa + la + seq![10u8]);
        assert(t == pb + lb + seq![10u8]);
        if pa.len() < pb.len() {
            assert(pb.len() > 0);
            assert(b.drop_last().len() > 0);
            assert(t[pb.len() - 1] == pb[pb.len() - 1]);
            assert(t[pb.len() - 1] == la[pb.len() - 1 - pa.len()]);
            assert(single_line(a[a.len() - 1]));
            assert(false);
        } else if pb.len() < pa.len() {
            assert(pa.len() > 0);
            assert(a.drop_last().len() > 0);
            assert(t[pa.len() - 1] == pa[pa.len() - 1]);
            assert(t[pa.len() - 1] == lb[pa.len() - 1 - pb.len()]);
            assert(single_line(b[b.len() - 1]));
            assert(false);
        }
        assert(pa =~= t.subrange(0, pa.len() as int));
        assert(pb =~= t.subrange(0, pb.len() as int));
        assert(la =~= t.subrange(pa.len() as int, t.len() - 1));
        assert(lb =~= t.subrange(pb.len() as int, t.len() - 1));
        lemma_join_injective(a.drop_last(), b.drop_last());
        assert(a =~= a.drop_last().push(la));
        assert(b =~= b.drop_last().push(lb));
    }
}

/// The lines of a log's text, however its last line ends, are the lines of
/// its records.
proof fn lemma_lines_of_log(text: Seq<u8>, lines: Seq<Seq<u8>>, records: Seq<LogEntry<Seq<u8>>>)
    requires
        forall|i: int| 0 <= i < lines.len() ==> single_line(#[trigger] lines[i]),
        text == join_lines(lines) || (lines.len() > 0 && lines.last().len() > 0 && text
            == join_lines(lines).drop_last()),
        commands_single_line(records),
        text == log_text(records) || (records.len() > 0 && text == log_text(
            records,
        ).drop_last()),
    ensures
        lines == records.map_values(|e: LogEntry<Seq<u8>>| record_line(e)),
{
    let rl = records.map_values(|e: LogEntry<Seq<u8>>| record_line(e));
    assert forall|i: int| 0 <= i < rl.len() implies single_line(#[trigger] rl[i]) by {
        lemma_record_line_single(records[i]);
    }
    lemma_join_len(lines);
    lemma_join_len(rl);
    if rl.len() > 0 {
        assert(rl.last() == record_line(records.last()));
        assert(rl.last().last() == 125);
    }
    if lines.len() > 0 {
        lemma_join_len(lines.drop_last());
        assert(join_lines(lines) == join_lines(lines.drop_last()) + lines.last() + seq![10u8]);
    }
    if rl.len() > 0 {
        lemma_join_len(rl.drop_last());
        assert(join_lines(rl) == join_lines(rl.drop_last()) + rl.last() + seq![10u8]);
    }
    if text == join_lines(lines) {
        if text == join_lines(rl) {
            lemma_join_injective(lines, rl);
        } else {
            assert(text.len() > 0);
            assert(text.last() == join_lines(rl)[text.len() - 1]);
            assert(false);
        }
    } else {
        if text == join_lines(rl) {
            assert(text.len() > 0 ==> text.last() == 10);
            assert(text.last() == lines.last().last());
            assert(single_line(lines[lines.len() - 1]));
            assert(false);
        } else {
            assert(join_lines(lines) =~= text.push(10u8));
            assert(join_lines(rl) =~= text.push(10u8));
            lemma_join_injective(lines, rl);
        }
    }
}

/// Splits text into its lines, without their line feeds; a last line
/// without a line feed counts.
fn split_lines(text: &[u8]) -> (r: Vec<Vec<u8>>)
    ensures
        forall|i: int| 0 <= i < r@.len() ==> single_line(#[trigger] r@[i]@),
        text@ == join_lines(lines_view(r@)) || (r@.len() > 0 && r@.last()@.len() > 0 && text@
            == join_lines(lines_view(r@)).drop_last()),
{
    let mut lines: Vec<Vec<u8>> = Vec::new();
    let mut cur: Vec<u8> = Vec::new();
    let mut i: usize = 0;
    while i < text.len()
        invariant
            i <= text@.len(),
            forall|k: int| 0 <= k < lines@.len() ==> single_line(#[trigger] lines@[k]@),
            single_line(cur@),
            text@.subrange(0, i as int) == join_lines(lines_view(lines@)) + cur@,
        decreases text@.len() - i,
    {
        let b = text[i];
        let ghost prev_lines = lines_view(lines@);
        let ghost prev_cur = cur@;
        proof {
            assert(text@.subrange(0, i + 1) =~= text@.subrange(0, i as int).push(b));
        }
        if b == 10 {
            let ghost before = lines@;
            let mut done: Vec<u8> = Vec::new();
            done.append(&mut cur);
            lines.push(done);
            proof {
                assert(lines_view(lines@).drop_last() =~= lines_view(before));
                assert(lines_view(lines@).last() == done@);
                assert(done@ == prev_cur);
                assert(join_lines(lines_view(lines@)) == join_lines(prev_lines) + prev_cur + seq![
                    10u8,
                ]);
                assert(cur@ =~= Seq::<u8>::empty());
            }
        } else {
            cur.push(b);
        }
        i = i + 1;
        proof {
            assert(text@.subrange(0, i as int) =~= join_lines(lines_view(lines@)) + cur@);
        }
    }
    assert(text@.subrange(0, text@.len() as int) =~= text@);
    if cur.len() > 0 {
        let ghost before = lines@;
        let ghost last = cur@;
        lines.push(cur);
        proof {
            assert(lines_view(lines@).drop_last() =~= lines_view(before));
            assert(lines_view(lines@).last() == last);
            assert(join_lines(lines_view(lines@)).drop_last() =~= text@);
        }
    } else {
        assert(text@ =~= join_lines(lines_view(lines@)));
    }
    lines
}

/// Writes the text of a persisted log: the line of each record, in order,
/// each followed by a line feed.
pub fn encode_log(records: &[LogEntry<Vec<u8>>]) -> (r: Vec<u8>)
    ensures
        r@ == log_text(records_view(records@)),
{
    let mut out: Vec<u8> = Vec::new();
    let mut i: usize = 0;
    while i < records.len()
        invariant
            i <= records@.len(),
            out@ == log_text(records_view(records@.subrange(0, i as int))),
        decreases records@.len() - i,
    {
        let e = &records[i];
        let line = encode_entry(e.command.as_slice(), &e.meta, e.succeeded);
        push_bytes(&mut out, line.as_slice());
        out.push(10u8);
        proof {
            let rs = records_view(records@.subrange(0, i + 1));
            let prev = records_view(records@.subrange(0, i as int));
            let f = |e: LogEntry<Seq<u8>>| record_line(e);
            assert(rs =~= prev.push(record_view(*e)));
            assert(rs.map_values(f).drop_last() =~= prev.map_values(f));
            assert(rs.map_values(f).last() == line@);
            assert(out@ =~= log_text(rs));
        }
        i = i + 1;
    }
    assert(records@.subrange(0, records@.len() as int) =~= records@);
    out
}

/// Reads the records of a persisted log, in order; the last line may lack
/// its line feed. Fails on the first line that holds no record.
pub fn decode_log(text: &[u8]) -> (r: Result<Vec<LogEntry<Vec<u8>>>, LoadError>)
    ensures
        r matches Ok(es) ==> reads_as_log(text@, records_view(es@)) && commands_single_line(
            records_view(es@),
        ),
        r matches Err(e) ==> e.line >= 1,
        forall|records: Seq<LogEntry<Seq<u8>>>|
            commands_single_line(records) && #[trigger] is_log_text(text@, records) ==> (r matches Ok(
                es,
            ) && records_view(es@) == records),
{
    let lines = split_lines(text);
    let ghost lv = lines_view(lines@);
    proof {
        assert forall|k: int| 0 <= k < lv.len() implies single_line(#[trigger] lv[k]) by {
            assert(lv[k] == lines@[k]@);
        }
        if lines@.len() > 0 {
            assert(lv.last() == lines@.last()@);
        }
    }
    let mut out: Vec<LogEntry<Vec<u8>>> = Vec::new();
    let mut i: usize = 0;
    while i < lines.len()
        invariant
            lv == lines_view(lines@),
            forall|k: int| 0 <= k < lv.len() ==> single_line(#[trigger] lv[k]),
            text@ == join_lines(lv) || (lv.len() > 0 && lv.last().len() > 0 && text@
                == join_lines(lv).drop_last()),
            i <= lines@.len(),
            out@.len() == i,
            forall|j: int|
                0 <= j < i ==> read_line(lv[j]) == Some(record_view(#[trigger] out@[j])),
        decreases lines@.len() - i,
    {
        let r = decode_entry(lines[i].as_slice());
        proof {
            assert(lv[i as int] == lines@[i as int]@);
        }
        match r {
            Some(e) => {
                out.push(e);
            },
            None => {
                proof {
                    assert forall|records: Seq<LogEntry<Seq<u8>>>|
                        commands_single_line(records) && #[trigger] is_log_text(text@, records) implies false by {
                        lemma_lines_of_log(text@, lv, records);
                        let rec = records[i as int];
                        assert(entry_line(rec.command, rec.meta, rec.succeeded) == lines@[i as int]@);
                    }
                }
                return Err(LoadError { line: i + 1 });
            },
        }
        i = i + 1;
    }
    proof {
        let rs = records_view(out@);
        assert forall|j: int| 0 <= j < rs.len() implies line_reads_as(lv[j], rs[j]) && single_line(
            #[trigger] rs[j].command,
        ) by {
            assert(read_line(lv[j]) == Some(rs[j]));
            lemma_read_line_text(lv[j]);
            lemma_command_single_line(lv[j], rs[j]);
        }
        assert(reads_as_log(text@, rs));
        assert forall|records: Seq<LogEntry<Seq<u8>>>|
            commands_single_line(records) && #[trigger] is_log_text(text@, records) implies rs == records by {
            lemma_lines_of_log(text@, lv, records);
            assert forall|j: int| 0 <= j < rs.len() implies rs[j] == records[j] by {
                assert(lv[j] == record_line(records[j]));
                assert(read_line(lv[j]) == Some(rs[j]));
                lemma_read_entry_line(records[j].command, records[j].meta, records[j].succeeded);
            }
            assert(rs =~= records);
        }
    }
    Ok(out)
}

/// A persisted log reads back as the records it was written from: where
/// commands are each on one line, no other records have the same text.
pub proof fn lemma_log_round_trip(records: Seq<LogEntry<Seq<u8>>>, other: Seq<LogEntry<Seq<u8>>>)
    requires
        commands_single_line(records),
        commands_single_line(other),
        log_text(other) == log_text(records),
    ensures
        other == records,
{
    let f = |e: LogEntry<Seq<u8>>| record_line(e);
    let lines = records.map_values(f);
    assert forall|i: int| 0 <= i < lines.len() implies single_line(#[trigger] lines[i]) by {
        lemma_record_line_single(records[i]);
    }
    lemma_lines_of_log(log_text(records), lines, other);
    assert forall|j: int| 0 <= j < records.len() implies other[j] == records[j] by {
        assert(lines[j] == record_line(other[j]));
        lemma_read_entry_line(other[j].command, other[j].meta, other[j].succeeded);
        lemma_read_entry_line(records[j].command, records[j].meta, records[j].succeeded);
    }
    assert(other =~= records);
}

} // verus!
