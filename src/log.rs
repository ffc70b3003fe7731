//! The command log: an append-only audit trail of executed commands, with
//! filtered views and replay.
use crate::codec::{
    commands_single_line, decode_log, lemma_empty_log_text, encode_entry, encode_log, entry_line, is_log_text, log_text,
    reads_as_log, records_view, LoadError,
};
use crate::commands::{decoded_from, encoded_as, Command, CommandId, CommandMeta};
use vstd::prelude::*;

verus! {

/// One executed command, as the log records it.
#[derive(Debug, Clone)]
pub struct LogEntry<C> {
    /// The command that was executed.
    pub command: C,
    /// Its metadata from when it was sent.
    pub meta: CommandMeta,
    /// Whether execution succeeded.
    pub succeeded: bool,
}

impl<C: Command> LogEntry<C> {
    /// An entry for a command that executed successfully.
    pub fn success(command: C, meta: CommandMeta) -> (r: Self)
        ensures
            r == (LogEntry { command, meta, succeeded: true }),
    {
        LogEntry { command, meta, succeeded: true }
    }

    /// An entry for a command whose execution failed.
    pub fn failed(command: C, meta: CommandMeta) -> (r: Self)
        ensures
            r == (LogEntry { command, meta, succeeded: false }),
    {
        LogEntry { command, meta, succeeded: false }
    }
}

/// Whether an entry records a successful execution.
pub open spec fn is_success<C>(e: LogEntry<C>) -> bool {
    e.succeeded
}

/// Whether an entry records a failed execution.
pub open spec fn is_failure<C>(e: LogEntry<C>) -> bool {
    !e.succeeded
}

/// Keeps the entries of successful executions.
pub open spec fn keep_successes<C>() -> spec_fn(LogEntry<C>) -> bool {
    |e: LogEntry<C>| is_success(e)
}

/// Keeps the entries of failed executions.
pub open spec fn keep_failures<C>() -> spec_fn(LogEntry<C>) -> bool {
    |e: LogEntry<C>| is_failure(e)
}

/// Whether an entry carries a frame within `[start, end]`.
pub open spec fn in_frames<C>(e: LogEntry<C>, start: u64, end: u64) -> bool {
    e.meta.frame matches Some(f) && start <= f && f <= end
}

/// Whether `entries` were read from `records`: same metadata and flags,
/// and each command is what `from_json` returned on the record's text.
pub open spec fn loaded_from<C: Command>(records: Seq<LogEntry<Seq<u8>>>, entries: Seq<LogEntry<C>>) -> bool {
    &&& entries.len() == records.len()
    &&& forall|i: int|
        0 <= i < records.len() ==> #[trigger] entries[i].meta == records[i].meta
            && entries[i].succeeded == records[i].succeeded && decoded_from(
            records[i].command,
            Some(entries[i].command),
        )
}

/// Whether `records` were written from `entries`: same metadata and flags,
/// and each command text is what `to_json` wrote.
pub open spec fn saved_as<C: Command>(entries: Seq<LogEntry<C>>, records: Seq<LogEntry<Seq<u8>>>) -> bool {
    &&& records.len() == entries.len()
    &&& forall|i: int|
        0 <= i < records.len() ==> #[trigger] records[i].meta == entries[i].meta
            && records[i].succeeded == entries[i].succeeded && encoded_as(
            entries[i].command,
            records[i].command,
        )
}

/// Saving and loading a log gives back its entries, in order, field for
/// field, where the command kind's JSON reads back exactly what it writes
/// and writes no line feed: the load then succeeds, and loads those
/// entries.
pub proof fn lemma_save_load<C: Command>(
    entries: Seq<LogEntry<C>>,
    records: Seq<LogEntry<Seq<u8>>>,
    loaded: Result<Seq<LogEntry<C>>, LoadError>,
)
    requires
        saved_as(entries, records),
        commands_single_line(records),
        forall|i: int| 0 <= i < records.len() ==> !decoded_from(records[i].command, None::<C>),
        forall|i: int, c: C|
            0 <= i < records.len() && #[trigger] decoded_from(records[i].command, Some(c)) ==> c
                == entries[i].command,
        loaded matches Ok(l) ==> loaded_from(records, l),
        loaded matches Err(e) ==> 0 < e.line <= records.len() && decoded_from(
            records[e.line - 1].command,
            None::<C>,
        ),
    ensures
        loaded == Ok::<Seq<LogEntry<C>>, LoadError>(entries),
{
    match loaded {
        Ok(l) => {
            assert forall|i: int| 0 <= i < l.len() implies l[i] == entries[i] by {
                assert(l[i].meta == records[i].meta);
                assert(records[i].meta == entries[i].meta);
                assert(decoded_from(records[i].command, Some(l[i].command)));
            }
            assert(l =~= entries);
        },
        Err(e) => {
            assert(!decoded_from(records[e.line - 1].command, None::<C>));
        },
    }
}

/// Whether no two entries share an identity.
pub open spec fn ids_distinct<C>(entries: Seq<LogEntry<C>>) -> bool {
    forall|i: int, j: int|
        0 <= i < entries.len() && 0 <= j < entries.len() && i != j ==> entries[i].meta.id
            != entries[j].meta.id
}

/// Whether an entry carries a frame within `[start, end]`.
fn frame_within<C>(e: &LogEntry<C>, start: u64, end: u64) -> (r: bool)
    ensures
        r == in_frames(*e, start, end),
{
    match e.meta.frame {
        Some(f) => start <= f && f <= end,
        None => false,
    }
}

/// The executed commands of one kind, in the order they were appended.
///
/// A log may be set to persist itself: each append then also yields the
/// line to add to its backing file.
pub struct CommandLog<C: Command> {
    entries: Vec<LogEntry<C>>,
    auto_persist: bool,
    persist_path: Option<String>,
}

impl<C: Command> View for CommandLog<C> {
    type V = Seq<LogEntry<C>>;

    closed spec fn view(&self) -> Seq<LogEntry<C>> {
        self.entries@
    }
}

impl<C: Command> CommandLog<C> {
    /// The path of the backing file, where the log persists each append.
    pub closed spec fn persists_to(&self) -> Option<Seq<char>> {
        if self.auto_persist {
            match self.persist_path {
                Some(p) => Some(p@),
                None => None,
            }
        } else {
            None
        }
    }

    /// An empty log that persists nothing.
    pub fn new() -> (r: Self)
        ensures
            r@.len() == 0,
            r.persists_to() is None,
    {
        CommandLog { entries: Vec::new(), auto_persist: false, persist_path: None }
    }

    /// An empty log that persists each append to the file at `path`.
    pub fn with_persistence(path: &str) -> (r: Self)
        ensures
            r@.len() == 0,
            r.persists_to() == Some(path@),
    {
        CommandLog {
            entries: Vec::new(),
            auto_persist: true,
            persist_path: Some(String::from_str(path)),
        }
    }

    /// The path of the backing file, where the log persists each append.
    pub fn persist_path(&self) -> (r: Option<&str>)
        ensures
            match self.persists_to() {
                Some(p) => r matches Some(s) && s@ == p,
                None => r is None,
            },
    {
        if self.auto_persist {
            match &self.persist_path {
                Some(p) => Some(p.as_str()),
                None => None,
            }
        } else {
            None
        }
    }

    /// Appends an entry. Where the log persists itself, returns the line,
    /// newline included, to add to the backing file.
    pub fn append(&mut self, entry: LogEntry<C>) -> (r: Option<Vec<u8>>)
        ensures
            final(self)@ == old(self)@.push(entry),
            final(self).persists_to() == old(self).persists_to(),
            old(self).persists_to() is None ==> r is None,
            old(self).persists_to() is Some ==> (r matches Some(line) && exists|json: Seq<u8>|
                encoded_as(entry.command, json) && line@ == entry_line(
                    json,
                    entry.meta,
                    entry.succeeded,
                ).push(10u8)),
    {
        let line = if self.auto_persist && self.persist_path.is_some() {
            let json = entry.command.to_json();
            assert(encoded_as(entry.command, json@));
            let mut line = encode_entry(json.as_slice(), &entry.meta, entry.succeeded);
            line.push(10u8);
            Some(line)
        } else {
            None
        };
        self.entries.push(entry);
        line
    }

    /// Records a successful execution; returns what `append` returns.
    pub fn log_success(&mut self, command: C, meta: CommandMeta) -> (r: Option<Vec<u8>>)
        ensures
            final(self)@ == old(self)@.push(LogEntry { command, meta, succeeded: true }),
            final(self).persists_to() == old(self).persists_to(),
            old(self).persists_to() is None ==> r is None,
            old(self).persists_to() is Some ==> (r matches Some(line) && exists|json: Seq<u8>|
                encoded_as(command, json) && line@ == entry_line(json, meta, true).push(10u8)),
    {
        self.append(LogEntry::success(command, meta))
    }

    /// Records a failed execution; returns what `append` returns.
    pub fn log_failure(&mut self, command: C, meta: CommandMeta) -> (r: Option<Vec<u8>>)
        ensures
            final(self)@ == old(self)@.push(LogEntry { command, meta, succeeded: false }),
            final(self).persists_to() == old(self).persists_to(),
            old(self).persists_to() is None ==> r is None,
            old(self).persists_to() is Some ==> (r matches Some(line) && exists|json: Seq<u8>|
                encoded_as(command, json) && line@ == entry_line(json, meta, false).push(10u8)),
    {
        self.append(LogEntry::failed(command, meta))
    }

    /// All entries, in append order.
    pub fn entries(&self) -> (r: &[LogEntry<C>])
        ensures
            r@ == self@,
    {
        self.entries.as_slice()
    }

    /// Iterates over the entries in append order.
    pub fn iter(&self) -> (r: std::slice::Iter<'_, LogEntry<C>>)
        ensures
            vstd::std_specs::slice::into_iter_elts(r) == self@,
    {
        self.entries.iter()
    }

    /// The number of entries.
    pub fn len(&self) -> (r: usize)
        ensures
            r == self@.len(),
    {
        self.entries.len()
    }

    /// Whether the log holds no entry.
    pub fn is_empty(&self) -> (r: bool)
        ensures
            r == (self@.len() == 0),
    {
        self.entries.len() == 0
    }

    /// Removes every entry.
    pub fn clear(&mut self)
        ensures
            final(self)@.len() == 0,
            final(self).persists_to() == old(self).persists_to(),
    {
        self.entries.clear();
    }

    /// The first entry whose identity is `id`, if any.
    pub fn get_by_id(&self, id: CommandId) -> (r: Option<&LogEntry<C>>)
        ensures
            r is None <==> forall|i: int| 0 <= i < self@.len() ==> self@[i].meta.id != id,
            r matches Some(e) ==> exists|i: int|
                0 <= i < self@.len() && self@[i] == *e && e.meta.id == id && forall|j: int|
                    0 <= j < i ==> self@[j].meta.id != id,
    {
        let mut i: usize = 0;
        while i < self.entries.len()
            invariant
                i <= self.entries@.len(),
                forall|j: int| 0 <= j < i ==> self.entries@[j].meta.id != id,
            decreases self.entries@.len() - i,
        {
            if self.entries[i].meta.id.0 == id.0 {
                return Some(&self.entries[i]);
            }
            i = i + 1;
        }
        None
    }

    /// The entries that `keep` accepts, in append order.
    fn select<F: Fn(&LogEntry<C>) -> bool>(
        &self,
        keep: F,
        Ghost(pred): Ghost<spec_fn(LogEntry<C>) -> bool>,
    ) -> (r: Vec<&LogEntry<C>>)
        requires
            forall|e: &LogEntry<C>| #[trigger] keep.requires((e,)),
            forall|e: &LogEntry<C>, b: bool| keep.ensures((e,), b) ==> b == pred(*e),
        ensures
            r@.unref() == self@.filter(pred),
    {
        let mut out: Vec<&LogEntry<C>> = Vec::new();
        let mut i: usize = 0;
        while i < self.entries.len()
            invariant
                i <= self.entries@.len(),
                out@.unref() == self.entries@.subrange(0, i as int).filter(pred),
                forall|e: &LogEntry<C>| #[trigger] keep.requires((e,)),
                forall|e: &LogEntry<C>, b: bool| keep.ensures((e,), b) ==> b == pred(*e),
            decreases self.entries@.len() - i,
        {
            let e = &self.entries[i];
            let take = keep(e);
            let ghost prev = out@;
            if take {
                out.push(e);
            }
            proof {
                reveal(Seq::filter);
                let s = self.entries@.subrange(0, i + 1);
                assert(s.len() == i + 1);
                assert(s.drop_last() =~= self.entries@.subrange(0, i as int));
                assert(s.last() == *e);
                assert(s.filter(pred) == if pred(s.last()) {
                    s.drop_last().filter(pred).push(s.last())
                } else {
                    s.drop_last().filter(pred)
                });
                assert(take == pred(*e));
                if take {
                    assert(out@ == prev.push(e));
                    assert(out@.unref() =~= prev.unref().push(*e));
                } else {
                    assert(out@ == prev);
                }
            }
            i = i + 1;
        }
        assert(self.entries@.subrange(0, self.entries@.len() as int) =~= self.entries@);
        out
    }

    /// The entries of successful executions, in append order.
    pub fn successes(&self) -> (r: Vec<&LogEntry<C>>)
        ensures
            r@.unref() == self@.filter(keep_successes()),
    {
        self.select(|e: &LogEntry<C>| -> (b: bool) ensures b == e.succeeded { e.succeeded }, Ghost(keep_successes()))
    }

    /// The entries of failed executions, in append order.
    pub fn failures(&self) -> (r: Vec<&LogEntry<C>>)
        ensures
            r@.unref() == self@.filter(keep_failures()),
    {
        self.select(|e: &LogEntry<C>| -> (b: bool) ensures b == !e.succeeded { !e.succeeded }, Ghost(keep_failures()))
    }

    /// The entries stamped with a frame in `[start, end]`, bounds included,
    /// in append order; entries without a frame are left out.
    pub fn in_frame_range(&self, start: u64, end: u64) -> (r: Vec<&LogEntry<C>>)
        ensures
            r@.unref() == self@.filter(|e: LogEntry<C>| in_frames(e, start, end)),
    {
        self.select(
            |e: &LogEntry<C>| -> (b: bool) ensures b == in_frames(*e, start, end) { frame_within(e, start, end) },
            Ghost(|e: LogEntry<C>| in_frames(e, start, end)),
        )
    }
}

impl<C: Command> Default for CommandLog<C> {
    /// An empty log that persists nothing.
    fn default() -> (r: Self)
        ensures
            r@.len() == 0,
            r.persists_to() is None,
    {
        Self::new()
    }
}

/// A filter applied to a filter's result changes nothing more.
pub proof fn lemma_filter_idempotent<A>(s: Seq<A>, pred: spec_fn(A) -> bool)
    ensures
        s.filter(pred).filter(pred) == s.filter(pred),
    decreases s.len(),
{
    reveal(Seq::filter);
    if s.len() > 0 {
        lemma_filter_idempotent(s.drop_last(), pred);
        let sub = s.drop_last().filter(pred);
        if pred(s.last()) {
            let t = sub.push(s.last());
            assert(s.filter(pred) == t);
            assert(t.drop_last() =~= sub);
            assert(t.last() == s.last());
            assert(t.filter(pred) == t.drop_last().filter(pred).push(t.last()));
        } else {
            assert(s.filter(pred) == sub);
        }
    }
}

/// Filtering a sequence from position `pos` on: the element at `pos`, where
/// it is kept, then the filtered rest.
proof fn lemma_filter_from<A>(s: Seq<A>, pos: int, pred: spec_fn(A) -> bool)
    requires
        0 <= pos < s.len(),
    ensures
        s.subrange(pos, s.len() as int).filter(pred) == if pred(s[pos]) {
            seq![s[pos]] + s.subrange(pos + 1, s.len() as int).filter(pred)
        } else {
            s.subrange(pos + 1, s.len() as int).filter(pred)
        },
{
    reveal(Seq::filter);
    let head = seq![s[pos]];
    let rest = s.subrange(pos + 1, s.len() as int);
    assert(s.subrange(pos, s.len() as int) =~= head + rest);
    Seq::filter_distributes_over_add(head, rest, pred);
    assert(head.drop_last() =~= Seq::<A>::empty());
    assert(Seq::<A>::empty().filter(pred) =~= Seq::<A>::empty());
    assert(Seq::<A>::empty().push(s[pos]) =~= head);
    assert(head.last() == s[pos]);
    assert(head.filter(pred) == if pred(s[pos]) { head } else { Seq::<A>::empty() });
    if !pred(s[pos]) {
        assert(Seq::<A>::empty() + rest.filter(pred) =~= rest.filter(pred));
    }
}

/// A replay of a log: its commands with their metadata, in append order,
/// optionally only those that executed successfully.
pub struct ReplayIterator<'a, C: Command> {
    entries: &'a [LogEntry<C>],
    only_successes: bool,
    pos: usize,
}

impl<'a, C: Command> ReplayIterator<'a, C> {
    /// The entries that this replay has yet to yield, in order.
    pub closed spec fn remaining(&self) -> Seq<LogEntry<C>> {
        let rest = self.entries@.subrange(self.pos as int, self.entries@.len() as int);
        if self.only_successes {
            rest.filter(keep_successes())
        } else {
            rest
        }
    }

    /// The replay's position lies within its log.
    pub closed spec fn wf(&self) -> bool {
        self.pos <= self.entries@.len()
    }

    /// A replay of every entry of the log, from the first.
    pub fn new(log: &'a CommandLog<C>) -> (r: Self)
        ensures
            r.wf(),
            r.remaining() == log@,
    {
        let r = ReplayIterator { entries: log.entries(), only_successes: false, pos: 0 };
        assert(r.entries@.subrange(0, r.entries@.len() as int) =~= log@);
        r
    }

    /// The same replay, leaving out the entries of failed executions.
    pub fn successes_only(self) -> (r: Self)
        requires
            self.wf(),
        ensures
            r.wf(),
            r.remaining() == self.remaining().filter(keep_successes()),
    {
        proof {
            let rest = self.entries@.subrange(self.pos as int, self.entries@.len() as int);
            lemma_filter_idempotent(rest, keep_successes());
        }
        ReplayIterator { only_successes: true, ..self }
    }

    /// The next command and its metadata, if any is left.
    pub fn next(&mut self) -> (r: Option<(C, CommandMeta)>)
        requires
            old(self).wf(),
        ensures
            final(self).wf(),
            old(self).remaining().len() == 0 ==> r is None && final(self).remaining().len() == 0,
            old(self).remaining().len() > 0 ==> (r matches Some((c, m)) && cloned(
                old(self).remaining()[0].command,
                c,
            ) && m == old(self).remaining()[0].meta && final(self).remaining() == old(
                self,
            ).remaining().drop_first()),
    {
        let ghost start = self.remaining();
        let ghost pred = keep_successes();
        while self.pos < self.entries.len()
            invariant
                pred == keep_successes::<C>(),
                start == old(self).remaining(),
                self.pos <= self.entries@.len(),
                self.remaining() == start,
                self.entries == old(self).entries,
                self.only_successes == old(self).only_successes,
            decreases self.entries@.len() - self.pos,
        {
            let e = &self.entries[self.pos];
            proof {
                let s = self.entries@;
                let p = self.pos as int;
                lemma_filter_from(s, p, pred);
                assert(s.subrange(p, s.len() as int) =~= seq![s[p]] + s.subrange(
                    p + 1,
                    s.len() as int,
                ));
            }
            if !self.only_successes || e.succeeded {
                let item = (e.command.clone(), e.meta);
                self.pos = self.pos + 1;
                proof {
                    let s = self.entries@;
                    let p = self.pos - 1;
                    let rest = s.subrange(p + 1, s.len() as int);
                    let out = if self.only_successes {
                        rest.filter(pred)
                    } else {
                        rest
                    };
                    assert(self.pos as int == p + 1);
                    assert(self.wf());
                    if self.only_successes {
                        assert(self.remaining() == rest.filter(pred));
                    } else {
                        assert(self.remaining() == rest);
                    }
                    assert(self.remaining() == out);
                    assert(start == seq![s[p]] + out);
                    assert(start[0] == s[p]);
                    assert(start.drop_first() =~= out);
                }
                return Some(item);
            }
            self.pos = self.pos + 1;
        }
        proof {
            reveal(Seq::filter);
            let s = self.entries@;
            assert(s.subrange(self.pos as int, s.len() as int) =~= Seq::<LogEntry<C>>::empty());
            assert(Seq::<LogEntry<C>>::empty().filter(pred) =~= Seq::<LogEntry<C>>::empty());
        }
        None
    }

    /// Every command this replay has yet to yield, with its metadata, in
    /// order.
    pub fn collect(self) -> (r: Vec<(C, CommandMeta)>)
        requires
            self.wf(),
        ensures
            r@.len() == self.remaining().len(),
            forall|i: int|
                0 <= i < r@.len() ==> cloned(self.remaining()[i].command, #[trigger] r@[i].0)
                    && r@[i].1 == self.remaining()[i].meta,
    {
        let ghost all = self.remaining();
        let mut it = self;
        let mut out: Vec<(C, CommandMeta)> = Vec::new();
        assert(all.subrange(0, all.len() as int) =~= all);
        loop
            invariant
                it.wf(),
                all == self.remaining(),
                out@.len() <= all.len(),
                it.remaining() == all.subrange(out@.len() as int, all.len() as int),
                forall|i: int|
                    0 <= i < out@.len() ==> cloned(all[i].command, #[trigger] out@[i].0)
                        && out@[i].1 == all[i].meta,
            decreases it.remaining().len(),
        {
            let ghost before = it.remaining();
            match it.next() {
                Some(item) => {
                    proof {
                        assert(before[0] == all[out@.len() as int]);
                        assert(before.drop_first() =~= all.subrange(
                            out@.len() as int + 1,
                            all.len() as int,
                        ));
                    }
                    out.push(item);
                },
                None => {
                    assert(before.len() == 0);
                    assert(all.subrange(out@.len() as int, all.len() as int).len() == 0);
                    assert(out@.len() == all.len());
                    return out;
                },
            }
        }
    }
}

impl<C: Command> CommandLog<C> {
    /// The text of the log as persisted: one line per entry, in order,
    /// each command written as the JSON text that its `to_json` gives.
    pub fn to_jsonl(&self) -> (r: Vec<u8>)
        ensures
            exists|records: Seq<LogEntry<Seq<u8>>>|
                r@ == log_text(records) && #[trigger] saved_as(self@, records),
    {
        let mut records: Vec<LogEntry<Vec<u8>>> = Vec::new();
        let mut i: usize = 0;
        while i < self.entries.len()
            invariant
                i <= self.entries@.len(),
                records@.len() == i,
                forall|j: int|
                    0 <= j < i ==> #[trigger] records@[j].meta == self.entries@[j].meta
                        && records@[j].succeeded == self.entries@[j].succeeded && encoded_as(
                        self.entries@[j].command,
                        records@[j].command@,
                    ),
            decreases self.entries@.len() - i,
        {
            let e = &self.entries[i];
            let json = e.command.to_json();
            records.push(LogEntry { command: json, meta: e.meta, succeeded: e.succeeded });
            i = i + 1;
        }
        let out = encode_log(records.as_slice());
        proof {
            let rs = records_view(records@);
            assert(rs.len() == self@.len());
            assert(forall|j: int| 0 <= j < rs.len() ==> rs[j].meta == self@[j].meta
                && rs[j].succeeded == self@[j].succeeded && encoded_as(self@[j].command, rs[j].command));
            assert(saved_as(self@, rs));
        }
        out
    }

    /// Reads a log back from its persisted text; the log does not persist
    /// itself. Each line's command text is handed to `from_json`; the load
    /// fails where a line holds no entry, or at the first line whose command
    /// `from_json` cannot read, counted from 1.
    pub fn from_jsonl(text: &[u8]) -> (r: Result<Self, LoadError>)
        ensures
            text@.len() == 0 ==> (r matches Ok(log) && log@.len() == 0),
            r matches Ok(log) ==> log.persists_to() is None && exists|
                records: Seq<LogEntry<Seq<u8>>>,
            |
                reads_as_log(text@, records) && #[trigger] records.len() == log@.len() && forall|
                    i: int,
                |
                    0 <= i < records.len() ==> #[trigger] records[i].meta == log@[i].meta
                        && records[i].succeeded == log@[i].succeeded && decoded_from(
                        records[i].command,
                        Some(log@[i].command),
                    ),
            forall|records: Seq<LogEntry<Seq<u8>>>|
                commands_single_line(records) && #[trigger] is_log_text(text@, records) ==> (
                r matches Ok(log) ==> loaded_from(records, log@)) && (r matches Err(e) ==> (0
                < e.line <= records.len() && decoded_from(records[e.line - 1].command, None::<C>))),
            (forall|records: Seq<LogEntry<Seq<u8>>>| !#[trigger] reads_as_log(text@, records))
                ==> r is Err,
    {
        let records = match decode_log(text) {
            Ok(rs) => rs,
            Err(e) => {
                proof {
                    if text@.len() == 0 {
                        let none = Seq::<LogEntry<Seq<u8>>>::empty();
                        lemma_empty_log_text();
                        assert(text@ =~= log_text(none));
                        assert(commands_single_line(none));
                        assert(is_log_text(text@, none));
                    }
                }
                return Err(e);
            },
        };
        let ghost rs = records_view(records@);
        let mut commands: Vec<Option<C>> = Vec::new();
        let mut i: usize = 0;
        while i < records.len()
            invariant
                i <= records@.len(),
                commands@.len() == i,
                forall|j: int|
                    0 <= j < i ==> decoded_from(records@[j].command@, #[trigger] commands@[j]),
            decreases records@.len() - i,
        {
            let c = C::from_json(records[i].command.as_slice());
            commands.push(c);
            i = i + 1;
        }
        let ghost cs = commands@;
        let ghost recs = records@;
        proof {
            if text@.len() == 0 {
                let none = Seq::<LogEntry<Seq<u8>>>::empty();
                lemma_empty_log_text();
                assert(text@ =~= log_text(none));
                assert(commands_single_line(none));
                assert(is_log_text(text@, none));
                assert(rs.len() == 0);
            }
            assert forall|other: Seq<LogEntry<Seq<u8>>>|
                commands_single_line(other) && #[trigger] is_log_text(text@, other) implies rs
                == other by {}
        }
        match entries_from(records, commands) {
            Ok(entries) => {
                let log = CommandLog { entries, auto_persist: false, persist_path: None };
                proof {
                    assert(rs.len() == log@.len());
                    assert(forall|j: int| 0 <= j < rs.len() ==> rs[j].meta == log@[j].meta
                        && rs[j].succeeded == log@[j].succeeded && decoded_from(
                        rs[j].command,
                        Some(log@[j].command),
                    )) by {
                        assert forall|j: int| 0 <= j < rs.len() implies rs[j].meta == log@[j].meta
                            && rs[j].succeeded == log@[j].succeeded && decoded_from(
                            rs[j].command,
                            Some(log@[j].command),
                        ) by {
                            assert(decoded_from(recs[j].command@, cs[j]));
                        }
                    }
                }
                Ok(log)
            },
            Err(e) => {
                proof {
                    let k = e.line - 1;
                    assert(decoded_from(recs[k].command@, cs[k]));
                    assert(rs[k].command == recs[k].command@);
                }
                Err(e)
            },
        }
    }

    /// A replay of every entry, from the first; restart it by calling
    /// `replay` again. The log is not changed.
    pub fn replay(&self) -> (r: ReplayIterator<'_, C>)
        ensures
            r.wf(),
            r.remaining() == self@,
    {
        ReplayIterator::new(self)
    }
}

/// A replay of the successes keeps, in their order, exactly the entries
/// that succeeded: each one it keeps succeeded, each success is kept, and
/// what it leaves out are the failures.
pub proof fn lemma_successes_subset<C>(entries: Seq<LogEntry<C>>)
    ensures
        forall|i: int|
            0 <= i < entries.filter(keep_successes()).len() ==> (#[trigger] entries.filter(
                keep_successes(),
            )[i]).succeeded,
        forall|i: int|
            0 <= i < entries.len() && (#[trigger] entries[i]).succeeded ==> entries.filter(
                keep_successes(),
            ).contains(entries[i]),
        entries.filter(keep_successes()).len() + entries.filter(keep_failures()).len()
            == entries.len(),
    decreases entries.len(),
{
    broadcast use Seq::lemma_filter_pred, Seq::lemma_filter_contains;
    reveal(Seq::filter);
    if entries.len() > 0 {
        lemma_successes_subset(entries.drop_last());
    }
    assert forall|i: int|
        0 <= i < entries.filter(keep_successes()).len() implies (#[trigger] entries.filter(
            keep_successes(),
        )[i]).succeeded by {
        assert(keep_successes::<C>()(entries.filter(keep_successes())[i]));
    }
    assert forall|i: int|
        0 <= i < entries.len() && (#[trigger] entries[i]).succeeded implies entries.filter(
            keep_successes(),
        ).contains(entries[i]) by {
        assert(keep_successes::<C>()(entries[i]));
    }
}

/// Where no two entries share an identity, the entry that `get_by_id`
/// finds for an identity is the only one that has it.
pub proof fn lemma_found_entry_unique<C>(entries: Seq<LogEntry<C>>, id: CommandId, k: int)
    requires
        ids_distinct(entries),
        0 <= k < entries.len(),
        entries[k].meta.id == id,
    ensures
        forall|j: int| 0 <= j < entries.len() && entries[j].meta.id == id ==> j == k,
{
}

/// Entries whose identities increase, as one bus hands them out, share
/// no identity.
pub proof fn lemma_increasing_ids_distinct<C>(entries: Seq<LogEntry<C>>)
    requires
        forall|i: int, j: int|
            0 <= i < j < entries.len() ==> entries[i].meta.id.0 < entries[j].meta.id.0,
    ensures
        ids_distinct(entries),
{
    assert forall|i: int, j: int|
        0 <= i < entries.len() && 0 <= j < entries.len() && i != j implies entries[i].meta.id
        != entries[j].meta.id by {
        if i < j {
            assert(entries[i].meta.id.0 < entries[j].meta.id.0);
        } else {
            assert(entries[j].meta.id.0 < entries[i].meta.id.0);
        }
    }
}

/// Builds log entries from records read back from a persisted log and the
/// commands that were read from their command texts: every command must be
/// there, else the load fails at the first missing one, counted from 1.
pub fn entries_from<C: Command>(records: Vec<LogEntry<Vec<u8>>>, commands: Vec<Option<C>>) -> (r:
    Result<Vec<LogEntry<C>>, LoadError>)
    requires
        records@.len() == commands@.len(),
    ensures
        r is Ok <==> forall|i: int| 0 <= i < commands@.len() ==> #[trigger] commands@[i] is Some,
        r matches Ok(es) ==> es@.len() == records@.len() && forall|i: int|
            0 <= i < es@.len() ==> #[trigger] es@[i] == (LogEntry {
                command: commands@[i]->0,
                meta: records@[i].meta,
                succeeded: records@[i].succeeded,
            }),
        r matches Err(e) ==> 1 <= e.line <= commands@.len() && commands@[e.line - 1] is None
            && forall|j: int| 0 <= j < e.line - 1 ==> #[trigger] commands@[j] is Some,
{
    let n = commands.len();
    let mut i: usize = 0;
    while i < n
        invariant
            i <= n == commands@.len(),
            forall|j: int| 0 <= j < i ==> #[trigger] commands@[j] is Some,
        decreases n - i,
    {
        if commands[i].is_none() {
            return Err(LoadError { line: i + 1 });
        }
        i = i + 1;
    }
    let ghost cs = commands@;
    let ghost rs = records@;
    let mut commands = commands;
    let mut records = records;
    let mut reversed: Vec<LogEntry<C>> = Vec::new();
    while commands.len() > 0
        invariant
            commands@.len() == records@.len() <= n,
            n == cs.len() == rs.len(),
            commands@ == cs.subrange(0, commands@.len() as int),
            records@ == rs.subrange(0, records@.len() as int),
            forall|j: int| 0 <= j < n ==> #[trigger] cs[j] is Some,
            reversed@.len() == n - commands@.len(),
            forall|j: int|
                0 <= j < reversed@.len() ==> #[trigger] reversed@[j] == (LogEntry {
                    command: cs[n - 1 - j]->0,
                    meta: rs[n - 1 - j].meta,
                    succeeded: rs[n - 1 - j].succeeded,
                }),
        decreases commands@.len(),
    {
        let k = commands.len() - 1;
        let c = commands.pop();
        let rec = records.pop();
        proof {
            assert(c == Some(cs[k as int]));
            assert(cs[k as int] is Some);
        }
        match (c, rec) {
            (Some(Some(command)), Some(rec)) => {
                reversed.push(LogEntry { command, meta: rec.meta, succeeded: rec.succeeded });
            },
            _ => {
                assert(false);
            },
        }
        proof {
            assert(commands@ =~= cs.subrange(0, commands@.len() as int));
            assert(records@ =~= rs.subrange(0, records@.len() as int));
        }
    }
    let mut out: Vec<LogEntry<C>> = Vec::new();
    while reversed.len() > 0
        invariant
            n == cs.len() == rs.len(),
            out@.len() + reversed@.len() == n,
            forall|j: int|
                0 <= j < reversed@.len() ==> #[trigger] reversed@[j] == (LogEntry {
                    command: cs[n - 1 - j]->0,
                    meta: rs[n - 1 - j].meta,
                    succeeded: rs[n - 1 - j].succeeded,
                }),
            forall|j: int|
                0 <= j < out@.len() ==> #[trigger] out@[j] == (LogEntry {
                    command: cs[j]->0,
                    meta: rs[j].meta,
                    succeeded: rs[j].succeeded,
                }),
        decreases reversed@.len(),
    {
        let ghost m = reversed@.len() - 1;
        match reversed.pop() {
            Some(e) => {
                proof {
                    assert(n - 1 - m == out@.len());
                }
                out.push(e);
            },
            None => {},
        }
    }
    Ok(out)
}

} // verus!
