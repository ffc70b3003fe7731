use roguebench_commands::codec::LoadError;
use roguebench_commands::commands::{Command, CommandId, CommandMeta};
use roguebench_commands::log::{entries_from, CommandLog, LogEntry};

#[derive(Clone, Debug, PartialEq)]
struct TestCommand {
    value: i32,
}

impl Command for TestCommand {
    type Output = ();
    type Error = ();

    fn name() -> &'static str {
        "test"
    }

    fn to_json(&self) -> Vec<u8> {
        format!("{{\"value\":{}}}", self.value).into_bytes()
    }

    fn from_json(json: &[u8]) -> Option<Self> {
        let v: serde_json::Value = serde_json::from_slice(json).ok()?;
        let value = i32::try_from(v.get("value")?.as_i64()?).ok()?;
        Some(TestCommand { value })
    }
}

#[derive(Clone, Debug)]
struct DealDamage {
    target_id: u32,
    amount: i32,
}

impl Command for DealDamage {
    type Output = i32;
    type Error = String;

    fn name() -> &'static str {
        "deal_damage"
    }

    fn to_json(&self) -> Vec<u8> {
        format!(
            "{{\"target_id\":{},\"amount\":{}}}",
            self.target_id, self.amount
        )
        .into_bytes()
    }

    fn from_json(json: &[u8]) -> Option<Self> {
        let v: serde_json::Value = serde_json::from_slice(json).ok()?;
        let target_id = u32::try_from(v.get("target_id")?.as_u64()?).ok()?;
        let amount = i32::try_from(v.get("amount")?.as_i64()?).ok()?;
        Some(DealDamage { target_id, amount })
    }
}

fn make_meta(id: u64) -> CommandMeta {
    CommandMeta::new(CommandId::new(id), 1000).with_frame(id)
}

#[test]
fn log_append_and_iterate() {
    let mut log = CommandLog::<TestCommand>::new();

    log.log_success(TestCommand { value: 1 }, make_meta(1));
    log.log_success(TestCommand { value: 2 }, make_meta(2));
    log.log_failure(TestCommand { value: 3 }, make_meta(3));

    assert_eq!(log.len(), 3);

    let values: Vec<_> = log.iter().map(|e| e.command.value).collect();
    assert_eq!(values, vec![1, 2, 3]);
}

#[test]
fn filter_successes_and_failures() {
    let mut log = CommandLog::<TestCommand>::new();

    log.log_success(TestCommand { value: 1 }, make_meta(1));
    log.log_failure(TestCommand { value: 2 }, make_meta(2));
    log.log_success(TestCommand { value: 3 }, make_meta(3));

    let successes: Vec<_> = log.successes().iter().map(|e| e.command.value).collect();
    assert_eq!(successes, vec![1, 3]);

    let failures: Vec<_> = log.failures().iter().map(|e| e.command.value).collect();
    assert_eq!(failures, vec![2]);
}

#[test]
fn get_by_id() {
    let mut log = CommandLog::<TestCommand>::new();

    log.log_success(TestCommand { value: 42 }, make_meta(100));

    let entry = log.get_by_id(CommandId::new(100)).unwrap();
    assert_eq!(entry.command.value, 42);

    assert!(log.get_by_id(CommandId::new(999)).is_none());
}

#[test]
fn frame_range_filter() {
    let mut log = CommandLog::<TestCommand>::new();

    log.log_success(TestCommand { value: 1 }, make_meta(10));
    log.log_success(TestCommand { value: 2 }, make_meta(20));
    log.log_success(TestCommand { value: 3 }, make_meta(30));
    log.log_success(TestCommand { value: 4 }, make_meta(40));

    let in_range: Vec<_> = log
        .in_frame_range(15, 35)
        .iter()
        .map(|e| e.command.value)
        .collect();
    assert_eq!(in_range, vec![2, 3]);
}

#[test]
fn replay_iterator() {
    let mut log = CommandLog::<TestCommand>::new();

    log.log_success(TestCommand { value: 1 }, make_meta(1));
    log.log_failure(TestCommand { value: 2 }, make_meta(2));
    log.log_success(TestCommand { value: 3 }, make_meta(3));

    // All commands
    let all: Vec<_> = log.replay().collect().into_iter().map(|(c, _)| c.value).collect();
    assert_eq!(all, vec![1, 2, 3]);

    // Only successes
    let successes: Vec<_> = log
        .replay()
        .successes_only()
        .collect()
        .into_iter()
        .map(|(c, _)| c.value)
        .collect();
    assert_eq!(successes, vec![1, 3]);
}

#[test]
fn save_and_load() {
    let text = {
        let mut log = CommandLog::<TestCommand>::new();
        log.log_success(TestCommand { value: 1 }, make_meta(1));
        log.log_success(TestCommand { value: 2 }, make_meta(2));
        log.to_jsonl()
    };

    let log = CommandLog::<TestCommand>::from_jsonl(&text).unwrap();
    assert_eq!(log.len(), 2);
    assert_eq!(log.entries()[0].command.value, 1);
    assert_eq!(log.entries()[1].command.value, 2);
}

#[test]
fn clear_log() {
    let mut log = CommandLog::<TestCommand>::new();
    log.log_success(TestCommand { value: 1 }, make_meta(1));
    log.log_success(TestCommand { value: 2 }, make_meta(2));

    assert!(!log.is_empty());
    log.clear();
    assert!(log.is_empty());
}

#[test]
fn log_persistence() {
    let text = {
        let mut log = CommandLog::<DealDamage>::new();
        log.log_success(
            DealDamage {
                target_id: 1,
                amount: 10,
            },
            CommandMeta::new(CommandId::new(1), 1000).with_frame(1),
        );
        log.log_success(
            DealDamage {
                target_id: 2,
                amount: 20,
            },
            CommandMeta::new(CommandId::new(2), 2000).with_frame(2),
        );
        log.to_jsonl()
    };

    let log = CommandLog::<DealDamage>::from_jsonl(&text).unwrap();
    assert_eq!(log.len(), 2);

    let entries: Vec<_> = log.iter().collect();
    assert_eq!(entries[0].command.amount, 10);
    assert_eq!(entries[1].command.amount, 20);
    assert_eq!(entries[1].command.target_id, 2);
}

#[test]
fn replay_from_log() {
    let mut log = CommandLog::<DealDamage>::new();

    log.log_success(
        DealDamage {
            target_id: 1,
            amount: 10,
        },
        CommandMeta::new(CommandId::new(1), 1000),
    );
    log.log_failure(
        DealDamage {
            target_id: 2,
            amount: 99,
        },
        CommandMeta::new(CommandId::new(2), 2000),
    );
    log.log_success(
        DealDamage {
            target_id: 3,
            amount: 30,
        },
        CommandMeta::new(CommandId::new(3), 3000),
    );

    // Replay all
    let all: Vec<_> = log.replay().collect();
    assert_eq!(all.len(), 3);

    // Replay only successes
    let successes: Vec<_> = log.replay().successes_only().collect();
    assert_eq!(successes.len(), 2);
    assert_eq!(successes[0].0.amount, 10);
    assert_eq!(successes[1].0.amount, 30);
}

#[test]
fn replay_successes_with_metadata() {
    let mut log = CommandLog::<TestCommand>::new();
    log.log_success(TestCommand { value: 1 }, make_meta(1));
    log.log_failure(TestCommand { value: 2 }, make_meta(2));
    log.log_success(TestCommand { value: 3 }, make_meta(3));
    let got = log.replay().successes_only().collect();
    assert_eq!(
        got,
        vec![
            (TestCommand { value: 1 }, make_meta(1)),
            (TestCommand { value: 3 }, make_meta(3))
        ]
    );
    // Replay is read-only and restartable.
    assert_eq!(log.len(), 3);
    let mut again = log.replay();
    assert_eq!(again.next(), Some((TestCommand { value: 1 }, make_meta(1))));
    assert_eq!(again.next(), Some((TestCommand { value: 2 }, make_meta(2))));
    assert_eq!(again.next(), Some((TestCommand { value: 3 }, make_meta(3))));
    assert_eq!(again.next(), None);
}

#[test]
fn frame_range_bounds_inclusive_and_frameless_excluded() {
    let mut log = CommandLog::<TestCommand>::new();
    log.log_success(TestCommand { value: 1 }, make_meta(10));
    log.log_success(
        TestCommand { value: 2 },
        CommandMeta::new(CommandId::new(2), 5),
    );
    log.log_success(TestCommand { value: 3 }, make_meta(20));
    log.log_success(TestCommand { value: 4 }, make_meta(21));
    let got: Vec<i32> = log
        .in_frame_range(10, 20)
        .iter()
        .map(|e| e.command.value)
        .collect();
    assert_eq!(got, vec![1, 3]);
}

#[test]
fn get_by_id_returns_first_of_shared_identity() {
    let mut log = CommandLog::<TestCommand>::new();
    log.log_success(TestCommand { value: 1 }, make_meta(5));
    log.log_failure(TestCommand { value: 2 }, make_meta(5));
    let e = log.get_by_id(CommandId::new(5)).unwrap();
    assert_eq!(e.command.value, 1);
    assert!(e.succeeded);
}

#[test]
fn round_trip_zero_one_many_with_and_without_frames() {
    for n in [0usize, 1, 5] {
        let mut log = CommandLog::<TestCommand>::new();
        for i in 0..n {
            let meta = if i % 2 == 0 {
                make_meta(i as u64 + 1)
            } else {
                CommandMeta::new(CommandId::new(i as u64 + 1), 42)
            };
            if i % 3 == 0 {
                log.log_failure(TestCommand { value: -(i as i32) }, meta);
            } else {
                log.log_success(TestCommand { value: i as i32 }, meta);
            }
        }
        let back = CommandLog::<TestCommand>::from_jsonl(&log.to_jsonl()).unwrap();
        assert_eq!(back.len(), n);
        for (a, b) in log.entries().iter().zip(back.entries().iter()) {
            assert_eq!(a.command, b.command);
            assert_eq!(a.meta, b.meta);
            assert_eq!(a.succeeded, b.succeeded);
        }
    }
}

#[test]
fn persisted_text_is_byte_exact() {
    let mut log = CommandLog::<TestCommand>::new();
    log.log_success(TestCommand { value: 1 }, make_meta(1));
    log.log_failure(
        TestCommand { value: 2 },
        CommandMeta::new(CommandId::new(2), 2000),
    );
    let text = String::from_utf8(log.to_jsonl()).unwrap();
    assert_eq!(
        text,
        "{\"command\":{\"value\":1},\"meta\":{\"id\":1,\"timestamp_ms\":1000,\"frame\":1},\"succeeded\":true}\n\
         {\"command\":{\"value\":2},\"meta\":{\"id\":2,\"timestamp_ms\":2000,\"frame\":null},\"succeeded\":false}\n"
    );
}

#[test]
fn load_reports_bad_lines() {
    let good = "{\"command\":{\"value\":1},\"meta\":{\"id\":1,\"timestamp_ms\":1000,\"frame\":1},\"succeeded\":true}\n";
    let text = format!("{}not a record\n", good);
    assert_eq!(
        CommandLog::<TestCommand>::from_jsonl(text.as_bytes()).err(),
        Some(LoadError { line: 2 })
    );
    let bad_command = "{\"command\":{\"other\":1},\"meta\":{\"id\":1,\"timestamp_ms\":1000,\"frame\":1},\"succeeded\":true}\n";
    assert_eq!(
        CommandLog::<TestCommand>::from_jsonl(bad_command.as_bytes()).err(),
        Some(LoadError { line: 1 })
    );
    let no_final_newline = good.trim_end();
    assert_eq!(
        CommandLog::<TestCommand>::from_jsonl(no_final_newline.as_bytes())
            .unwrap()
            .len(),
        1
    );
}

#[test]
fn persisting_log_yields_lines() {
    let mut log = CommandLog::<TestCommand>::with_persistence("/tmp/commands.jsonl");
    assert_eq!(log.persist_path(), Some("/tmp/commands.jsonl"));
    let line = log.log_success(TestCommand { value: 7 }, make_meta(3)).unwrap();
    assert_eq!(
        String::from_utf8(line).unwrap(),
        "{\"command\":{\"value\":7},\"meta\":{\"id\":3,\"timestamp_ms\":1000,\"frame\":3},\"succeeded\":true}\n"
    );
    let mut plain = CommandLog::<TestCommand>::new();
    assert!(plain.persist_path().is_none());
    assert!(plain
        .append(LogEntry::failed(TestCommand { value: 1 }, make_meta(1)))
        .is_none());
    assert!(!plain.entries()[0].succeeded);
}

#[test]
fn default_log_is_empty() {
    let log: CommandLog<TestCommand> = Default::default();
    assert!(log.is_empty());
    assert!(log.persist_path().is_none());
    let validators: roguebench_commands::validate::Validators<TestCommand> = Default::default();
    assert_eq!(validators.len(), 0);
}

#[test]
fn entries_from_needs_every_command() {
    let rec = |id: u64| LogEntry {
        command: b"{}".to_vec(),
        meta: make_meta(id),
        succeeded: id % 2 == 0,
    };
    let ok = entries_from(
        vec![rec(1), rec(2)],
        vec![Some(TestCommand { value: 1 }), Some(TestCommand { value: 2 })],
    )
    .unwrap();
    assert_eq!(ok[1].command, TestCommand { value: 2 });
    assert_eq!(ok[1].meta, make_meta(2));
    assert!(ok[1].succeeded && !ok[0].succeeded);
    let err = entries_from(
        vec![rec(1), rec(2), rec(3)],
        vec![Some(TestCommand { value: 1 }), None, None],
    );
    assert_eq!(err.err(), Some(LoadError { line: 2 }));
}

#[test]
fn empty_text_loads_empty_log() {
    let log = CommandLog::<TestCommand>::from_jsonl(b"").unwrap();
    assert!(log.is_empty());
}
