use roguebench_commands::clock::timestamp_from;
use roguebench_commands::commands::{Command, CommandId, CommandMeta};
use roguebench_commands::events::{CommandExecuted, ExecutionTimer};
use std::time::Duration;

#[derive(Clone, Debug)]
struct TestCommand {
    value: i32,
}

impl Command for TestCommand {
    type Output = i32;
    type Error = String;

    fn name() -> &'static str {
        "test"
    }

    fn to_json(&self) -> Vec<u8> {
        format!("{{\"value\":{}}}", self.value).into_bytes()
    }

    fn from_json(json: &[u8]) -> Option<Self> {
        let v: serde_json::Value = serde_json::from_slice(json).ok()?;
        let value = i32::try_from(v.get("value")?.as_i64()?).ok()?;
        Some(TestCommand { value })
    }
}

#[test]
fn create_success_event() {
    let cmd = TestCommand { value: 42 };
    let meta = CommandMeta::new(CommandId::new(1), 1000);

    let event = CommandExecuted::success(cmd, 100, meta);

    assert!(event.is_success());
    assert!(!event.is_failed());
    assert_eq!(event.command.value, 42);
    assert_eq!(event.id(), CommandId::new(1));
}

#[test]
fn create_failed_event() {
    let cmd = TestCommand { value: 42 };
    let meta = CommandMeta::new(CommandId::new(2), 2000);

    let event = CommandExecuted::failed(cmd, "oops".to_string(), meta);

    assert!(!event.is_success());
    assert!(event.is_failed());
}

#[test]
fn execution_timer() {
    let timer = ExecutionTimer::start();
    let mut spins: u64 = 0;
    while timer.elapsed() < Duration::from_millis(10) {
        spins += 1;
    }
    let elapsed = timer.elapsed();

    assert!(elapsed >= Duration::from_millis(10));
    assert!(spins > 0);
}

#[test]
fn execution_time_is_attached() {
    let meta = CommandMeta::new(CommandId::new(3), 0);
    let event = CommandExecuted::success(TestCommand { value: 1 }, 5, meta)
        .with_execution_time(Duration::from_millis(7));
    assert_eq!(event.execution_time, Duration::from_millis(7));
    assert_eq!(event.result.ok(), Some(5));
    let zero = CommandExecuted::failed(TestCommand { value: 1 }, "e".to_string(), meta);
    assert_eq!(zero.execution_time, Duration::ZERO);
}

#[test]
fn timestamp_falls_back_to_zero() {
    assert_eq!(timestamp_from(None), 0);
    assert_eq!(timestamp_from(Some(1_700_000_000_123)), 1_700_000_000_123);
    assert_eq!(timestamp_from(Some((1u128 << 64) + 5)), 5);
}
