use roguebench_commands::bus::CommandBus;
use roguebench_commands::commands::{Command, CommandId, CommandMeta};

#[derive(Clone, Debug, PartialEq)]
struct TestCommand {
    value: i32,
}

impl Command for TestCommand {
    type Output = ();
    type Error = String;

    fn name() -> &'static str {
        "test"
    }

    fn to_json(&self) -> Vec<u8> {
        format!("{{\"value\":{}}}", self.value).into_bytes()
    }

    fn from_json(json: &[u8]) -> Option<Self> {
        let v: serde_json::Value = serde_json::from_slice(json).ok()?;
        let value = i32::try_from(v.get("value")?.as_i64()?).ok()?;
        Some(TestCommand { value })
    }
}

#[derive(Clone, Debug)]
struct HealTarget {
    amount: i32,
}

impl Command for HealTarget {
    type Output = i32;
    type Error = String;

    fn name() -> &'static str {
        "heal_target"
    }

    fn to_json(&self) -> Vec<u8> {
        format!("{{\"amount\":{}}}", self.amount).into_bytes()
    }

    fn from_json(json: &[u8]) -> Option<Self> {
        let v: serde_json::Value = serde_json::from_slice(json).ok()?;
        let amount = i32::try_from(v.get("amount")?.as_i64()?).ok()?;
        Some(HealTarget { amount })
    }
}

#[test]
fn send_and_drain() {
    let mut bus = CommandBus::<TestCommand>::new();

    assert!(bus.is_empty());
    assert_eq!(bus.len(), 0);

    let id1 = bus.send(TestCommand { value: 1 });
    let id2 = bus.send(TestCommand { value: 2 });

    assert!(!bus.is_empty());
    assert_eq!(bus.len(), 2);
    assert_ne!(id1, id2);

    let commands: Vec<_> = bus.drain();
    assert_eq!(commands.len(), 2);
    assert_eq!(commands[0].command.value, 1);
    assert_eq!(commands[1].command.value, 2);

    assert!(bus.is_empty());
}

#[test]
fn command_ids_are_sequential() {
    let mut bus = CommandBus::<TestCommand>::new();

    let id1 = bus.send(TestCommand { value: 1 });
    let id2 = bus.send(TestCommand { value: 2 });
    let id3 = bus.send(TestCommand { value: 3 });

    assert_eq!(id1.0, 1);
    assert_eq!(id2.0, 2);
    assert_eq!(id3.0, 3);
}

#[test]
fn bus_frame_tracking() {
    let mut bus = CommandBus::<TestCommand>::new();

    bus.set_frame(100);
    bus.send(TestCommand { value: 1 });

    bus.set_frame(101);
    bus.send(TestCommand { value: 2 });

    let commands: Vec<_> = bus.drain();
    assert_eq!(commands[0].meta.frame, Some(100));
    assert_eq!(commands[1].meta.frame, Some(101));
}

#[test]
fn peek_without_remove() {
    let mut bus = CommandBus::<TestCommand>::new();
    bus.send(TestCommand { value: 42 });

    assert_eq!(bus.peek().unwrap().command.value, 42);
    assert_eq!(bus.len(), 1); // Still in queue
}

#[test]
fn clear_queue() {
    let mut bus = CommandBus::<TestCommand>::new();
    bus.send(TestCommand { value: 1 });
    bus.send(TestCommand { value: 2 });

    assert_eq!(bus.len(), 2);
    bus.clear();
    assert!(bus.is_empty());
}

#[test]
fn send_with_custom_meta() {
    let mut bus = CommandBus::<TestCommand>::new();

    let meta = CommandMeta::new(CommandId::new(999), 12345);
    bus.send_with_meta(TestCommand { value: 42 }, meta);

    let envelope = bus.drain().into_iter().next().unwrap();
    assert_eq!(envelope.meta.id, CommandId::new(999));
    assert_eq!(envelope.meta.timestamp_ms, 12345);
}

#[test]
fn command_ids_unique() {
    let mut bus = CommandBus::<TestCommand>::new();
    let mut ids = Vec::new();
    for i in 0..5 {
        ids.push(bus.send(TestCommand { value: i }));
    }

    // All IDs should be unique
    for i in 0..ids.len() {
        for j in (i + 1)..ids.len() {
            assert_ne!(ids[i], ids[j]);
        }
    }

    // IDs should be sequential
    for i in 1..ids.len() {
        assert_eq!(ids[i].0, ids[i - 1].0 + 1);
    }
}

#[test]
fn multiple_command_types() {
    let mut damage_bus = CommandBus::<TestCommand>::new();
    let mut heal_bus = CommandBus::<HealTarget>::new();
    damage_bus.send(TestCommand { value: 10 });
    heal_bus.send(HealTarget { amount: 20 });

    assert_eq!(damage_bus.len(), 1);
    assert_eq!(heal_bus.len(), 1);
    // Kinds never share an identity counter.
    assert_eq!(heal_bus.drain()[0].meta.id, CommandId::new(1));
    assert_eq!(damage_bus.drain()[0].meta.id, CommandId::new(1));
}

#[test]
fn fresh_bus_hands_out_one_to_n() {
    let mut bus = CommandBus::<TestCommand>::new();
    let ids: Vec<u64> = (0..10).map(|i| bus.send(TestCommand { value: i }).0).collect();
    assert_eq!(ids, (1..=10).collect::<Vec<u64>>());
}

#[test]
fn drain_yields_send_order_and_empties() {
    let mut bus = CommandBus::<TestCommand>::new();
    assert!(bus.drain().is_empty());
    for v in [5, 3, 9, 1] {
        bus.send(TestCommand { value: v });
    }
    let values: Vec<i32> = bus.drain().iter().map(|e| e.command.value).collect();
    assert_eq!(values, vec![5, 3, 9, 1]);
    assert!(bus.is_empty());
    assert!(bus.drain().is_empty());
}

#[test]
fn send_with_meta_leaves_counter_alone() {
    let mut bus = CommandBus::<TestCommand>::new();
    let meta = CommandMeta::new(CommandId::new(500), 77).with_frame(3);
    bus.send_with_meta(TestCommand { value: 1 }, meta);
    let id = bus.send(TestCommand { value: 2 });
    assert_eq!(id, CommandId::new(1));
    let drained = bus.drain();
    assert_eq!(drained[0].meta, meta);
}

#[test]
fn frames_scenario_values_and_frames() {
    let mut bus = CommandBus::<TestCommand>::new();
    bus.set_frame(100);
    bus.send(TestCommand { value: 1 });
    bus.send(TestCommand { value: 2 });
    bus.set_frame(101);
    bus.send(TestCommand { value: 3 });
    let drained = bus.drain();
    let values: Vec<i32> = drained.iter().map(|e| e.command.value).collect();
    let frames: Vec<Option<u64>> = drained.iter().map(|e| e.meta.frame).collect();
    assert_eq!(values, vec![1, 2, 3]);
    assert_eq!(frames, vec![Some(100), Some(100), Some(101)]);
}

#[test]
fn send_stamped_uses_given_time() {
    let mut bus = CommandBus::<TestCommand>::new();
    bus.set_frame(4);
    let id = bus.send_stamped(TestCommand { value: 8 }, 123_456);
    assert_eq!(id, CommandId::new(1));
    assert_eq!(bus.frame(), 4);
    let e = bus.drain();
    assert_eq!(
        e[0].meta,
        CommandMeta::new(CommandId::new(1), 123_456).with_frame(4)
    );
}

#[test]
fn set_frame_does_not_restamp_queued() {
    let mut bus = CommandBus::<TestCommand>::new();
    bus.send(TestCommand { value: 1 });
    bus.set_frame(9);
    assert_eq!(bus.peek().unwrap().meta.frame, Some(0));
    assert!(CommandBus::<TestCommand>::new().peek().is_none());
}

#[test]
fn frame_count_increments() {
    let mut frame_count = roguebench_commands::bus::FrameCount::default();
    frame_count.increment();
    assert_eq!(frame_count.0, 1);
    frame_count.increment();
    assert_eq!(frame_count.0, 2);

    let mut bus = CommandBus::<TestCommand>::new();
    bus.set_frame(frame_count.0);
    bus.send(TestCommand { value: 1 });
    assert_eq!(bus.drain()[0].meta.frame, Some(2));
}

#[test]
fn default_bus_is_fresh() {
    let mut bus: CommandBus<TestCommand> = Default::default();
    assert!(bus.is_empty());
    assert_eq!(bus.frame(), 0);
    assert_eq!(bus.send(TestCommand { value: 1 }), CommandId::new(1));
}
