//! Core command types: identities, metadata, envelopes, results and
//! validation errors.
use vstd::prelude::*;

verus! {

/// Identity of one command instance, unique and increasing within one bus.
#[derive(Debug, Clone, Copy, PartialEq, Eq, Hash, Structural)]
pub struct CommandId(pub u64);

impl CommandId {
    /// Creates an identity from its number.
    pub fn new(id: u64) -> (r: Self)
        ensures
            r.0 == id,
    {
        CommandId(id)
    }
}

/// A kind of command: a value that proposes a change of game state.
///
/// Each kind carries its own success output and failure error types, a
/// name used in diagnostics, and a JSON encoding used by the persisted log.
pub trait Command: Sized + Clone {
    /// What a successful execution produces.
    type Output;

    /// What a failed execution produces.
    type Error;

    /// The name of this command kind.
    fn name() -> &'static str;

    /// The JSON text of this command, written as the `command` field of a
    /// persisted log line. It must hold no newline byte.
    fn to_json(&self) -> Vec<u8>;

    /// Reads a command back from the JSON text that `to_json` writes.
    fn from_json(json: &[u8]) -> Option<Self>;
}

/// Whether `to_json` may write `bytes` for `command`.
pub open spec fn encoded_as<C: Command>(command: C, bytes: Seq<u8>) -> bool {
    exists|v: Vec<u8>| v@ == bytes && call_ensures(C::to_json, (&command,), v)
}

/// Whether `from_json` may return `r` when it reads `bytes`.
pub open spec fn decoded_from<C: Command>(bytes: Seq<u8>, r: Option<C>) -> bool {
    exists|s: &[u8]| s@ == bytes && call_ensures(C::from_json, (s,), r)
}

/// The outcome of executing a command.
pub enum CommandResult<C: Command> {
    /// The command executed successfully.
    Success(C::Output),
    /// The command executed and failed.
    Failed(C::Error),
    /// The command was rejected by validation and never executed.
    Rejected(ValidationError),
}

impl<C: Command> CommandResult<C> {
    /// Whether the command succeeded.
    pub fn is_success(&self) -> (r: bool)
        ensures
            r == (self is Success),
    {
        matches!(self, CommandResult::Success(_))
    }

    /// Whether the command failed during execution.
    pub fn is_failed(&self) -> (r: bool)
        ensures
            r == (self is Failed),
    {
        matches!(self, CommandResult::Failed(_))
    }

    /// Whether the command was rejected by validation.
    pub fn is_rejected(&self) -> (r: bool)
        ensures
            r == (self is Rejected),
    {
        matches!(self, CommandResult::Rejected(_))
    }

    /// The success output, if there is one.
    pub fn ok(self) -> (r: Option<C::Output>)
        ensures
            match self {
                CommandResult::Success(out) => r == Some(out),
                _ => r is None,
            },
    {
        match self {
            CommandResult::Success(out) => Some(out),
            _ => None,
        }
    }
}

/// Why a command was rejected before execution.
#[derive(Debug, Clone)]
pub struct ValidationError {
    /// The kind of command that was rejected.
    pub command_type: String,
    /// A human-readable reason.
    pub reason: String,
    /// The field the rejection is about, if it is about one field.
    pub field: Option<String>,
}

/// The text of a validation error: `kind: reason`, or `kind.field: reason`.
pub open spec fn validation_message(
    command_type: Seq<char>,
    field: Option<Seq<char>>,
    reason: Seq<char>,
) -> Seq<char> {
    match field {
        Some(f) => command_type + seq!['.'] + f + seq![':', ' '] + reason,
        None => command_type + seq![':', ' '] + reason,
    }
}

impl ValidationError {
    /// A rejection of the whole command.
    pub fn new(command_type: &str, reason: &str) -> (r: Self)
        ensures
            r.command_type@ == command_type@,
            r.reason@ == reason@,
            r.field is None,
    {
        ValidationError {
            command_type: String::from_str(command_type),
            reason: String::from_str(reason),
            field: None,
        }
    }

    /// A rejection about one field of the command.
    pub fn field(command_type: &str, field: &str, reason: &str) -> (r: Self)
        ensures
            r.command_type@ == command_type@,
            r.reason@ == reason@,
            r.field matches Some(f) && f@ == field@,
    {
        ValidationError {
            command_type: String::from_str(command_type),
            reason: String::from_str(reason),
            field: Some(String::from_str(field)),
        }
    }

    /// The message of this error, as `kind: reason` or `kind.field: reason`.
    pub fn to_string(&self) -> (r: String)
        ensures
            r@ == validation_message(
                self.command_type@,
                match self.field {
                    Some(f) => Some(f@),
                    None => None,
                },
                self.reason@,
            ),
    {
        let mut out = self.command_type.clone();
        match &self.field {
            Some(f) => {
                out.append(".");
                out.append(f.as_str());
            },
            None => {},
        }
        out.append(": ");
        out.append(self.reason.as_str());
        proof {
            reveal_strlit(".");
            reveal_strlit(": ");
        }
        out
    }
}

/// Metadata attached to a command when it enters a bus.
#[derive(Debug, Clone, Copy, PartialEq, Eq, Structural)]
pub struct CommandMeta {
    /// The identity of this command instance.
    pub id: CommandId,
    /// When the command was sent, in milliseconds since the Unix epoch.
    pub timestamp_ms: u64,
    /// The logical frame in which the command was sent, if stamped.
    pub frame: Option<u64>,
}

impl CommandMeta {
    /// Metadata with an identity and a timestamp and no frame.
    pub fn new(id: CommandId, timestamp_ms: u64) -> (r: Self)
        ensures
            r == (CommandMeta { id, timestamp_ms, frame: None }),
    {
        CommandMeta { id, timestamp_ms, frame: None }
    }

    /// The same metadata stamped with a frame.
    pub fn with_frame(self, frame: u64) -> (r: Self)
        ensures
            r == (CommandMeta { frame: Some(frame), ..self }),
    {
        CommandMeta { frame: Some(frame), ..self }
    }
}

/// A command bundled with its metadata.
#[derive(Debug, Clone)]
pub struct Envelope<C> {
    /// The command.
    pub command: C,
    /// When and how the command was sent.
    pub meta: CommandMeta,
}

impl<C: Command> Envelope<C> {
    /// Wraps a command with its metadata.
    pub fn new(command: C, meta: CommandMeta) -> (r: Self)
        ensures
            r.command == command,
            r.meta == meta,
    {
        Envelope { command, meta }
    }
}

} // verus!
