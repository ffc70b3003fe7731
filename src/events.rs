//! Execution records: what an executor reports after acting on a drained
//! envelope.
use crate::commands::{Command, CommandId, CommandMeta, CommandResult};
use std::time::{Duration, Instant};
use vstd::prelude::*;

verus! {

/// The record of one executed command.
pub struct CommandExecuted<C: Command> {
    /// The command that was executed.
    pub command: C,
    /// The outcome of execution.
    pub result: CommandResult<C>,
    /// Its metadata from when it was sent.
    pub meta: CommandMeta,
    /// How long execution took.
    pub execution_time: Duration,
}

impl<C: Command> CommandExecuted<C> {
    /// A record made of all its parts.
    pub fn new(
        command: C,
        result: CommandResult<C>,
        meta: CommandMeta,
        execution_time: Duration,
    ) -> (r: Self)
        ensures
            r == (CommandExecuted { command, result, meta, execution_time }),
    {
        CommandExecuted { command, result, meta, execution_time }
    }

    /// The record of a successful execution, with no execution time yet.
    pub fn success(command: C, output: C::Output, meta: CommandMeta) -> (r: Self)
        ensures
            r.command == command,
            r.result == CommandResult::<C>::Success(output),
            r.meta == meta,
    {
        CommandExecuted {
            command,
            result: CommandResult::Success(output),
            meta,
            execution_time: Duration::from_millis(0),
        }
    }

    /// The record of a failed execution, with no execution time yet.
    pub fn failed(command: C, error: C::Error, meta: CommandMeta) -> (r: Self)
        ensures
            r.command == command,
            r.result == CommandResult::<C>::Failed(error),
            r.meta == meta,
    {
        CommandExecuted {
            command,
            result: CommandResult::Failed(error),
            meta,
            execution_time: Duration::from_millis(0),
        }
    }

    /// The same record with its execution time set.
    pub fn with_execution_time(self, time: Duration) -> (r: Self)
        ensures
            r == (CommandExecuted { execution_time: time, ..self }),
    {
        CommandExecuted { execution_time: time, ..self }
    }

    /// Whether the command succeeded.
    pub fn is_success(&self) -> (r: bool)
        ensures
            r == (self.result is Success),
    {
        self.result.is_success()
    }

    /// Whether the command failed during execution.
    pub fn is_failed(&self) -> (r: bool)
        ensures
            r == (self.result is Failed),
    {
        self.result.is_failed()
    }

    /// The identity of the executed command.
    pub fn id(&self) -> (r: CommandId)
        ensures
            r == self.meta.id,
    {
        self.meta.id
    }
}

/// Measures how long an execution takes, from a starting reading of the
/// monotonic clock.
pub struct ExecutionTimer {
    start: Instant,
}

impl ExecutionTimer {
    /// Starts timing now.
    pub fn start() -> Self {
        ExecutionTimer { start: Instant::now() }
    }

    /// The time elapsed since the timer started.
    pub fn elapsed(&self) -> Duration {
        self.start.elapsed()
    }
}

} // verus!
