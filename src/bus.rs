//! The command bus: one FIFO queue of envelopes per command kind.
use crate::clock::{timestamp_from_spec, unix_millis};
use crate::commands::{Command, CommandId, CommandMeta, Envelope};
use vstd::prelude::*;

verus! {

/// A queue of commands of one kind, waiting to be executed.
///
/// The bus hands out identities 1, 2, 3, ... to the commands sent through
/// it and stamps each with the frame last set on it.
pub struct CommandBus<C: Command> {
    queue: Vec<Envelope<C>>,
    next_id: u64,
    current_frame: u64,
}

impl<C: Command> CommandBus<C> {
    /// The envelopes waiting in the queue, oldest first.
    pub closed spec fn pending(&self) -> Seq<Envelope<C>> {
        self.queue@
    }

    /// The identity that the next `send` hands out.
    pub closed spec fn next_identity(&self) -> u64 {
        self.next_id
    }

    /// The frame that the next `send` stamps.
    pub closed spec fn stamp_frame(&self) -> u64 {
        self.current_frame
    }

    /// What sending `command` does to a bus: it is given identity `id`,
    /// the next one, and is appended to the queue stamped with the
    /// current frame.
    pub open spec fn send_step(pre: Self, post: Self, command: C, id: CommandId) -> bool {
        &&& id.0 == pre.next_identity()
        &&& post.next_identity() == pre.next_identity() + 1
        &&& post.stamp_frame() == pre.stamp_frame()
        &&& post.pending().len() == pre.pending().len() + 1
        &&& post.pending().drop_last() == pre.pending()
        &&& post.pending().last().command == command
        &&& post.pending().last().meta.id == id
        &&& post.pending().last().meta.frame == Some(pre.stamp_frame())
    }

    /// An empty bus whose first identity is 1 and whose frame is 0.
    pub fn new() -> (r: Self)
        ensures
            r.pending().len() == 0,
            r.next_identity() == 1,
            r.stamp_frame() == 0,
    {
        CommandBus { queue: Vec::new(), next_id: 1, current_frame: 0 }
    }

    /// Sends a command stamped with the given timestamp and returns the
    /// identity it was given.
    pub fn send_stamped(&mut self, command: C, timestamp_ms: u64) -> (r: CommandId)
        requires
            old(self).next_identity() < u64::MAX,
        ensures
            Self::send_step(*old(self), *final(self), command, r),
            final(self).pending().last().meta.timestamp_ms == timestamp_ms,
    {
        let id = CommandId::new(self.next_id);
        self.next_id = self.next_id + 1;
        let meta = CommandMeta::new(id, timestamp_ms).with_frame(self.current_frame);
        let ghost pre = self.queue@;
        self.queue.push(Envelope::new(command, meta));
        assert(self.queue@.drop_last() == pre);
        id
    }

    /// Sends a command stamped with the wall-clock time, or 0 where the
    /// clock reads before the epoch, and returns the identity it was given.
    pub fn send(&mut self, command: C) -> (r: CommandId)
        requires
            old(self).next_identity() < u64::MAX,
        ensures
            Self::send_step(*old(self), *final(self), command, r),
            exists|millis: Option<u128>|
                final(self).pending().last().meta.timestamp_ms == timestamp_from_spec(millis),
    {
        let now = unix_millis();
        self.send_stamped(command, now)
    }

    /// Enqueues a command with metadata given by the caller, as it is; the
    /// identity counter is neither read nor advanced.
    pub fn send_with_meta(&mut self, command: C, meta: CommandMeta)
        ensures
            final(self).pending() == old(self).pending().push(Envelope { command, meta }),
            final(self).next_identity() == old(self).next_identity(),
            final(self).stamp_frame() == old(self).stamp_frame(),
    {
        self.queue.push(Envelope::new(command, meta));
    }

    /// Removes every waiting envelope and returns them in the order they
    /// were sent.
    pub fn drain(&mut self) -> (r: Vec<Envelope<C>>)
        ensures
            r@ == old(self).pending(),
            final(self).pending().len() == 0,
            final(self).next_identity() == old(self).next_identity(),
            final(self).stamp_frame() == old(self).stamp_frame(),
    {
        let mut taken = Vec::new();
        taken.append(&mut self.queue);
        taken
    }

    /// Whether no envelope is waiting.
    pub fn is_empty(&self) -> (r: bool)
        ensures
            r == (self.pending().len() == 0),
    {
        self.queue.len() == 0
    }

    /// The number of waiting envelopes.
    pub fn len(&self) -> (r: usize)
        ensures
            r == self.pending().len(),
    {
        self.queue.len()
    }

    /// The oldest waiting envelope, left in the queue.
    pub fn peek(&self) -> (r: Option<&Envelope<C>>)
        ensures
            self.pending().len() == 0 ==> r is None,
            self.pending().len() > 0 ==> (r matches Some(e) && *e == self.pending()[0]),
    {
        if self.queue.len() == 0 {
            None
        } else {
            Some(&self.queue[0])
        }
    }

    /// Sets the frame stamped on commands sent from now on; envelopes
    /// already waiting keep theirs.
    pub fn set_frame(&mut self, frame: u64)
        ensures
            final(self).stamp_frame() == frame,
            final(self).pending() == old(self).pending(),
            final(self).next_identity() == old(self).next_identity(),
    {
        self.current_frame = frame;
    }

    /// The frame stamped on commands sent now.
    pub fn frame(&self) -> (r: u64)
        ensures
            r == self.stamp_frame(),
    {
        self.current_frame
    }

    /// Discards every waiting envelope without executing it.
    pub fn clear(&mut self)
        ensures
            final(self).pending().len() == 0,
            final(self).next_identity() == old(self).next_identity(),
            final(self).stamp_frame() == old(self).stamp_frame(),
    {
        self.queue = Vec::new();
    }

    /// Sends to a fresh bus hand out identities 1, 2, 3, ... in send order,
    /// and the queue then holds the commands in send order under those
    /// identities.
    pub proof fn lemma_fresh_bus_order(buses: Seq<Self>, commands: Seq<C>, ids: Seq<CommandId>)
        requires
            buses.len() == commands.len() + 1,
            ids.len() == commands.len(),
            buses[0].next_identity() == 1,
            buses[0].pending().len() == 0,
            forall|i: int|
                0 <= i < commands.len() ==> #[trigger] Self::send_step(
                    buses[i],
                    buses[i + 1],
                    commands[i],
                    ids[i],
                ),
        ensures
            forall|i: int| 0 <= i < ids.len() ==> ids[i].0 == i + 1,
            buses.last().pending().len() == commands.len(),
            forall|i: int|
                0 <= i < commands.len() ==> buses.last().pending()[i].command == commands[i]
                    && buses.last().pending()[i].meta.id == ids[i],
    {
        Self::lemma_sends_prefix(buses, commands, ids, commands.len() as int);
        assert(buses.last() == buses[commands.len() as int]);
    }

    /// The first `k` sends of a sequence, from a fresh bus.
    proof fn lemma_sends_prefix(buses: Seq<Self>, commands: Seq<C>, ids: Seq<CommandId>, k: int)
        requires
            0 <= k <= commands.len(),
            buses.len() == commands.len() + 1,
            ids.len() == commands.len(),
            buses[0].next_identity() == 1,
            buses[0].pending().len() == 0,
            forall|i: int|
                0 <= i < commands.len() ==> #[trigger] Self::send_step(
                    buses[i],
                    buses[i + 1],
                    commands[i],
                    ids[i],
                ),
        ensures
            buses[k].next_identity() == k + 1,
            buses[k].pending().len() == k,
            forall|i: int| 0 <= i < k ==> ids[i].0 == i + 1,
            forall|i: int|
                0 <= i < k ==> (#[trigger] buses[k].pending()[i]).command == commands[i]
                    && buses[k].pending()[i].meta.id == ids[i],
        decreases k,
    {
        if k > 0 {
            Self::lemma_sends_prefix(buses, commands, ids, k - 1);
            assert(Self::send_step(buses[k - 1], buses[k], commands[k - 1], ids[k - 1]));
            assert forall|i: int| 0 <= i < k implies (#[trigger] buses[k].pending()[i]).command
                == commands[i] && buses[k].pending()[i].meta.id == ids[i] by {
                let post = buses[k].pending();
                if i < k - 1 {
                    let pre = buses[k - 1].pending();
                    assert(post.drop_last() == pre);
                    assert(post.drop_last()[i] == post[i]);
                } else {
                    assert(post.last() == post[k - 1]);
                }
            }
        }
    }
}

impl<C: Command> Default for CommandBus<C> {
    /// An empty bus whose first identity is 1 and whose frame is 0.
    fn default() -> (r: Self)
        ensures
            r.pending().len() == 0,
            r.next_identity() == 1,
            r.stamp_frame() == 0,
    {
        Self::new()
    }
}

/// The current logical frame, advanced once per tick by the host loop and
/// handed to each bus with `set_frame`.
#[derive(Debug, Clone, Copy, PartialEq, Eq, Default, Structural)]
pub struct FrameCount(pub u64);

impl FrameCount {
    /// Advances to the next frame.
    pub fn increment(&mut self)
        requires
            old(self).0 < u64::MAX,
        ensures
            final(self).0 == old(self).0 + 1,
    {
        self.0 = self.0 + 1;
    }
}

} // verus!
