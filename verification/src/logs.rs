//! The event buffers: two bounded queues that decouple the hot path from the
//! maintenance path. The read log records "key was read" and may drop events
//! when full (the signal is only a popularity hint); the write log records
//! structural mutations and is never pushed while full. Both are backed by a
//! `crossbeam_channel` bounded channel whose two endpoints are held together,
//! so the queue can neither disconnect nor be observed from outside.

use vstd::prelude::*;

verus! {

/// A buffered structural mutation, consumed exactly once by maintenance.
pub enum WriteOp {
    Insert(String, String),
    Remove(String),
}

/// The mathematical value of a buffered mutation.
pub enum WriteEv {
    Insert(Seq<char>, Seq<char>),
    Remove(Seq<char>),
}

impl View for WriteOp {
    type V = WriteEv;

    open spec fn view(&self) -> WriteEv {
        match self {
            WriteOp::Insert(k, v) => WriteEv::Insert(k@, v@),
            WriteOp::Remove(k) => WriteEv::Remove(k@),
        }
    }
}

/// The read log. The contents, oldest first, are `read_log_items`; the bound
/// it was created with is `read_log_bound`.
#[verifier::external_body]
pub struct ReadLog {
    tx: crossbeam_channel::Sender<String>,
    rx: crossbeam_channel::Receiver<String>,
}

/// The keys buffered in the read log, oldest first.
pub uninterp spec fn read_log_items(q: ReadLog) -> Seq<Seq<char>>;

/// The capacity the read log's channel was created with.
pub uninterp spec fn read_log_bound(q: ReadLog) -> nat;

impl ReadLog {
    /// Relies on crossbeam_channel::bounded: a bounded channel of the given
    /// capacity, created empty.
    #[verifier::external_body]
    pub(crate) fn new(cap: usize) -> (q: ReadLog)
        requires
            cap >= 1,
        ensures
            read_log_items(q) == Seq::<Seq<char>>::empty(),
            read_log_bound(q) == cap as nat,
    {
        let (tx, rx) = crossbeam_channel::bounded(cap);
        ReadLog { tx, rx }
    }

    /// Relies on crossbeam_channel::Receiver::len: the number of messages
    /// currently buffered.
    #[verifier::external_body]
    pub(crate) fn len(&self) -> (n: usize)
        ensures
            n as nat == read_log_items(*self).len(),
    {
        self.rx.len()
    }

    /// Relies on crossbeam_channel::Sender::try_send on a bounded channel
    /// whose receiver is alive: the message is enqueued unless the channel is
    /// full, and a full channel leaves the message behind.
    #[verifier::external_body]
    pub(crate) fn try_push(&mut self, key: &String) -> (ok: bool)
        ensures
            read_log_bound(*final(self)) == read_log_bound(*old(self)),
            read_log_items(*old(self)).len() < read_log_bound(*old(self)) ==> ok
                && read_log_items(*final(self)) == read_log_items(*old(self)).push(key@),
            read_log_items(*old(self)).len() >= read_log_bound(*old(self)) ==> !ok
                && read_log_items(*final(self)) == read_log_items(*old(self)),
    {
        self.tx.try_send(key.clone()).is_ok()
    }

    /// Relies on crossbeam_channel::Receiver::try_recv on a channel whose
    /// sender is alive: the oldest message is removed and returned, or `None`
    /// when the channel is empty.
    #[verifier::external_body]
    pub(crate) fn try_pop(&mut self) -> (r: Option<String>)
        ensures
            read_log_bound(*final(self)) == read_log_bound(*old(self)),
            read_log_items(*old(self)).len() == 0 ==> r is None
                && read_log_items(*final(self)) == read_log_items(*old(self)),
            read_log_items(*old(self)).len() > 0 ==> (r matches Some(k) && k@
                == read_log_items(*old(self))[0] && read_log_items(*final(self))
                == read_log_items(*old(self)).drop_first()),
    {
        self.rx.try_recv().ok()
    }
}

/// The write log. The contents, oldest first, are `write_log_items`; the
/// bound it was created with is `write_log_bound`.
#[verifier::external_body]
pub struct WriteLog {
    tx: crossbeam_channel::Sender<WriteOp>,
    rx: crossbeam_channel::Receiver<WriteOp>,
}

/// The mutations buffered in the write log, oldest first.
pub uninterp spec fn write_log_items(q: WriteLog) -> Seq<WriteEv>;

/// The capacity the write log's channel was created with.
pub uninterp spec fn write_log_bound(q: WriteLog) -> nat;

impl WriteLog {
    /// Relies on crossbeam_channel::bounded: a bounded channel of the given
    /// capacity, created empty.
    #[verifier::external_body]
    pub(crate) fn new(cap: usize) -> (q: WriteLog)
        requires
            cap >= 1,
        ensures
            write_log_items(q) == Seq::<WriteEv>::empty(),
            write_log_bound(q) == cap as nat,
    {
        let (tx, rx) = crossbeam_channel::bounded(cap);
        WriteLog { tx, rx }
    }

    /// Relies on crossbeam_channel::Receiver::len: the number of messages
    /// currently buffered.
    #[verifier::external_body]
    pub(crate) fn len(&self) -> (n: usize)
        ensures
            n as nat == write_log_items(*self).len(),
    {
        self.rx.len()
    }

    /// Relies on crossbeam_channel::Sender::send on a bounded channel whose
    /// receiver is alive: the message is enqueued; on a full channel the call
    /// would block until room is made, so a full log is excluded here and the
    /// caller drains first.
    #[verifier::external_body]
    pub(crate) fn push(&mut self, op: WriteOp)
        requires
            write_log_items(*old(self)).len() < write_log_bound(*old(self)),
        ensures
            write_log_bound(*final(self)) == write_log_bound(*old(self)),
            write_log_items(*final(self)) == write_log_items(*old(self)).push(op@),
    {
        let _ = self.tx.send(op);
    }

    /// Relies on crossbeam_channel::Receiver::try_recv on a channel whose
    /// sender is alive: the oldest message is removed and returned, or `None`
    /// when the channel is empty.
    #[verifier::external_body]
    pub(crate) fn try_pop(&mut self) -> (r: Option<WriteOp>)
        ensures
            write_log_bound(*final(self)) == write_log_bound(*old(self)),
            write_log_items(*old(self)).len() == 0 ==> r is None
                && write_log_items(*final(self)) == write_log_items(*old(self)),
            write_log_items(*old(self)).len() > 0 ==> (r matches Some(op) && op@
                == write_log_items(*old(self))[0] && write_log_items(*final(self))
                == write_log_items(*old(self)).drop_first()),
    {
        self.rx.try_recv().ok()
    }
}

} // verus!
