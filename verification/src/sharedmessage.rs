//! Bounded message queues shared between the two cores.
//!
//! Messages produced on one core are handed to the other through a small
//! log queue. Because the queue is guarded by a hardware spinlock that may
//! be busy, a second, private buffer holds messages until the lock can be
//! taken; both are fixed-capacity deques that drop their oldest entry when
//! full. Whether the lock was won is decided by the hardware, so the
//! embedding program passes that outcome in as a plain boolean.
//!
//! The deques themselves come from the `heapless` crate, which stores them
//! inline without a heap; what each call does to their contents is stated
//! on small trusted wrappers below and everything around them is verified.

use vstd::prelude::*;

verus! {

use crate::usb::MAX_MESSAGE_SIZE;
use heapless::Deque;

/// Capacity of the private holding buffer, in messages.
pub const MAX_BUFFER_SIZE: usize = 8;

/// Capacity of the shared log queue, in messages.
pub const MAX_QUEUE_SIZE: usize = 8;

#[verifier::external_type_specification]
#[verifier::external_body]
#[verifier::reject_recursive_types(T)]
pub struct ExDeque<T, const N: usize>(Deque<T, N>);

/// The messages a deque holds, front first, each as its byte sequence.
pub uninterp spec fn deque_msgs(d: Deque<Vec<u8>, MAX_QUEUE_SIZE>) -> Seq<Seq<u8>>;

/// Relies on `heapless::Deque::new`: the fresh deque is empty.
#[verifier::external_body]
fn deque_new() -> (r: Deque<Vec<u8>, MAX_QUEUE_SIZE>)
    ensures
        deque_msgs(r) == Seq::<Seq<u8>>::empty(),
{
    Deque::new()
}

/// Relies on `heapless::Deque::len`: the number of elements held.
#[verifier::external_body]
fn deque_len(d: &Deque<Vec<u8>, MAX_QUEUE_SIZE>) -> (r: usize)
    ensures
        r == deque_msgs(*d).len(),
{
    d.len()
}

/// Relies on `heapless::Deque::push_back`: appends the item when there is
/// room and hands it back untouched when the deque is already full.
#[verifier::external_body]
fn deque_push_back(d: &mut Deque<Vec<u8>, MAX_QUEUE_SIZE>, item: Vec<u8>) -> (r: Result<
    (),
    Vec<u8>,
>)
    ensures
        match r {
            Ok(_) => deque_msgs(*old(d)).len() < MAX_QUEUE_SIZE && deque_msgs(*final(d))
                == deque_msgs(*old(d)).push(item@),
            Err(back) => deque_msgs(*old(d)).len() == MAX_QUEUE_SIZE && back == item && deque_msgs(
                *final(d),
            ) == deque_msgs(*old(d)),
        },
{
    d.push_back(item)
}

/// Relies on `heapless::Deque::pop_front`: removes and returns the front
/// element, or returns nothing when the deque is empty.
#[verifier::external_body]
fn deque_pop_front(d: &mut Deque<Vec<u8>, MAX_QUEUE_SIZE>) -> (r: Option<Vec<u8>>)
    ensures
        match r {
            Some(m) => deque_msgs(*old(d)).len() > 0 && m@ == deque_msgs(*old(d))[0] && deque_msgs(
                *final(d),
            ) == deque_msgs(*old(d)).skip(1),
            None => deque_msgs(*old(d)).len() == 0 && deque_msgs(*final(d)) == deque_msgs(*old(d)),
        },
{
    d.pop_front()
}

/// Appends `m` to `q`, dropping the oldest entry first when `q` already
/// holds `cap` messages.
pub open spec fn pushed_bounded(q: Seq<Seq<u8>>, m: Seq<u8>, cap: int) -> Seq<Seq<u8>> {
    if q.len() >= cap {
        q.skip(1).push(m)
    } else {
        q.push(m)
    }
}

/// Moves every message of `b`, oldest first, into `q` under the bounded
/// push discipline.
pub open spec fn rotated(q: Seq<Seq<u8>>, b: Seq<Seq<u8>>) -> Seq<Seq<u8>>
    decreases b.len(),
{
    if b.len() == 0 {
        q
    } else {
        rotated(pushed_bounded(q, b[0], MAX_QUEUE_SIZE as int), b.skip(1))
    }
}

/// The message store behind the inter-core log: a holding buffer for
/// moments when the shared side is locked, and the queue itself.
pub struct SharedString {
    buffer: Deque<Vec<u8>, MAX_BUFFER_SIZE>,
    queue: Deque<Vec<u8>, MAX_QUEUE_SIZE>,
}

impl SharedString {
    /// Messages waiting for the lock, oldest first.
    pub closed spec fn spec_buffer(self) -> Seq<Seq<u8>> {
        deque_msgs(self.buffer)
    }

    /// Messages queued for the other core, oldest first.
    pub closed spec fn spec_queue(self) -> Seq<Seq<u8>> {
        deque_msgs(self.queue)
    }

    /// Both stores respect their capacities and every message fits the
    /// serial message limit.
    pub open spec fn wf(self) -> bool {
        &&& self.spec_buffer().len() <= MAX_BUFFER_SIZE
        &&& self.spec_queue().len() <= MAX_QUEUE_SIZE
        &&& forall|i: int|
            0 <= i < self.spec_buffer().len() ==> (#[trigger] self.spec_buffer()[i]).len()
                <= MAX_MESSAGE_SIZE
        &&& forall|i: int|
            0 <= i < self.spec_queue().len() ==> (#[trigger] self.spec_queue()[i]).len()
                <= MAX_MESSAGE_SIZE
    }

    /// An empty store.
    pub fn new() -> (r: Self)
        ensures
            r.wf(),
            r.spec_buffer() == Seq::<Seq<u8>>::empty(),
            r.spec_queue() == Seq::<Seq<u8>>::empty(),
    {
        SharedString { buffer: deque_new(), queue: deque_new() }
    }

    /// Accepts one message: with the lock in hand the holding buffer is
    /// flushed into the queue and the message follows it there; without
    /// the lock the message waits in the holding buffer.
    pub fn push_message(&mut self, msg: Vec<u8>, lock_acquired: bool)
        requires
            old(self).wf(),
            msg@.len() <= MAX_MESSAGE_SIZE,
        ensures
            final(self).wf(),
            lock_acquired ==> final(self).spec_buffer() == Seq::<Seq<u8>>::empty()
                && final(self).spec_queue() == pushed_bounded(
                rotated(old(self).spec_queue(), old(self).spec_buffer()),
                msg@,
                MAX_QUEUE_SIZE as int,
            ),
            !lock_acquired ==> final(self).spec_queue() == old(self).spec_queue() && final(self).spec_buffer() == pushed_bounded(
                old(self).spec_buffer(),
                msg@,
                MAX_BUFFER_SIZE as int,
            ),
    {
        if lock_acquired {
            self.rotate_buffer();
            self.push_queue(msg);
        } else {
            self.push_buffer(msg);
        }
    }

    /// Moves everything in the holding buffer into the queue, oldest
    /// first.
    fn rotate_buffer(&mut self)
        requires
            old(self).wf(),
        ensures
            final(self).wf(),
            final(self).spec_buffer() == Seq::<Seq<u8>>::empty(),
            final(self).spec_queue() == rotated(old(self).spec_queue(), old(self).spec_buffer()),
    {
        let ghost q0 = self.spec_queue();
        let ghost b0 = self.spec_buffer();
        loop
            invariant
                self.wf(),
                q0 == old(self).spec_queue(),
                b0 == old(self).spec_buffer(),
                rotated(q0, b0) == rotated(self.spec_queue(), self.spec_buffer()),
            decreases self.spec_buffer().len(),
        {
            match deque_pop_front(&mut self.buffer) {
                Some(msg) => {
                    self.push_queue(msg);
                },
                None => {
                    proof {
                        assert(self.spec_buffer() =~= Seq::<Seq<u8>>::empty());
                        assert(rotated(self.spec_queue(), self.spec_buffer())
                            == self.spec_queue());
                    }
                    return ;
                },
            }
        }
    }

    /// Puts one message into the holding buffer, dropping the oldest
    /// waiting message if the buffer is full.
    fn push_buffer(&mut self, msg: Vec<u8>)
        requires
            old(self).wf(),
            msg@.len() <= MAX_MESSAGE_SIZE,
        ensures
            final(self).wf(),
            final(self).spec_queue() == old(self).spec_queue(),
            final(self).spec_buffer() == pushed_bounded(
                old(self).spec_buffer(),
                msg@,
                MAX_BUFFER_SIZE as int,
            ),
    {
        if deque_len(&self.buffer) >= MAX_BUFFER_SIZE {
            let _dropped = deque_pop_front(&mut self.buffer);
        }
        let _pushed = deque_push_back(&mut self.buffer, msg);
    }

    /// Puts one message into the queue, dropping the oldest queued
    /// message if the queue is full.
    fn push_queue(&mut self, msg: Vec<u8>)
        requires
            old(self).wf(),
            msg@.len() <= MAX_MESSAGE_SIZE,
        ensures
            final(self).wf(),
            final(self).spec_buffer() == old(self).spec_buffer(),
            final(self).spec_queue() == pushed_bounded(
                old(self).spec_queue(),
                msg@,
                MAX_QUEUE_SIZE as int,
            ),
    {
        if deque_len(&self.queue) >= MAX_QUEUE_SIZE {
            let _dropped = deque_pop_front(&mut self.queue);
        }
        let _pushed = deque_push_back(&mut self.queue, msg);
    }

    /// Flushes the holding buffer into the queue, if the lock was won;
    /// without the lock nothing moves.
    pub fn flush_queue(&mut self, lock_acquired: bool)
        requires
            old(self).wf(),
        ensures
            final(self).wf(),
            lock_acquired ==> final(self).spec_buffer() == Seq::<Seq<u8>>::empty()
                && final(self).spec_queue() == rotated(
                old(self).spec_queue(),
                old(self).spec_buffer(),
            ),
            !lock_acquired ==> final(self).spec_buffer() == old(self).spec_buffer() && final(self).spec_queue() == old(self).spec_queue(),
    {
        if lock_acquired {
            self.rotate_buffer();
        }
    }

    /// Takes the oldest queued message, if any.
    pub fn queue_pop(&mut self) -> (r: Option<Vec<u8>>)
        requires
            old(self).wf(),
        ensures
            final(self).wf(),
            final(self).spec_buffer() == old(self).spec_buffer(),
            match r {
                Some(m) => old(self).spec_queue().len() > 0 && m@ == old(self).spec_queue()[0]
                    && final(self).spec_queue() == old(self).spec_queue().skip(1),
                None => old(self).spec_queue().len() == 0 && final(self).spec_queue() == old(self).spec_queue(),
            },
    {
        deque_pop_front(&mut self.queue)
    }

    /// Empties the queue and hands out everything it held, oldest first.
    pub fn drain_all(&mut self) -> (r: Vec<Vec<u8>>)
        requires
            old(self).wf(),
        ensures
            final(self).wf(),
            final(self).spec_buffer() == old(self).spec_buffer(),
            final(self).spec_queue() == Seq::<Seq<u8>>::empty(),
            r.deep_view() == old(self).spec_queue(),
    {
        let ghost q0 = self.spec_queue();
        let mut msgs: Vec<Vec<u8>> = Vec::new();
        proof {
            assert(msgs.deep_view() =~= Seq::<Seq<u8>>::empty());
            assert(msgs.deep_view() + q0 =~= q0);
        }
        loop
            invariant
                self.wf(),
                self.spec_buffer() == old(self).spec_buffer(),
                q0 == old(self).spec_queue(),
                q0 == msgs.deep_view() + self.spec_queue(),
            decreases self.spec_queue().len(),
        {
            let ghost pre = msgs.deep_view();
            let ghost qpre = self.spec_queue();
            match deque_pop_front(&mut self.queue) {
                Some(m) => {
                    proof {
                        assert(m.deep_view() =~= m@);
                    }
                    msgs.push(m);
                    proof {
                        assert(msgs.deep_view() =~= pre.push(m@));
                        assert(qpre =~= seq![m@] + qpre.skip(1));
                        assert(pre.push(m@) + qpre.skip(1) =~= pre + qpre);
                    }
                },
                None => {
                    proof {
                        assert(self.spec_queue() =~= Seq::<Seq<u8>>::empty());
                        assert(msgs.deep_view() + self.spec_queue() =~= msgs.deep_view());
                    }
                    return msgs;
                },
            }
        }
    }
}

} // verus!
