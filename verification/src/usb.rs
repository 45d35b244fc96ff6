//! Serial message framing.
//!
//! Commands arrive over the USB serial port as raw bytes. A message starts
//! at a `*`, ends at a newline, and may hold at most [`MAX_MESSAGE_SIZE`]
//! bytes in between; bytes outside a message are ignored, and an
//! overlong message is discarded wholesale. The receiver here is the pure
//! state machine of that framing: the embedding program feeds it the bytes
//! it read from the port and forwards the messages that come out.
//!
//! The accumulation buffer is a fixed-capacity `heapless` vector, stored
//! inline without a heap; what each call does to its bytes is stated on
//! small trusted wrappers below and the framing itself is verified.

use vstd::prelude::*;

verus! {

/// Longest message body the receiver accepts, in bytes.
pub const MAX_MESSAGE_SIZE: usize = 256;

#[verifier::external_type_specification]
#[verifier::external_body]
#[verifier::reject_recursive_types(T)]
pub struct ExVec<T, const N: usize>(heapless::Vec<T, N>);

/// The bytes a fixed-capacity vector holds, in order.
pub uninterp spec fn hvec_bytes(v: heapless::Vec<u8, MAX_MESSAGE_SIZE>) -> Seq<u8>;

/// Relies on `heapless::Vec::new`: the fresh vector is empty.
#[verifier::external_body]
fn hvec_new() -> (r: heapless::Vec<u8, MAX_MESSAGE_SIZE>)
    ensures
        hvec_bytes(r) == Seq::<u8>::empty(),
{
    heapless::Vec::new()
}

/// Relies on `heapless::Vec::len` (through its slice view): the number of
/// bytes held.
#[verifier::external_body]
fn hvec_len(v: &heapless::Vec<u8, MAX_MESSAGE_SIZE>) -> (r: usize)
    ensures
        r == hvec_bytes(*v).len(),
{
    v.len()
}

/// Relies on `heapless::Vec::push`: appends the byte when there is room
/// and hands it back untouched when the vector is already full.
#[verifier::external_body]
fn hvec_push(v: &mut heapless::Vec<u8, MAX_MESSAGE_SIZE>, b: u8) -> (r: Result<(), u8>)
    ensures
        match r {
            Ok(_) => hvec_bytes(*old(v)).len() < MAX_MESSAGE_SIZE && hvec_bytes(*final(v))
                == hvec_bytes(*old(v)).push(b),
            Err(back) => hvec_bytes(*old(v)).len() == MAX_MESSAGE_SIZE && back == b && hvec_bytes(
                *final(v),
            ) == hvec_bytes(*old(v)),
        },
{
    v.push(b)
}

/// Relies on `heapless::Vec::clear`: removes every byte.
#[verifier::external_body]
fn hvec_clear(v: &mut heapless::Vec<u8, MAX_MESSAGE_SIZE>)
    ensures
        hvec_bytes(*final(v)) == Seq::<u8>::empty(),
{
    v.clear()
}

/// Relies on `heapless::Vec::as_slice`: a copy of the bytes held, in
/// order.
#[verifier::external_body]
fn hvec_to_vec(v: &heapless::Vec<u8, MAX_MESSAGE_SIZE>) -> (r: Vec<u8>)
    ensures
        r@ == hvec_bytes(*v),
{
    v.as_slice().to_vec()
}

/// How one received byte advances the framing state: the new buffer, the
/// new in-message flag, and the completed message, if this byte ended one.
pub open spec fn frame_step(buf: Seq<u8>, in_message: bool, b: u8) -> (Seq<u8>, bool, Option<
    Seq<u8>,
>) {
    if b == ('*' as u8) {
        (Seq::empty(), true, None::<Seq<u8>>)
    } else if b == ('\n' as u8) && in_message {
        (Seq::empty(), false, Some(buf))
    } else if in_message {
        if buf.len() < MAX_MESSAGE_SIZE {
            (buf.push(b), true, None)
        } else {
            (Seq::empty(), false, None)
        }
    } else {
        (buf, false, None)
    }
}

/// How a whole run of bytes advances the framing state, collecting every
/// completed message in order.
pub open spec fn frame_run(buf: Seq<u8>, in_message: bool, data: Seq<u8>) -> (Seq<u8>, bool, Seq<
    Seq<u8>,
>)
    decreases data.len(),
{
    if data.len() == 0 {
        (buf, in_message, Seq::empty())
    } else {
        let (b1, m1, out1) = frame_step(buf, in_message, data[0]);
        let (b2, m2, outs) = frame_run(b1, m1, data.skip(1));
        (
            b2,
            m2,
            match out1 {
                Some(m) => seq![m] + outs,
                None => outs,
            },
        )
    }
}

/// Receiver of serial command messages: accumulates the bytes between a
/// `*` and the following newline.
pub struct UsbMessageReciver {
    buffer: heapless::Vec<u8, MAX_MESSAGE_SIZE>,
    in_message: bool,
}

impl UsbMessageReciver {
    /// Bytes of the message being accumulated.
    pub closed spec fn spec_buffer(self) -> Seq<u8> {
        hvec_bytes(self.buffer)
    }

    /// Whether a message start has been seen and not yet closed.
    pub closed spec fn spec_in_message(self) -> bool {
        self.in_message
    }

    /// The buffer never outgrows the message limit.
    pub open spec fn wf(self) -> bool {
        self.spec_buffer().len() <= MAX_MESSAGE_SIZE
    }

    /// A receiver that is outside any message.
    pub fn new() -> (r: Self)
        ensures
            r.wf(),
            r.spec_buffer() == Seq::<u8>::empty(),
            !r.spec_in_message(),
    {
        UsbMessageReciver { buffer: hvec_new(), in_message: false }
    }

    /// Feeds one received byte to the receiver; returns the completed
    /// message if this byte was the newline that closed one.
    pub fn push_byte(&mut self, b: u8) -> (r: Option<Vec<u8>>)
        requires
            old(self).wf(),
        ensures
            final(self).wf(),
            ({
                let (nb, nm, out) = frame_step(
                    old(self).spec_buffer(),
                    old(self).spec_in_message(),
                    b,
                );
                &&& final(self).spec_buffer() == nb
                &&& final(self).spec_in_message() == nm
                &&& match r {
                    Some(m) => out == Some(m@),
                    None => out is None,
                }
            }),
    {
        if b == 42 {
            // '*' opens a message and clears anything half-read.
            self.in_message = true;
            hvec_clear(&mut self.buffer);
            None
        } else if b == 10 && self.in_message {
            // A newline closes the message.
            let msg = hvec_to_vec(&self.buffer);
            hvec_clear(&mut self.buffer);
            self.in_message = false;
            Some(msg)
        } else if self.in_message {
            if hvec_len(&self.buffer) < MAX_MESSAGE_SIZE {
                let _pushed = hvec_push(&mut self.buffer, b);
                None
            } else {
                // Overlong message: discard it.
                self.in_message = false;
                hvec_clear(&mut self.buffer);
                None
            }
        } else {
            None
        }
    }

    /// Feeds a batch of received bytes to the receiver and returns the
    /// messages completed along the way, in order.
    pub fn poll(&mut self, data: &Vec<u8>) -> (r: Vec<Vec<u8>>)
        requires
            old(self).wf(),
        ensures
            final(self).wf(),
            ({
                let (nb, nm, outs) = frame_run(
                    old(self).spec_buffer(),
                    old(self).spec_in_message(),
                    data@,
                );
                &&& final(self).spec_buffer() == nb
                &&& final(self).spec_in_message() == nm
                &&& r.deep_view() == outs
            }),
    {
        let ghost buf0 = self.spec_buffer();
        let ghost msg0 = self.spec_in_message();
        let mut out: Vec<Vec<u8>> = Vec::new();
        let n = data.len();
        let mut i: usize = 0;
        proof {
            assert(data@.skip(0) =~= data@);
            assert(out.deep_view() =~= Seq::<Seq<u8>>::empty());
            assert(out.deep_view() + frame_run(buf0, msg0, data@).2 =~= frame_run(
                buf0,
                msg0,
                data@,
            ).2);
        }
        while i < n
            invariant
                i <= n,
                n == data@.len(),
                self.wf(),
                ({
                    let (fb, fm, fo) = frame_run(
                        self.spec_buffer(),
                        self.spec_in_message(),
                        data@.skip(i as int),
                    );
                    frame_run(buf0, msg0, data@) == (fb, fm, out.deep_view() + fo)
                }),
            decreases n - i,
        {
            let ghost rem = data@.skip(i as int);
            let b = data[i];
            let m = self.push_byte(b);
            proof {
                assert(rem[0] == data@[i as int]);
                assert(rem.skip(1) =~= data@.skip(i as int + 1));
            }
            match m {
                Some(msg) => {
                    let ghost outs_before = out.deep_view();
                    proof {
                        assert(msg.deep_view() =~= msg@);
                    }
                    out.push(msg);
                    proof {
                        assert(out.deep_view() =~= outs_before.push(msg@));
                        let (fb, fm, fo) = frame_run(
                            self.spec_buffer(),
                            self.spec_in_message(),
                            data@.skip(i as int + 1),
                        );
                        assert(outs_before + (seq![msg@] + fo) =~= out.deep_view() + fo);
                    }
                },
                None => {
                },
            }
            i = i + 1;
        }
        proof {
            assert(data@.skip(n as int) =~= Seq::<u8>::empty());
            assert(out.deep_view() + Seq::<Seq<u8>>::empty() =~= out.deep_view());
        }
        out
    }
}

} // verus!
