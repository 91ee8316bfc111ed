//! Transport client cores.
//!
//! A transport client owns one live connection.  Its two implicit states
//! are *usable* and *destroyed*: it is destroyed on the first hard I/O
//! failure, never on a protocol-level close.  Every poll is non-blocking:
//! the socket either yields bytes, or nothing is ready, or the connection
//! has broken — the caller reports which as a [`ReadOutcome`], and the core
//! turns it into a [`ReceiveEvent`] of decoded frames.
//!
//! [`StreamClient`] is the stream-transport core: reads arrive at arbitrary
//! boundaries and a streaming decoder stitches frames across them.
//! [`FrameClient`] is the frame-transport core: the transport delivers one
//! whole frame per read, so nothing is stitched.

use crate::codec::{good_frames, json_accepts, json_pred, residual_of, StreamDecoder};
use crate::codec::{filter_valid_frames, frame_is_valid_json};
use vstd::prelude::*;

verus! {

/// What one non-blocking poll of the underlying transport yielded.
pub enum ReadOutcome {
    /// The transport handed over these raw bytes.
    Data(Vec<u8>),
    /// Nothing to read right now; try again next tick.  Not an error.
    WouldBlock,
    /// The connection is broken.
    HardError,
}

/// What a receive call hands the application.
pub enum ReceiveEvent {
    /// No data was available.  Distinct from a batch with zero messages:
    /// here the transport had nothing at all.
    NoData,
    /// Bytes arrived; these are the complete, well-formed frames decoded
    /// from them — possibly none, when the bytes only extend a partial
    /// value.
    Batch(Vec<Vec<u8>>),
    /// The connection broke; this client is destroyed.
    Disconnected,
}

/// Stream-transport client core: a connection whose reads are raw byte
/// runs, decoded by a streaming decoder that keeps partial values across
/// reads.
pub struct StreamClient {
    dec: StreamDecoder,
    alive: bool,
}

impl StreamClient {
    /// The retained bytes of a partial value, waiting for the next read.
    pub closed spec fn buffered(&self) -> Seq<u8> {
        self.dec@
    }

    /// Usable until the first hard failure destroys it.
    pub closed spec fn usable(&self) -> bool {
        self.alive
    }

    /// Whether this client is still usable.
    pub fn is_usable(&self) -> (r: bool)
        ensures
            r == self.usable(),
    {
        self.alive
    }

    /// A fresh, usable client holding no bytes: what `connect` (or a
    /// server-side accept) establishes.
    pub fn new() -> (r: StreamClient)
        ensures
            r.usable(),
            r.buffered() == Seq::<u8>::empty(),
    {
        StreamClient { dec: StreamDecoder::new(), alive: true }
    }

    /// One non-blocking receive.  Nothing ready is `NoData`, never an
    /// error; bytes yield the batch of complete well-formed frames they
    /// finish, with the partial tail retained; a hard failure destroys the
    /// client.
    pub fn receive(&mut self, outcome: ReadOutcome) -> (r: ReceiveEvent)
        requires
            old(self).usable(),
        ensures
            outcome is WouldBlock ==> {
                &&& r is NoData
                &&& *final(self) == *old(self)
            },
            outcome matches ReadOutcome::Data(d) ==> {
                &&& r matches ReceiveEvent::Batch(frames) && frames.deep_view() == good_frames(
                    old(self).buffered() + d@,
                )
                &&& final(self).buffered() == residual_of(old(self).buffered() + d@)
                &&& final(self).usable()
            },
            outcome is HardError ==> {
                &&& r is Disconnected
                &&& !final(self).usable()
            },
    {
        match outcome {
            ReadOutcome::WouldBlock => ReceiveEvent::NoData,
            ReadOutcome::Data(d) => {
                let frames = self.dec.feed(&d);
                ReceiveEvent::Batch(frames)
            },
            ReadOutcome::HardError => {
                self.alive = false;
                ReceiveEvent::Disconnected
            },
        }
    }
}

/// Frame-transport client core: the transport delivers exactly one frame
/// per read in both directions, so no cross-read stitching happens and a
/// read's batch holds at most one message.
pub struct FrameClient {
    alive: bool,
}

impl FrameClient {
    /// Usable until the first hard failure destroys it.
    pub closed spec fn usable(&self) -> bool {
        self.alive
    }

    /// Whether this client is still usable.
    pub fn is_usable(&self) -> (r: bool)
        ensures
            r == self.usable(),
    {
        self.alive
    }

    /// A fresh, usable client.
    pub fn new() -> (r: FrameClient)
        ensures
            r.usable(),
    {
        FrameClient { alive: true }
    }

    /// One non-blocking receive of at most one frame.  A well-formed frame
    /// is a batch of one; a malformed frame is skipped — an empty batch,
    /// not a failure; a hard failure destroys the client.
    pub fn receive(&mut self, outcome: ReadOutcome) -> (r: ReceiveEvent)
        requires
            old(self).usable(),
        ensures
            outcome is WouldBlock ==> {
                &&& r is NoData
                &&& *final(self) == *old(self)
            },
            outcome matches ReadOutcome::Data(d) ==> {
                &&& r matches ReceiveEvent::Batch(frames) && frames.deep_view() == (
                if json_accepts(d@) {
                    seq![d@]
                } else {
                    Seq::<Seq<u8>>::empty()
                })
                &&& final(self).usable()
            },
            outcome is HardError ==> {
                &&& r is Disconnected
                &&& !final(self).usable()
            },
    {
        match outcome {
            ReadOutcome::WouldBlock => ReceiveEvent::NoData,
            ReadOutcome::Data(d) => {
                let mut frames: Vec<Vec<u8>> = Vec::new();
                if frame_is_valid_json(&d) {
                    frames.push(d);
                    proof {
                        assert(frames.deep_view() =~~= seq![frames@[0]@]);
                    }
                } else {
                    proof {
                        assert(frames.deep_view() =~~= Seq::<Seq<u8>>::empty());
                    }
                }
                ReceiveEvent::Batch(frames)
            },
            ReadOutcome::HardError => {
                self.alive = false;
                ReceiveEvent::Disconnected
            },
        }
    }

    /// Receive from a transport that posts frames into a shared buffer on
    /// its own schedule (a browser socket's message callbacks): the caller
    /// drains that buffer and hands the posted frames here.  No frames is
    /// `NoData`; otherwise the well-formed ones come through in posting
    /// order and the malformed ones are skipped.
    pub fn receive_posted(&mut self, packets: Vec<Vec<u8>>) -> (r: ReceiveEvent)
        requires
            old(self).usable(),
        ensures
            *final(self) == *old(self),
            packets@.len() == 0 ==> r is NoData,
            packets@.len() > 0 ==> (r matches ReceiveEvent::Batch(frames) && frames.deep_view()
                == packets.deep_view().filter(json_pred())),
    {
        if packets.len() == 0 {
            ReceiveEvent::NoData
        } else {
            ReceiveEvent::Batch(filter_valid_frames(&packets))
        }
    }
}

} // verus!
