//! The `defmt` global logger's state: a frame encoder whose output goes to
//! both the RTT channel and the USB double buffer, guarded against
//! re-entrant use.

use vstd::prelude::*;
use crate::rtt::{RttChannel, MODE_NON_BLOCKING_TRIM, RTT_BUF_SIZE};
use crate::rtt::{lemma_pending_below_size, lemma_wrote_all_then, lemma_wrote_all_short_extend};
use crate::usb_log::{views, Controller, ControllerView};
use vstd::slice::slice_to_vec;

verus! {

#[verifier::external_type_specification]
#[verifier::external_body]
pub struct ExEncoder(defmt::Encoder);

/// Appends `bytes` to `out`.
pub fn append_bytes(out: &mut Vec<u8>, bytes: &[u8])
    ensures
        final(out)@ == old(out)@ + bytes@,
{
    let mut k: usize = 0;
    while k < bytes.len()
        invariant
            k <= bytes@.len(),
            out@ == old(out)@ + bytes@.subrange(0, k as int),
        decreases bytes@.len() - k,
    {
        out.push(bytes[k]);
        k = k + 1;
        assert(out@ =~= old(out)@ + bytes@.subrange(0, k as int));
    }
    assert(bytes@.subrange(0, k as int) =~= bytes@);
}

/// Calls `defmt::Encoder::new`: an encoder that has not started any frame.
#[verifier::external_body]
fn encoder_new() -> (e: defmt::Encoder) {
    defmt::Encoder::new()
}

/// Appends a copy of `piece` to the list `out`.
pub fn push_piece(out: &mut Vec<Vec<u8>>, piece: &[u8])
    ensures
        views(final(out)@) == views(old(out)@).push(piece@),
{
    let v = slice_to_vec(piece);
    let ghost pv = v@;
    out.push(v);
    assert(views(out@) =~= views(old(out)@).push(pv));
}

/// The pieces that `defmt::Encoder::start_frame` hands to its sink, in order,
/// from an encoder in state `e`, and the encoder's state afterwards.
pub uninterp spec fn encoder_start_frame_result(e: defmt::Encoder) -> (Seq<Seq<u8>>, defmt::Encoder);

/// The pieces that `defmt::Encoder::write` hands to its sink, in order, for
/// `data` from an encoder in state `e`, and the encoder's state afterwards.
pub uninterp spec fn encoder_write_result(e: defmt::Encoder, data: Seq<u8>) -> (Seq<Seq<u8>>, defmt::Encoder);

/// The pieces that `defmt::Encoder::end_frame` hands to its sink, in order,
/// from an encoder in state `e`, and the encoder's state afterwards.
pub uninterp spec fn encoder_end_frame_result(e: defmt::Encoder) -> (Seq<Seq<u8>>, defmt::Encoder);

/// Calls `defmt::Encoder::start_frame` and returns the pieces it handed to
/// its sink, one entry per call of the sink. They and the encoder's next
/// state depend only on its state before the call (and on the encoding
/// `defmt` was built with); what they are is not spelled out.
#[verifier::external_body]
fn encoder_start_frame(encoder: &mut defmt::Encoder) -> (out: Vec<Vec<u8>>)
    ensures
        (views(out@), *final(encoder)) == encoder_start_frame_result(*old(encoder)),
{
    let mut out: Vec<Vec<u8>> = Vec::new();
    encoder.start_frame(|b: &[u8]| push_piece(&mut out, b));
    out
}

/// Calls `defmt::Encoder::write` on `data` and returns the pieces it handed
/// to its sink, one entry per call of the sink. They and the encoder's next
/// state depend only on its state before the call and on `data` (and on the
/// encoding `defmt` was built with); what they are is not spelled out.
#[verifier::external_body]
fn encoder_write(encoder: &mut defmt::Encoder, data: &[u8]) -> (out: Vec<Vec<u8>>)
    ensures
        (views(out@), *final(encoder)) == encoder_write_result(*old(encoder), data@),
{
    let mut out: Vec<Vec<u8>> = Vec::new();
    encoder.write(data, |b: &[u8]| push_piece(&mut out, b));
    out
}

/// Calls `defmt::Encoder::end_frame` and returns the pieces it handed to its
/// sink, one entry per call of the sink. They and the encoder's next state
/// depend only on its state before the call (and on the encoding `defmt`
/// was built with); what they are is not spelled out.
#[verifier::external_body]
fn encoder_end_frame(encoder: &mut defmt::Encoder) -> (out: Vec<Vec<u8>>)
    ensures
        (views(out@), *final(encoder)) == encoder_end_frame_result(*old(encoder)),
{
    let mut out: Vec<Vec<u8>> = Vec::new();
    encoder.end_frame(|b: &[u8]| push_piece(&mut out, b));
    out
}

/// What one step of the logger sent on: the encoded pieces, in the order
/// the encoder emitted them, and how many of their bytes (in that order)
/// the RTT channel took. In blocking mode the rest waits until the host has
/// read; in non-blocking mode it is skipped.
pub struct SinkReport {
    pub pieces: Vec<Vec<u8>>,
    pub rtt_written: usize,
}

impl SinkReport {
    /// All encoded bytes, piece after piece.
    pub open spec fn encoded(&self) -> Seq<u8> {
        views(self.pieces@).flatten()
    }
}

/// The logger: the re-entrancy flag, the frame encoder, and the two sinks.
pub struct MultiEncoder {
    taken: bool,
    encoder: defmt::Encoder,
    rtt: RttChannel,
    controller: Controller,
}

impl MultiEncoder {
    /// Whether a frame is being logged.
    pub closed spec fn is_taken(&self) -> bool {
        self.taken
    }

    /// The frame encoder's state.
    pub closed spec fn encoder_state(&self) -> defmt::Encoder {
        self.encoder
    }

    /// The RTT sink.
    pub closed spec fn rtt_sink(&self) -> RttChannel {
        self.rtt
    }

    /// The USB sink.
    pub closed spec fn usb_sink(&self) -> Controller {
        self.controller
    }

    /// The sinks after `report` went to them: the encoded bytes were written
    /// to the RTT channel (as far as it took them) and to the double buffer.
    pub open spec fn sent(self, after: MultiEncoder, report: SinkReport) -> bool {
        &&& self.rtt_sink().wrote_all(after.rtt_sink(), report.encoded(), report.rtt_written as int)
        &&& after.usb_sink()@ == self.usb_sink()@.after_writes(views(report.pieces@))
    }

    /// A logger with no frame in progress, a fresh encoder, an empty RTT
    /// channel and an empty double buffer.
    pub fn new() -> (m: Self)
        ensures
            m.rtt_sink().wf(),
            !m.is_taken(),
            m.rtt_sink().write_pos() == 0,
            m.rtt_sink().read_pos() == 0,
            m.rtt_sink().flags_val() == MODE_NON_BLOCKING_TRIM,
            m.rtt_sink().buf() == Seq::new(RTT_BUF_SIZE as nat, |i: int| 0u8),
            m.usb_sink()@ == Controller::new_view(),
    {
        MultiEncoder {
            taken: false,
            encoder: encoder_new(),
            rtt: RttChannel::new(),
            controller: Controller::new(),
        }
    }

    /// Whether a frame is being logged.
    pub fn taken(&self) -> (r: bool)
        ensures
            r == self.is_taken(),
    {
        self.taken
    }

    /// The RTT sink, for the host side to update and read.
    pub fn rtt_mut(&mut self) -> (r: &mut RttChannel)
        ensures
            *r == old(self).rtt_sink(),
            final(self).rtt_sink() == *final(r),
            final(self).usb_sink() == old(self).usb_sink(),
            final(self).is_taken() == old(self).is_taken(),
            final(self).encoder_state() == old(self).encoder_state(),
    {
        &mut self.rtt
    }

    /// The USB sink, for the USB task to drain.
    pub fn controller_mut(&mut self) -> (r: &mut Controller)
        ensures
            *r == old(self).usb_sink(),
            final(self).usb_sink() == *final(r),
            final(self).rtt_sink() == old(self).rtt_sink(),
            final(self).is_taken() == old(self).is_taken(),
            final(self).encoder_state() == old(self).encoder_state(),
    {
        &mut self.controller
    }

    /// Sends `bytes` (encoded frame data) to both sinks; returns how many
    /// bytes the RTT channel took.
    pub fn sink(&mut self, bytes: &[u8]) -> (n: usize)
        ensures
            final(self).is_taken() == old(self).is_taken(),
            final(self).encoder_state() == old(self).encoder_state(),
            old(self).rtt_sink().wrote_all(final(self).rtt_sink(), bytes@, n as int),
            final(self).usb_sink()@ == old(self).usb_sink()@.after_write(bytes@),
    {
        let n = self.rtt.write_all(bytes);
        self.controller.write(bytes);
        n
    }

    /// Sends the encoded `pieces` to both sinks, piece after piece, as the
    /// encoder hands them over: each piece is written to the double buffer,
    /// and to the RTT channel until the channel is full. Returns how many
    /// bytes, counted over all pieces in order, the RTT channel took.
    pub fn sink_pieces(&mut self, pieces: &Vec<Vec<u8>>) -> (n: usize)
        ensures
            final(self).is_taken() == old(self).is_taken(),
            final(self).encoder_state() == old(self).encoder_state(),
            old(self).rtt_sink().wrote_all(final(self).rtt_sink(), views(pieces@).flatten(), n as int),
            final(self).usb_sink()@ == old(self).usb_sink()@.after_writes(views(pieces@)),
    {
        self.rtt.view_wf();
        let ghost ps = views(pieces@);
        let ghost r0 = self.rtt;
        let ghost c0 = self.controller@;
        let mut total: usize = 0;
        let mut rtt_open = true;
        let mut i: usize = 0;
        proof {
            assert(ps.take(0).flatten() =~= Seq::<u8>::empty());
            assert(ps.take(0) =~= Seq::<Seq<u8>>::empty());
            assert(r0.buf() =~= crate::rtt::ring_after(r0.buf(), r0.write_pos(), Seq::<u8>::empty().subrange(0, 0)));
            assert(r0.write_pos() % (RTT_BUF_SIZE as int) == r0.write_pos());
            assert(r0.pending() =~= r0.pending() + Seq::<u8>::empty().subrange(0, 0));
        }
        while i < pieces.len()
            invariant
                ps == views(pieces@),
                i <= pieces@.len(),
                self.taken == old(self).taken,
                self.encoder == old(self).encoder,
                r0 == old(self).rtt,
                c0 == old(self).controller@,
                r0.wf(),
                r0.wrote_all(self.rtt, ps.take(i as int).flatten(), total as int),
                rtt_open == (total == ps.take(i as int).flatten().len()),
                self.controller@ == c0.after_writes(ps.take(i as int)),
            decreases pieces@.len() - i,
        {
            let piece = &pieces[i];
            let ghost before = ps.take(i as int);
            let ghost rmid = self.rtt;
            proof {
                assert(ps.take(i + 1) =~= before.push(piece@));
                before.lemma_flatten_push(piece@);
                assert(ps.take(i + 1).drop_last() =~= before);
            }
            if rtt_open {
                let n = self.sink(piece.as_slice());
                proof {
                    lemma_wrote_all_then(r0, rmid, self.rtt, before.flatten(), piece@, n as int);
                    lemma_pending_below_size(self.rtt);
                }
                total = total + n;
                if n < piece.len() {
                    rtt_open = false;
                }
            } else {
                proof {
                    lemma_wrote_all_short_extend(r0, self.rtt, before.flatten(), piece@, total as int);
                }
                self.controller.write(piece.as_slice());
            }
            i = i + 1;
        }
        assert(ps.take(i as int) =~= ps);
        total
    }

    /// Starts a log frame. Logging is not re-entrant: a frame must not be in
    /// progress.
    pub fn acquire(&mut self) -> (report: SinkReport)
        requires
            !old(self).is_taken(),
        ensures
            final(self).is_taken(),
            (views(report.pieces@), final(self).encoder_state()) == encoder_start_frame_result(
                old(self).encoder_state(),
            ),
            old(self).sent(*final(self), report),
    {
        self.taken = true;
        let pieces = encoder_start_frame(&mut self.encoder);
        let rtt_written = self.sink_pieces(&pieces);
        SinkReport { pieces, rtt_written }
    }

    /// Encodes part of the current frame (the encoder expects a frame to be
    /// in progress).
    pub fn write(&mut self, bytes: &[u8]) -> (report: SinkReport)
        ensures
            final(self).is_taken() == old(self).is_taken(),
            (views(report.pieces@), final(self).encoder_state()) == encoder_write_result(
                old(self).encoder_state(),
                bytes@,
            ),
            old(self).sent(*final(self), report),
    {
        let pieces = encoder_write(&mut self.encoder, bytes);
        let rtt_written = self.sink_pieces(&pieces);
        SinkReport { pieces, rtt_written }
    }

    /// Hands the current USB half over for sending; returns whether the RTT
    /// channel is drained as far as flushing is concerned (the caller waits
    /// until it is).
    pub fn flush(&mut self) -> (drained: bool)
        ensures
            final(self).is_taken() == old(self).is_taken(),
            final(self).encoder_state() == old(self).encoder_state(),
            final(self).rtt_sink() == old(self).rtt_sink(),
            final(self).usb_sink()@ == old(self).usb_sink()@.swapped(),
            drained == (!old(self).rtt_sink().connected() || old(self).rtt_sink().read_pos()
                == old(self).rtt_sink().write_pos()),
    {
        self.controller.swap();
        self.rtt.flush()
    }

    /// Ends the current frame. A frame must be in progress.
    pub fn release(&mut self) -> (report: SinkReport)
        requires
            old(self).is_taken(),
        ensures
            !final(self).is_taken(),
            (views(report.pieces@), final(self).encoder_state()) == encoder_end_frame_result(
                old(self).encoder_state(),
            ),
            old(self).sent(*final(self), report),
    {
        let pieces = encoder_end_frame(&mut self.encoder);
        let rtt_written = self.sink_pieces(&pieces);
        self.taken = false;
        SinkReport { pieces, rtt_written }
    }
}

} // verus!
