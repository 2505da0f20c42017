//! The serial firmware-update protocol, as a state machine.
//!
//! An update is triggered by the line `OTA:<len>:<crc32>`. The board then
//! opens the two-slot OTA layout, finds the inactive slot, checks that the
//! image fits, answers `K`, and receives the image in blocks of up to
//! [`OTA_BLOCK`] bytes, writing each block to the slot and answering `K`
//! after it. Once all `len` bytes are in, the CRC-32 of the image must equal
//! the announced one; only then is the slot activated (and the board answers
//! `D` and reboots). Any failure answers `E` and ends the session with
//! nothing activated.
//!
//! The driver performs each [`OtaAction`] (flash access, serial traffic) and
//! hands back what happened as an [`OtaEvent`]; [`OtaSession::step`] decides
//! what comes next.

use vstd::prelude::*;
use crate::crc::{crc32, crc32_update, crc_feed, lemma_crc_feed_concat, CRC32_INIT};
use crate::trigger::{parse_trigger, trigger_args};

verus! {

/// The image is streamed one flash sector at a time.
pub const OTA_BLOCK: usize = 4096;

/// A transfer is abandoned after this many consecutive milliseconds without
/// a byte from the host; a pending reply is given up after as long.
pub const OTA_STALL_MS: u32 = 3_000;

/// Where a session stands.
#[derive(Clone, Copy, Debug, PartialEq, Eq, Structural)]
pub enum OtaPhase {
    /// Waiting for the OTA layout to be opened.
    Opening,
    /// Waiting for the inactive slot and its capacity.
    FindingSlot,
    /// A `K` reply is being sent.
    Acking,
    /// Receiving the bytes of a block.
    Reading,
    /// A complete block is being written to the slot.
    Writing,
    /// The verified image's slot is being activated.
    Activating,
    /// The session is over (aborted or completed).
    Finished,
}

/// What the driver observed after performing the last action.
#[derive(Clone, Copy, Debug)]
pub enum OtaEvent {
    /// The OTA layout was opened (`true`) or is not available (`false`).
    Opened(bool),
    /// The inactive slot and its capacity in bytes, or `None` when there is
    /// none.
    SlotFound(Option<usize>),
    /// The `K` reply went out.
    Acked,
    /// A byte of the image arrived.
    Byte(u8),
    /// No byte was waiting; one millisecond was spent waiting.
    NoByte,
    /// The block was written to the slot (`true`) or the write failed.
    Written(bool),
    /// The slot was activated (`true`) or activation failed.
    Activated(bool),
}

/// What the driver is to do next.
#[derive(Clone, Copy, Debug, PartialEq, Eq, Structural)]
pub enum OtaAction {
    /// Open the two-slot OTA layout, then report [`OtaEvent::Opened`].
    OpenUpdater,
    /// Look up the inactive slot, then report [`OtaEvent::SlotFound`].
    FindSlot,
    /// Send `K\n`, then report [`OtaEvent::Acked`].
    SendAck,
    /// Poll for one byte; report [`OtaEvent::Byte`], or wait a millisecond
    /// and report [`OtaEvent::NoByte`].
    ReadByte,
    /// Write [`OtaSession::block`] at this offset of the slot, then report
    /// [`OtaEvent::Written`].
    WriteBlock(u32),
    /// Activate the slot, then report [`OtaEvent::Activated`].
    Activate,
    /// Send `E\n` and end the session; nothing has been activated.
    Abort,
    /// Mark the new slot as freshly installed, send `D\n` and reboot.
    Complete,
}

/// The abstract state of a session.
pub struct OtaView {
    pub phase: OtaPhase,
    /// Announced image length in bytes.
    pub len: u32,
    /// Announced CRC-32 of the image.
    pub expected_crc: u32,
    /// Capacity in bytes of the slot being written (0 until it is found).
    pub capacity: usize,
    /// The bytes written to the slot so far, in order.
    pub image: Seq<u8>,
    /// The bytes of the block being received.
    pub block: Seq<u8>,
    /// Consecutive milliseconds without a byte in the current block.
    pub idle_ms: u32,
}

/// Length of the block that starts after `v.image`: a full
/// [`OTA_BLOCK`], or what is left of the image.
pub open spec fn block_size(v: OtaView) -> int {
    let rest = v.len - v.image.len();
    if rest < OTA_BLOCK {
        rest
    } else {
        OTA_BLOCK as int
    }
}

/// The states a session can be in.
pub open spec fn ota_wf(v: OtaView) -> bool {
    &&& v.image.len() <= v.len
    &&& match v.phase {
        OtaPhase::Opening | OtaPhase::FindingSlot | OtaPhase::Finished => true,
        _ => v.len <= v.capacity,
    }
    &&& match v.phase {
        OtaPhase::Opening | OtaPhase::FindingSlot => v.image.len() == 0 && v.block.len() == 0,
        OtaPhase::Acking => v.block.len() == 0,
        OtaPhase::Reading => {
            &&& v.image.len() < v.len
            &&& v.block.len() < block_size(v)
            &&& v.idle_ms < OTA_STALL_MS
        },
        OtaPhase::Writing => v.image.len() < v.len && v.block.len() == block_size(v),
        OtaPhase::Activating => {
            &&& v.block.len() == 0
            &&& v.image.len() == v.len
            &&& crc32(v.image) == v.expected_crc
        },
        OtaPhase::Finished => true,
    }
}

/// `v` moved to `phase`, all else kept.
pub open spec fn with_phase(v: OtaView, phase: OtaPhase) -> OtaView {
    OtaView { phase, ..v }
}

/// Ending the session with `E`.
pub open spec fn ota_abort(v: OtaView) -> (OtaView, OtaAction) {
    (with_phase(v, OtaPhase::Finished), OtaAction::Abort)
}

/// One step of the protocol: the next state and action after event `e` in
/// state `v`. An event that the current phase does not wait for aborts.
pub open spec fn ota_next(v: OtaView, e: OtaEvent) -> (OtaView, OtaAction) {
    match v.phase {
        OtaPhase::Opening => match e {
            OtaEvent::Opened(true) => (with_phase(v, OtaPhase::FindingSlot), OtaAction::FindSlot),
            _ => ota_abort(v),
        },
        OtaPhase::FindingSlot => match e {
            OtaEvent::SlotFound(Some(capacity)) => if v.len <= capacity {
                (OtaView { phase: OtaPhase::Acking, capacity, ..v }, OtaAction::SendAck)
            } else {
                ota_abort(v)
            },
            _ => ota_abort(v),
        },
        OtaPhase::Acking => match e {
            OtaEvent::Acked => if v.image.len() < v.len {
                (
                    OtaView { phase: OtaPhase::Reading, block: Seq::empty(), idle_ms: 0, ..v },
                    OtaAction::ReadByte,
                )
            } else if crc32(v.image) == v.expected_crc {
                (with_phase(v, OtaPhase::Activating), OtaAction::Activate)
            } else {
                ota_abort(v)
            },
            _ => ota_abort(v),
        },
        OtaPhase::Reading => match e {
            OtaEvent::Byte(b) => if v.block.len() + 1 == block_size(v) {
                (
                    OtaView { phase: OtaPhase::Writing, block: v.block.push(b), idle_ms: 0, ..v },
                    OtaAction::WriteBlock(v.image.len() as u32),
                )
            } else {
                (OtaView { block: v.block.push(b), idle_ms: 0, ..v }, OtaAction::ReadByte)
            },
            OtaEvent::NoByte => if v.idle_ms + 1 >= OTA_STALL_MS {
                ota_abort(v)
            } else {
                (OtaView { idle_ms: (v.idle_ms + 1) as u32, ..v }, OtaAction::ReadByte)
            },
            _ => ota_abort(v),
        },
        OtaPhase::Writing => match e {
            OtaEvent::Written(true) => (
                OtaView {
                    phase: OtaPhase::Acking,
                    image: v.image + v.block,
                    block: Seq::empty(),
                    ..v
                },
                OtaAction::SendAck,
            ),
            _ => ota_abort(v),
        },
        OtaPhase::Activating => match e {
            OtaEvent::Activated(true) => (with_phase(v, OtaPhase::Finished), OtaAction::Complete),
            _ => ota_abort(v),
        },
        OtaPhase::Finished => ota_abort(v),
    }
}

/// Every step keeps a session in a reachable state.
pub proof fn lemma_ota_step_keeps_wf(v: OtaView, e: OtaEvent)
    requires
        ota_wf(v),
    ensures
        ota_wf(ota_next(v, e).0),
{
    let (w, a) = ota_next(v, e);
    if v.phase == OtaPhase::Writing && e == OtaEvent::Written(true) {
        assert((v.image + v.block).len() == v.image.len() + v.block.len());
    }
}

/// Nothing is activated unless the whole announced image is in and its
/// CRC-32 equals the announced one; deciding to activate adds no byte.
pub proof fn lemma_ota_activates_only_verified_image(v: OtaView, e: OtaEvent)
    requires
        ota_wf(v),
        ota_next(v, e).1 == OtaAction::Activate,
    ensures
        ota_next(v, e).0.image == v.image,
        v.image.len() == v.len,
        crc32(v.image) == v.expected_crc,
{
}

/// The update completes only when the slot of a verified image was
/// activated.
pub proof fn lemma_ota_completes_only_after_activation(v: OtaView, e: OtaEvent)
    requires
        ota_wf(v),
        ota_next(v, e).1 == OtaAction::Complete,
    ensures
        v.phase == OtaPhase::Activating,
        e == OtaEvent::Activated(true),
        v.image.len() == v.len,
        crc32(v.image) == v.expected_crc,
        ota_next(v, e).0.phase == OtaPhase::Finished,
{
}

/// Blocks are written in order, each at the offset where the previous one
/// ended, each a full [`OTA_BLOCK`] except the last one of the image, and
/// never past the announced length or the end of the slot.
pub proof fn lemma_ota_writes_in_order(v: OtaView, e: OtaEvent, offset: u32)
    requires
        ota_wf(v),
        ota_next(v, e).1 == OtaAction::WriteBlock(offset),
    ensures
        offset == v.image.len(),
        ota_next(v, e).0.image == v.image,
        0 < ota_next(v, e).0.block.len() <= OTA_BLOCK,
        ota_next(v, e).0.block.len() == OTA_BLOCK || offset + ota_next(v, e).0.block.len() == v.len,
        offset + ota_next(v, e).0.block.len() <= v.len,
        offset + ota_next(v, e).0.block.len() <= v.capacity,
{
}

/// The board is ready for the image (answers `K` to the trigger) only when
/// the inactive slot can hold the announced length.
pub proof fn lemma_ota_ready_only_if_image_fits(v: OtaView, e: OtaEvent)
    requires
        v.phase == OtaPhase::FindingSlot,
        ota_next(v, e).1 == OtaAction::SendAck,
    ensures
        exists|capacity: usize| e == OtaEvent::SlotFound(Some(capacity)) && v.len <= capacity,
{
    if let OtaEvent::SlotFound(Some(capacity)) = e {
        assert(e == OtaEvent::SlotFound(Some(capacity)) && v.len <= capacity);
    }
}

/// An abort ends the session, and an ended session only ever answers with
/// an abort: after `E` nothing is written and nothing is activated.
pub proof fn lemma_ota_abort_is_final(v: OtaView, e: OtaEvent)
    ensures
        ota_next(v, e).1 == OtaAction::Abort ==> ota_next(v, e).0.phase == OtaPhase::Finished,
        ota_next(v, e).1 == OtaAction::Complete ==> ota_next(v, e).0.phase == OtaPhase::Finished,
        v.phase == OtaPhase::Finished ==> ota_next(v, e).1 == OtaAction::Abort,
{
}

/// The image byte that event `e` delivers in state `v`: a byte that arrives
/// while a block is being received, and nothing otherwise.
pub open spec fn accepted(v: OtaView, e: OtaEvent) -> Seq<u8> {
    match e {
        OtaEvent::Byte(b) => if v.phase == OtaPhase::Reading {
            seq![b]
        } else {
            Seq::empty()
        },
        _ => Seq::empty(),
    }
}

/// The bytes the session holds (written image, then the block being
/// received) are exactly the bytes it accepted, in order: a step adds the
/// byte it accepts and nothing else, and loses nothing.
pub proof fn lemma_ota_keeps_accepted_bytes(v: OtaView, e: OtaEvent)
    requires
        ota_wf(v),
    ensures
        ota_next(v, e).0.image + ota_next(v, e).0.block == v.image + v.block + accepted(v, e),
{
    let w = ota_next(v, e).0;
    assert(w.image + w.block =~= v.image + v.block + accepted(v, e));
}

/// The state after the events `es`, one step at a time.
pub open spec fn ota_run(v: OtaView, es: Seq<OtaEvent>) -> OtaView
    decreases es.len(),
{
    if es.len() == 0 {
        v
    } else {
        ota_next(ota_run(v, es.drop_last()), es.last()).0
    }
}

/// The image bytes accepted along the events `es`, in order.
pub open spec fn ota_run_accepted(v: OtaView, es: Seq<OtaEvent>) -> Seq<u8>
    decreases es.len(),
{
    if es.len() == 0 {
        Seq::empty()
    } else {
        ota_run_accepted(v, es.drop_last()) + accepted(ota_run(v, es.drop_last()), es.last())
    }
}

/// Along any sequence of events, the session stays in a reachable state,
/// keeps the announced length and checksum, and holds exactly the bytes it
/// accepted.
pub proof fn lemma_ota_run(v: OtaView, es: Seq<OtaEvent>)
    requires
        ota_wf(v),
    ensures
        ota_wf(ota_run(v, es)),
        ota_run(v, es).image + ota_run(v, es).block == v.image + v.block + ota_run_accepted(v, es),
        ota_run(v, es).len == v.len,
        ota_run(v, es).expected_crc == v.expected_crc,
    decreases es.len(),
{
    if es.len() > 0 {
        let p = es.drop_last();
        lemma_ota_run(v, p);
        lemma_ota_step_keeps_wf(ota_run(v, p), es.last());
        lemma_ota_keeps_accepted_bytes(ota_run(v, p), es.last());
        assert(v.image + v.block + ota_run_accepted(v, p) + accepted(ota_run(v, p), es.last())
            =~= v.image + v.block + ota_run_accepted(v, es));
    }
}

/// A freshly started session activates a slot only for the bytes the host
/// actually sent, and only when they are exactly the announced number of
/// bytes with the announced CRC-32: a corrupt, short or padded transfer is
/// never activated.
pub proof fn lemma_ota_activates_exactly_the_received_image(v: OtaView, es: Seq<OtaEvent>)
    requires
        ota_wf(v),
        v.image.len() == 0,
        v.block.len() == 0,
        es.len() > 0,
        ota_next(ota_run(v, es.drop_last()), es.last()).1 == OtaAction::Activate,
    ensures
        ota_run(v, es).image == ota_run_accepted(v, es),
        ota_run_accepted(v, es).len() == v.len,
        crc32(ota_run_accepted(v, es)) == v.expected_crc,
{
    let p = es.drop_last();
    lemma_ota_run(v, p);
    lemma_ota_run(v, es);
    lemma_ota_activates_only_verified_image(ota_run(v, p), es.last());
    assert(v.image + v.block =~= Seq::<u8>::empty());
    assert(ota_run(v, es).block.len() == 0);
    assert(ota_run(v, es).image + ota_run(v, es).block =~= ota_run(v, es).image);
    assert(Seq::<u8>::empty() + ota_run_accepted(v, es) =~= ota_run_accepted(v, es));
}

/// What is left of the current block, counted in silent polls: each byte
/// still to come may be preceded by up to [`OTA_STALL_MS`] silent polls.
pub open spec fn reading_budget(v: OtaView) -> int {
    (block_size(v) - v.block.len()) * OTA_STALL_MS + (OTA_STALL_MS - v.idle_ms)
}

/// A step that stays in the Reading phase spends at least one poll of the
/// budget, which stays positive.
pub proof fn lemma_ota_reading_step_spends_budget(v: OtaView, e: OtaEvent)
    requires
        ota_wf(v),
        v.phase == OtaPhase::Reading,
        ota_next(v, e).0.phase == OtaPhase::Reading,
    ensures
        1 <= reading_budget(ota_next(v, e).0) < reading_budget(v),
{
    let w = ota_next(v, e).0;
    assert(block_size(w) == block_size(v));
}

/// Receiving a block cannot go on forever: a session stays in the Reading
/// phase for fewer than `(b + 1) * OTA_STALL_MS` polls, where `b` is the
/// number of bytes of the block still to come. Each byte may be preceded by
/// at most `OTA_STALL_MS - 1` silent polls, and the next silent poll aborts.
pub proof fn lemma_ota_reading_ends(v: OtaView, es: Seq<OtaEvent>)
    requires
        ota_wf(v),
        v.phase == OtaPhase::Reading,
        forall|j: int| 1 <= j <= es.len() ==> #[trigger] ota_run(v, es.take(j)).phase
            == OtaPhase::Reading,
    ensures
        es.len() < (block_size(v) - v.block.len() + 1) * OTA_STALL_MS,
{
    lemma_ota_reading_spends(v, es);
}

proof fn lemma_ota_reading_spends(v: OtaView, es: Seq<OtaEvent>)
    requires
        ota_wf(v),
        v.phase == OtaPhase::Reading,
        forall|j: int| 1 <= j <= es.len() ==> #[trigger] ota_run(v, es.take(j)).phase
            == OtaPhase::Reading,
    ensures
        ota_wf(ota_run(v, es)),
        ota_run(v, es).phase == OtaPhase::Reading,
        1 <= reading_budget(ota_run(v, es)) <= reading_budget(v) - es.len(),
    decreases es.len(),
{
    if es.len() == 0 {
    } else {
        let p = es.drop_last();
        assert forall|j: int| 1 <= j <= p.len() implies #[trigger] ota_run(v, p.take(j)).phase
            == OtaPhase::Reading by {
            assert(p.take(j) =~= es.take(j));
        }
        lemma_ota_reading_spends(v, p);
        assert(es.take(es.len() as int) =~= es);
        lemma_ota_step_keeps_wf(ota_run(v, p), es.last());
        lemma_ota_reading_step_spends_budget(ota_run(v, p), es.last());
    }
}

/// The protocol makes progress with an honest host and a working flash:
/// each expected event moves the session on, and only a failure, a
/// mismatch or a full stall ends it. In particular a silent poll only
/// advances the stall count until [`OTA_STALL_MS`] (in every block), and a
/// complete image whose CRC-32 matches is always activated, whatever its
/// length.
pub proof fn lemma_ota_progress(v: OtaView, b: u8, capacity: usize)
    requires
        ota_wf(v),
    ensures
        v.phase == OtaPhase::Opening ==> ota_next(v, OtaEvent::Opened(true)) == (
            OtaView { phase: OtaPhase::FindingSlot, ..v },
            OtaAction::FindSlot,
        ),
        v.phase == OtaPhase::FindingSlot && v.len <= capacity ==> ota_next(
            v,
            OtaEvent::SlotFound(Some(capacity)),
        ) == (OtaView { phase: OtaPhase::Acking, capacity, ..v }, OtaAction::SendAck),
        v.phase == OtaPhase::Acking && v.image.len() < v.len ==> ota_next(v, OtaEvent::Acked) == (
            OtaView { phase: OtaPhase::Reading, block: Seq::empty(), idle_ms: 0, ..v },
            OtaAction::ReadByte,
        ),
        v.phase == OtaPhase::Acking && v.image.len() == v.len && crc32(v.image) == v.expected_crc
            ==> ota_next(v, OtaEvent::Acked) == (
            OtaView { phase: OtaPhase::Activating, ..v },
            OtaAction::Activate,
        ),
        v.phase == OtaPhase::Reading && v.block.len() + 1 < v.len - v.image.len() && v.block.len()
            + 1 < OTA_BLOCK ==> ota_next(v, OtaEvent::Byte(b)) == (
            OtaView { block: v.block.push(b), idle_ms: 0, ..v },
            OtaAction::ReadByte,
        ),
        v.phase == OtaPhase::Reading && (v.image.len() + v.block.len() + 1 == v.len
            || v.block.len() + 1 == OTA_BLOCK) ==> ota_next(v, OtaEvent::Byte(b)) == (
            OtaView { phase: OtaPhase::Writing, block: v.block.push(b), idle_ms: 0, ..v },
            OtaAction::WriteBlock(v.image.len() as u32),
        ),
        v.phase == OtaPhase::Reading && v.idle_ms + 1 < OTA_STALL_MS ==> ota_next(
            v,
            OtaEvent::NoByte,
        ) == (OtaView { idle_ms: (v.idle_ms + 1) as u32, ..v }, OtaAction::ReadByte),
        v.phase == OtaPhase::Reading && v.idle_ms + 1 >= OTA_STALL_MS ==> ota_next(
            v,
            OtaEvent::NoByte,
        ).1 == OtaAction::Abort,
        v.phase == OtaPhase::Writing ==> ota_next(v, OtaEvent::Written(true)) == (
            OtaView {
                phase: OtaPhase::Acking,
                image: v.image + v.block,
                block: Seq::empty(),
                ..v
            },
            OtaAction::SendAck,
        ),
        v.phase == OtaPhase::Activating ==> ota_next(v, OtaEvent::Activated(true)) == (
            OtaView { phase: OtaPhase::Finished, ..v },
            OtaAction::Complete,
        ),
{
}

/// The session is refused only for the reasons the protocol names: a
/// missing OTA layout or slot, an image larger than the slot, a failed
/// write or activation, a stalled host, or a CRC-32 that does not match the
/// complete image.
pub proof fn lemma_ota_refusals(v: OtaView, e: OtaEvent)
    requires
        ota_wf(v),
        v.phase != OtaPhase::Finished,
        ota_next(v, e).1 == OtaAction::Abort,
    ensures
        v.phase == OtaPhase::Opening ==> e != OtaEvent::Opened(true),
        v.phase == OtaPhase::FindingSlot ==> !(e matches OtaEvent::SlotFound(Some(c)) && v.len <= c),
        v.phase == OtaPhase::Acking && e == OtaEvent::Acked ==> v.image.len() == v.len && crc32(
            v.image,
        ) != v.expected_crc,
        v.phase == OtaPhase::Reading ==> (e is NoByte && v.idle_ms + 1 == OTA_STALL_MS) || !(
        e is NoByte || e is Byte),
        v.phase == OtaPhase::Writing ==> e != OtaEvent::Written(true),
        v.phase == OtaPhase::Activating ==> e != OtaEvent::Activated(true),
{
}

/// Running two sequences of events one after the other is running their
/// concatenation.
pub proof fn lemma_ota_run_concat(v: OtaView, a: Seq<OtaEvent>, b: Seq<OtaEvent>)
    ensures
        ota_run(v, a + b) == ota_run(ota_run(v, a), b),
    decreases b.len(),
{
    if b.len() == 0 {
        assert(a + b =~= a);
    } else {
        lemma_ota_run_concat(v, a, b.drop_last());
        assert((a + b).drop_last() =~= a + b.drop_last());
        assert((a + b).last() == b.last());
    }
}

/// The events of bytes arriving one after another.
pub open spec fn byte_events(bytes: Seq<u8>) -> Seq<OtaEvent> {
    bytes.map_values(|b: u8| OtaEvent::Byte(b))
}

/// What an honest host and a working flash produce for one block: the ack
/// that asks for it, its bytes, and the successful write.
pub open spec fn block_events(block: Seq<u8>) -> Seq<OtaEvent> {
    seq![OtaEvent::Acked] + byte_events(block) + seq![OtaEvent::Written(true)]
}

/// The events of a whole image sent block by block, [`OTA_BLOCK`] bytes at a
/// time.
pub open spec fn image_events(image: Seq<u8>) -> Seq<OtaEvent>
    decreases image.len(),
{
    if image.len() == 0 {
        Seq::empty()
    } else {
        let k = if image.len() < OTA_BLOCK {
            image.len() as int
        } else {
            OTA_BLOCK as int
        };
        block_events(image.take(k)) + image_events(image.skip(k))
    }
}

proof fn lemma_ota_feed_bytes(w: OtaView, cs: Seq<u8>)
    requires
        ota_wf(w),
        w.phase == OtaPhase::Reading,
        cs.len() > 0,
        w.block.len() + cs.len() <= block_size(w),
    ensures
        ota_run(w, byte_events(cs)) == (OtaView {
            phase: if w.block.len() + cs.len() == block_size(w) {
                OtaPhase::Writing
            } else {
                OtaPhase::Reading
            },
            block: w.block + cs,
            idle_ms: 0,
            ..w
        }),
    decreases cs.len(),
{
    let es = byte_events(cs);
    let x = cs.last();
    let p = cs.drop_last();
    assert(es.drop_last() =~= byte_events(p));
    assert(es.last() == OtaEvent::Byte(x));
    if cs.len() == 1 {
        assert(byte_events(p) =~= Seq::<OtaEvent>::empty());
        assert(p =~= Seq::<u8>::empty());
        assert(w.block + cs =~= w.block.push(x));
    } else {
        lemma_ota_feed_bytes(w, p);
        assert(w.block + cs =~= (w.block + p).push(x));
    }
}

proof fn lemma_ota_block(v: OtaView, blk: Seq<u8>)
    requires
        ota_wf(v),
        v.phase == OtaPhase::Acking,
        blk.len() > 0,
        v.image.len() + blk.len() <= v.len,
        blk.len() == OTA_BLOCK || v.image.len() + blk.len() == v.len,
        blk.len() <= OTA_BLOCK,
    ensures
        ota_run(v, block_events(blk)).phase == OtaPhase::Acking,
        ota_run(v, block_events(blk)).image == v.image + blk,
        ota_wf(ota_run(v, block_events(blk))),
        ota_run(v, block_events(blk)).len == v.len,
        ota_run(v, block_events(blk)).expected_crc == v.expected_crc,
{
    let a = seq![OtaEvent::Acked];
    let bs = byte_events(blk);
    let wr = seq![OtaEvent::Written(true)];
    assert(block_events(blk) == a + bs + wr);
    lemma_ota_run_concat(v, a + bs, wr);
    lemma_ota_run_concat(v, a, bs);
    assert(a.drop_last() =~= Seq::<OtaEvent>::empty());
    assert(wr.drop_last() =~= Seq::<OtaEvent>::empty());
    let r = ota_run(v, a);
    assert(ota_run(v, a.drop_last()) == v);
    assert(r == ota_next(v, OtaEvent::Acked).0);
    lemma_ota_step_keeps_wf(v, OtaEvent::Acked);
    assert(r.block.len() == 0);
    lemma_ota_feed_bytes(r, blk);
    assert(r.block + blk =~= blk);
    let t = ota_run(r, bs);
    assert(ota_run(t, wr.drop_last()) == t);
    lemma_ota_step_keeps_wf(t, OtaEvent::Written(true));
    lemma_ota_run(v, block_events(blk));
}

proof fn lemma_ota_blocks(v: OtaView, rest: Seq<u8>)
    requires
        ota_wf(v),
        v.phase == OtaPhase::Acking,
        v.image.len() + rest.len() == v.len,
    ensures
        ota_run(v, image_events(rest)).phase == OtaPhase::Acking,
        ota_run(v, image_events(rest)).image == v.image + rest,
        ota_wf(ota_run(v, image_events(rest))),
        ota_run(v, image_events(rest)).len == v.len,
        ota_run(v, image_events(rest)).expected_crc == v.expected_crc,
    decreases rest.len(),
{
    if rest.len() == 0 {
        assert(image_events(rest) =~= Seq::<OtaEvent>::empty());
        assert(v.image + rest =~= v.image);
    } else {
        let k = if rest.len() < OTA_BLOCK {
            rest.len() as int
        } else {
            OTA_BLOCK as int
        };
        let blk = rest.take(k);
        let tail = rest.skip(k);
        lemma_ota_run_concat(v, block_events(blk), image_events(tail));
        lemma_ota_block(v, blk);
        let u = ota_run(v, block_events(blk));
        assert(v.image + blk + tail =~= v.image + rest);
        lemma_ota_blocks(u, tail);
    }
}

/// An honest host and a working flash get every image that fits the slot
/// activated exactly when its CRC-32 matches the announced one, whatever
/// its length: after the layout is opened, the slot found, and the image
/// sent block by block, the session holds exactly the image and the final
/// ack leads to activation (a matching CRC-32) or to `E` (a mismatch).
pub proof fn lemma_ota_honest_transfer(v: OtaView, image: Seq<u8>, capacity: usize)
    requires
        ota_wf(v),
        v.phase == OtaPhase::Opening,
        v.len == image.len(),
        v.len <= capacity,
    ensures
        ({
            let es = seq![OtaEvent::Opened(true), OtaEvent::SlotFound(Some(capacity))]
                + image_events(image);
            let w = ota_run(v, es);
            &&& w.phase == OtaPhase::Acking
            &&& w.image == image
            &&& crc32(image) == v.expected_crc ==> ota_next(w, OtaEvent::Acked).1
                == OtaAction::Activate
            &&& crc32(image) != v.expected_crc ==> ota_next(w, OtaEvent::Acked).1
                == OtaAction::Abort
        }),
{
    let head = seq![OtaEvent::Opened(true), OtaEvent::SlotFound(Some(capacity))];
    lemma_ota_run_concat(v, head, image_events(image));
    assert(head.drop_last() =~= seq![OtaEvent::Opened(true)]);
    assert(head.drop_last().drop_last() =~= Seq::<OtaEvent>::empty());
    let u1 = ota_run(v, head.drop_last());
    assert(ota_run(v, head.drop_last().drop_last()) == v);
    assert(u1 == ota_next(v, OtaEvent::Opened(true)).0);
    let u = ota_run(v, head);
    assert(u == ota_next(u1, OtaEvent::SlotFound(Some(capacity))).0);
    lemma_ota_step_keeps_wf(v, OtaEvent::Opened(true));
    lemma_ota_step_keeps_wf(u1, OtaEvent::SlotFound(Some(capacity)));
    assert(u.image.len() == 0);
    lemma_ota_blocks(u, image);
    assert(u.image + image =~= image);
}

/// A firmware-update session.
pub struct OtaSession {
    phase: OtaPhase,
    len: u32,
    expected_crc: u32,
    capacity: usize,
    offset: u32,
    crc: u32,
    block: Vec<u8>,
    idle_ms: u32,
    image: Ghost<Seq<u8>>,
}

impl View for OtaSession {
    type V = OtaView;

    closed spec fn view(&self) -> OtaView {
        OtaView {
            phase: self.phase,
            len: self.len,
            expected_crc: self.expected_crc,
            capacity: self.capacity,
            image: self.image@,
            block: self.block@,
            idle_ms: self.idle_ms,
        }
    }
}

impl OtaSession {
    /// The session's state is one the protocol can reach.
    pub closed spec fn wf(&self) -> bool {
        &&& ota_wf(self@)
        &&& self.offset == self.image@.len()
        &&& self.crc == crc_feed(CRC32_INIT, self.image@)
    }

    /// A valid session's abstract state is one the protocol can reach, so the
    /// laws about [`ota_next`] apply to it.
    pub proof fn lemma_view_wf(&self)
        requires
            self.wf(),
        ensures
            ota_wf(self@),
    {
    }

    /// Starts a session from the trigger's arguments (the line after
    /// `OTA:`). Arguments that do not parse end the session at once.
    pub fn start(args: &[u8]) -> (r: (OtaSession, OtaAction))
        ensures
            r.0.wf(),
            ota_wf(r.0@),
            match trigger_args(args@) {
                None => r.1 == OtaAction::Abort && r.0@.phase == OtaPhase::Finished,
                Some((len, crc)) => {
                    &&& r.1 == OtaAction::OpenUpdater
                    &&& r.0@ == OtaView {
                        phase: OtaPhase::Opening,
                        len,
                        expected_crc: crc,
                        capacity: 0,
                        image: Seq::empty(),
                        block: Seq::empty(),
                        idle_ms: 0,
                    }
                },
            },
    {
        let (phase, len, expected_crc, action) = match parse_trigger(args) {
            Some((len, crc)) => (OtaPhase::Opening, len, crc, OtaAction::OpenUpdater),
            None => (OtaPhase::Finished, 0, 0, OtaAction::Abort),
        };
        let s = OtaSession {
            phase,
            len,
            expected_crc,
            capacity: 0,
            offset: 0,
            crc: CRC32_INIT,
            block: Vec::new(),
            idle_ms: 0,
            image: Ghost(Seq::empty()),
        };
        (s, action)
    }

    /// The phase the session is in.
    pub fn phase(&self) -> (r: OtaPhase)
        ensures
            r == self@.phase,
    {
        self.phase
    }

    /// The block to write when the last action was [`OtaAction::WriteBlock`].
    pub fn block(&self) -> (r: &[u8])
        ensures
            r@ == self@.block,
    {
        self.block.as_slice()
    }

    fn abort(&mut self) -> (a: OtaAction)
        requires
            old(self).wf(),
        ensures
            final(self).wf(),
            (final(self)@, a) == ota_abort(old(self)@),
    {
        self.phase = OtaPhase::Finished;
        OtaAction::Abort
    }

    /// Advances the session by one event and returns the next action, as
    /// [`ota_next`] says.
    pub fn step(&mut self, event: OtaEvent) -> (a: OtaAction)
        requires
            old(self).wf(),
        ensures
            final(self).wf(),
            ota_wf(final(self)@),
            (final(self)@, a) == ota_next(old(self)@, event),
    {
        match self.phase {
            OtaPhase::Opening => match event {
                OtaEvent::Opened(true) => {
                    self.phase = OtaPhase::FindingSlot;
                    OtaAction::FindSlot
                },
                _ => self.abort(),
            },
            OtaPhase::FindingSlot => match event {
                OtaEvent::SlotFound(Some(capacity)) => {
                    if (self.len as u64) <= (capacity as u64) {
                        self.capacity = capacity;
                        self.phase = OtaPhase::Acking;
                        OtaAction::SendAck
                    } else {
                        self.abort()
                    }
                },
                _ => self.abort(),
            },
            OtaPhase::Acking => match event {
                OtaEvent::Acked => {
                    if self.offset < self.len {
                        self.phase = OtaPhase::Reading;
                        self.block = Vec::new();
                        self.idle_ms = 0;
                        OtaAction::ReadByte
                    } else if (self.crc ^ CRC32_INIT) == self.expected_crc {
                        self.phase = OtaPhase::Activating;
                        OtaAction::Activate
                    } else {
                        self.abort()
                    }
                },
                _ => self.abort(),
            },
            OtaPhase::Reading => match event {
                OtaEvent::Byte(b) => {
                    let rest = self.len - self.offset;
                    let n: usize = if (rest as u64) < (OTA_BLOCK as u64) {
                        rest as usize
                    } else {
                        OTA_BLOCK
                    };
                    self.block.push(b);
                    self.idle_ms = 0;
                    if self.block.len() == n {
                        self.phase = OtaPhase::Writing;
                        OtaAction::WriteBlock(self.offset)
                    } else {
                        OtaAction::ReadByte
                    }
                },
                OtaEvent::NoByte => {
                    if self.idle_ms + 1 >= OTA_STALL_MS {
                        self.abort()
                    } else {
                        self.idle_ms = self.idle_ms + 1;
                        OtaAction::ReadByte
                    }
                },
                _ => self.abort(),
            },
            OtaPhase::Writing => match event {
                OtaEvent::Written(true) => {
                    let ghost old_image = self.image@;
                    proof {
                        lemma_crc_feed_concat(CRC32_INIT, old_image, self.block@);
                    }
                    self.crc = crc32_update(self.crc, self.block.as_slice());
                    self.offset = self.offset + (self.block.len() as u32);
                    self.image = Ghost(old_image + self.block@);
                    self.block = Vec::new();
                    self.phase = OtaPhase::Acking;
                    OtaAction::SendAck
                },
                _ => self.abort(),
            },
            OtaPhase::Activating => match event {
                OtaEvent::Activated(true) => {
                    self.phase = OtaPhase::Finished;
                    OtaAction::Complete
                },
                _ => self.abort(),
            },
            OtaPhase::Finished => self.abort(),
        }
    }
}

/// A bounded wait for a reply to drain to the host: a host that vanished in
/// the middle of an update cannot block the board for longer than
/// [`OTA_STALL_MS`] milliseconds.
pub struct ReplyWait {
    idle_ms: u32,
}

impl View for ReplyWait {
    type V = u32;

    /// Milliseconds waited so far.
    closed spec fn view(&self) -> u32 {
        self.idle_ms
    }
}

impl ReplyWait {
    /// A wait that has not started.
    pub fn new() -> (r: ReplyWait)
        ensures
            r@ == 0,
    {
        ReplyWait { idle_ms: 0 }
    }

    /// Records one more millisecond with the reply still pending, and says
    /// whether to give up on it.
    pub fn tick(&mut self) -> (give_up: bool)
        ensures
            final(self)@ == if old(self)@ < OTA_STALL_MS { old(self)@ + 1 } else { old(self)@ as int },
            give_up == (final(self)@ >= OTA_STALL_MS),
    {
        if self.idle_ms < OTA_STALL_MS {
            self.idle_ms = self.idle_ms + 1;
        }
        self.idle_ms >= OTA_STALL_MS
    }
}

/// The state a slot's image is recorded in (the OTA data of the bootloader).
#[derive(Clone, Copy, Debug, PartialEq, Eq, Structural)]
pub enum ImageState {
    /// Freshly installed; the first boot is being watched.
    New,
    /// The bootloader asks the running image to confirm itself.
    PendingVerify,
    /// Confirmed as working.
    Valid,
    /// Found not to work.
    Invalid,
    /// Never confirmed; the bootloader gave up on it.
    Aborted,
    /// Nothing recorded.
    Undefined,
}

/// Whether the running image, once its host has talked to it, should be
/// confirmed as [`ImageState::Valid`]: only while it is still on trial.
pub fn needs_confirmation(state: ImageState) -> (r: bool)
    ensures
        r == (state == ImageState::New || state == ImageState::PendingVerify),
{
    match state {
        ImageState::New | ImageState::PendingVerify => true,
        _ => false,
    }
}

} // verus!
