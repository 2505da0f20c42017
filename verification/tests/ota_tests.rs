use clawlight_firmware::crc::{crc32_update, CRC32_INIT};
use clawlight_firmware::ota::{
    needs_confirmation, ImageState, OtaAction, OtaEvent, OtaPhase, OtaSession, ReplyWait,
    OTA_BLOCK, OTA_STALL_MS,
};

fn image(n: usize) -> Vec<u8> {
    (0..n).map(|i| (i * 7 + 3) as u8).collect()
}

fn crc32(data: &[u8]) -> u32 {
    crc32_update(CRC32_INIT, data) ^ CRC32_INIT
}

fn trigger(len: usize, crc: u32) -> Vec<u8> {
    format!("{}:{:08x}", len, crc).into_bytes()
}

/// Drives a session up to the first `ReadByte`.
fn ready(args: &[u8], capacity: usize) -> OtaSession {
    let (mut s, a) = OtaSession::start(args);
    assert_eq!(a, OtaAction::OpenUpdater);
    assert_eq!(s.step(OtaEvent::Opened(true)), OtaAction::FindSlot);
    assert_eq!(s.step(OtaEvent::SlotFound(Some(capacity))), OtaAction::SendAck);
    s
}

/// Feeds the image, checking each written block; returns the action after the last ack.
fn transfer(s: &mut OtaSession, img: &[u8]) -> OtaAction {
    let mut written: Vec<u8> = Vec::new();
    let mut a = s.step(OtaEvent::Acked);
    for block in img.chunks(OTA_BLOCK) {
        assert_eq!(a, OtaAction::ReadByte);
        for (i, &b) in block.iter().enumerate() {
            a = s.step(OtaEvent::Byte(b));
            if i + 1 < block.len() {
                assert_eq!(a, OtaAction::ReadByte);
            }
        }
        assert_eq!(a, OtaAction::WriteBlock(written.len() as u32));
        assert_eq!(s.block(), block);
        written.extend_from_slice(s.block());
        assert_eq!(s.step(OtaEvent::Written(true)), OtaAction::SendAck);
        a = s.step(OtaEvent::Acked);
    }
    assert_eq!(written, img);
    a
}

#[test]
fn good_image_is_activated() {
    let img = image(10_000);
    let mut s = ready(&trigger(img.len(), crc32(&img)), 0x10_0000);
    assert_eq!(transfer(&mut s, &img), OtaAction::Activate);
    assert_eq!(s.phase(), OtaPhase::Activating);
    assert_eq!(s.step(OtaEvent::Activated(true)), OtaAction::Complete);
    assert_eq!(s.phase(), OtaPhase::Finished);
}

#[test]
fn exact_multiple_of_block_size() {
    let img = image(2 * OTA_BLOCK);
    let mut s = ready(&trigger(img.len(), crc32(&img)), img.len());
    assert_eq!(transfer(&mut s, &img), OtaAction::Activate);
}

#[test]
fn corrupt_image_is_not_activated() {
    let img = image(5000);
    let mut s = ready(&trigger(img.len(), crc32(&img) ^ 1), 0x10_0000);
    assert_eq!(transfer(&mut s, &img), OtaAction::Abort);
    assert_eq!(s.phase(), OtaPhase::Finished);
}

#[test]
fn empty_image_with_zero_crc() {
    let mut s = ready(b"0:0", 4096);
    assert_eq!(s.step(OtaEvent::Acked), OtaAction::Activate);
    let mut s = ready(b"0:1", 4096);
    assert_eq!(s.step(OtaEvent::Acked), OtaAction::Abort);
}

#[test]
fn bad_trigger_aborts_at_once() {
    let (s, a) = OtaSession::start(b"12");
    assert_eq!(a, OtaAction::Abort);
    assert_eq!(s.phase(), OtaPhase::Finished);
    let (_, a) = OtaSession::start(b"12:xyz");
    assert_eq!(a, OtaAction::Abort);
}

#[test]
fn missing_layout_or_slot_aborts() {
    let (mut s, _) = OtaSession::start(b"10:ff");
    assert_eq!(s.step(OtaEvent::Opened(false)), OtaAction::Abort);
    let (mut s, _) = OtaSession::start(b"10:ff");
    s.step(OtaEvent::Opened(true));
    assert_eq!(s.step(OtaEvent::SlotFound(None)), OtaAction::Abort);
}

#[test]
fn image_larger_than_slot_aborts() {
    let (mut s, _) = OtaSession::start(b"4097:ff");
    s.step(OtaEvent::Opened(true));
    assert_eq!(s.step(OtaEvent::SlotFound(Some(4096))), OtaAction::Abort);
    let (mut s, _) = OtaSession::start(b"4096:ff");
    s.step(OtaEvent::Opened(true));
    assert_eq!(s.step(OtaEvent::SlotFound(Some(4096))), OtaAction::SendAck);
}

#[test]
fn failed_write_or_activation_aborts() {
    let img = image(10);
    let mut s = ready(&trigger(img.len(), crc32(&img)), 4096);
    s.step(OtaEvent::Acked);
    let mut a = OtaAction::ReadByte;
    for &b in &img {
        a = s.step(OtaEvent::Byte(b));
    }
    assert_eq!(a, OtaAction::WriteBlock(0));
    assert_eq!(s.step(OtaEvent::Written(false)), OtaAction::Abort);

    let mut s = ready(&trigger(img.len(), crc32(&img)), 4096);
    assert_eq!(transfer(&mut s, &img), OtaAction::Activate);
    assert_eq!(s.step(OtaEvent::Activated(false)), OtaAction::Abort);
}

#[test]
fn stalled_host_aborts_after_stall_time() {
    let mut s = ready(b"10:ff", 4096);
    s.step(OtaEvent::Acked);
    s.step(OtaEvent::Byte(1));
    for _ in 1..OTA_STALL_MS {
        assert_eq!(s.step(OtaEvent::NoByte), OtaAction::ReadByte);
    }
    assert_eq!(s.step(OtaEvent::NoByte), OtaAction::Abort);
}

#[test]
fn a_byte_resets_the_stall_timer() {
    let mut s = ready(b"10:ff", 4096);
    s.step(OtaEvent::Acked);
    for _ in 1..OTA_STALL_MS {
        s.step(OtaEvent::NoByte);
    }
    assert_eq!(s.step(OtaEvent::Byte(1)), OtaAction::ReadByte);
    for _ in 1..OTA_STALL_MS {
        assert_eq!(s.step(OtaEvent::NoByte), OtaAction::ReadByte);
    }
}

#[test]
fn finished_session_only_aborts() {
    let (mut s, _) = OtaSession::start(b"x");
    assert_eq!(s.step(OtaEvent::Opened(true)), OtaAction::Abort);
    assert_eq!(s.step(OtaEvent::Byte(0)), OtaAction::Abort);
}

#[test]
fn unexpected_event_aborts() {
    let (mut s, _) = OtaSession::start(b"10:ff");
    assert_eq!(s.step(OtaEvent::Byte(0)), OtaAction::Abort);
}

#[test]
fn reply_wait_gives_up_after_stall_time() {
    let mut w = ReplyWait::new();
    for _ in 1..OTA_STALL_MS {
        assert!(!w.tick());
    }
    assert!(w.tick());
    assert!(w.tick());
}

#[test]
fn only_images_on_trial_need_confirmation() {
    assert!(needs_confirmation(ImageState::New));
    assert!(needs_confirmation(ImageState::PendingVerify));
    assert!(!needs_confirmation(ImageState::Valid));
    assert!(!needs_confirmation(ImageState::Invalid));
    assert!(!needs_confirmation(ImageState::Aborted));
    assert!(!needs_confirmation(ImageState::Undefined));
}
