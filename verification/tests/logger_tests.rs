use embassy_rp_base::logger::{append_bytes, MultiEncoder};
use embassy_rp_base::rtt::MODE_BLOCK_IF_FULL;

#[test]
fn append_bytes_appends() {
    let mut v = vec![1u8];
    append_bytes(&mut v, &[2, 3]);
    assert_eq!(v, vec![1, 2, 3]);
}

#[test]
fn first_frame_starts_with_separator() {
    let mut m = MultiEncoder::new();
    let r = m.acquire();
    assert_eq!(r.pieces.concat(), vec![0x00]);
    assert_eq!(r.rtt_written, 1);
    assert_eq!(m.rtt_mut().write_cursor(), 1);
    assert_eq!(m.rtt_mut().buffer().get()[0], 0x00);
}

#[test]
fn frame_goes_to_both_sinks() {
    let mut m = MultiEncoder::new();
    let a = m.acquire();
    let w = m.write(&[0x01, 0x02]);
    let r = m.release();
    let mut all = a.pieces.concat();
    all.extend_from_slice(&w.pieces.concat());
    all.extend_from_slice(&r.pieces.concat());
    assert_eq!(all, vec![0x00, 0x01, 0x02, 0x7c, 0x00]);
    assert_eq!(&m.rtt_mut().buffer().get()[0..5], &all[..]);
    let c = m.controller_mut();
    c.swap();
    let (_, b) = c.get_flushing().unwrap();
    assert_eq!(b.bytes(), &all[..]);
}

#[test]
fn later_frames_have_no_leading_separator() {
    let mut m = MultiEncoder::new();
    m.acquire();
    m.release();
    let a = m.acquire();
    assert!(a.pieces.is_empty());
    m.release();
}

#[test]
fn flush_hands_over_usb_half_and_reports_rtt_state() {
    let mut m = MultiEncoder::new();
    m.acquire();
    m.write(&[1, 2, 3]);
    m.release();
    assert!(m.flush());
    assert!(m.controller_mut().get_flushing().is_some());
    m.rtt_mut().host_update(0, MODE_BLOCK_IF_FULL);
    assert!(!m.flush());
}

#[test]
fn reported_bytes_are_the_encoder_output() {
    // a frame of one zero byte, after the first frame's separator
    let mut m = MultiEncoder::new();
    m.acquire();
    m.release();
    let a = m.acquire();
    let w = m.write(&[0x00]);
    let r = m.release();
    assert!(a.pieces.is_empty());
    assert!(w.pieces.is_empty());
    assert_eq!(r.pieces, vec![vec![0x7f], vec![0x00]]);
}

#[test]
fn encoder_pieces_arrive_one_by_one() {
    let mut m = MultiEncoder::new();
    m.acquire();
    let w = m.write(&[0x11, 0x22]);
    assert_eq!(w.pieces, vec![vec![0x11], vec![0x22]]);
    assert_eq!(w.rtt_written, 2);
}

#[test]
fn long_argument_spreads_over_both_usb_halves() {
    let mut m = MultiEncoder::new();
    m.acquire();
    let data: Vec<u8> = (1..=40u8).collect();
    let w = m.write(&data);
    assert_eq!(w.pieces.len(), 40);
    let c = m.controller_mut();
    // the first half filled to its threshold, the rest went to the second
    let (i, b) = c.get_flushing().unwrap();
    assert_eq!(i, 0);
    assert_eq!(b.bytes().len(), 30);
    assert_eq!(b.bytes()[0], 0x00);
    assert_eq!(&b.bytes()[1..], &data[..29]);
    c.reset_buffer(0);
    c.swap();
    let (i, b) = c.get_flushing().unwrap();
    assert_eq!(i, 1);
    assert_eq!(b.bytes(), &data[29..]);
}

#[test]
fn rtt_skips_pieces_once_full() {
    let mut m = MultiEncoder::new();
    m.acquire();
    let data = vec![0x55u8; 1100];
    let w = m.write(&data);
    // one byte of the ring already holds the frame separator
    assert_eq!(w.rtt_written, 1022);
    assert_eq!(m.rtt_mut().write_cursor(), 1023);
}
