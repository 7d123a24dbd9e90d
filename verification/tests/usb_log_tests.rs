use embassy_rp_base::usb_log::{
    split_chunks, usb_packets, BufState, Controller, LogBuffer, UsbDefmtLogger, WriteFault,
    DEFAULT_POLL_MS, USB_BUF_SIZE,
};

#[test]
fn log_buffer_starts_empty_and_active() {
    let b = LogBuffer::new();
    assert!(!b.is_flushing());
    assert!(b.bytes().is_empty());
    assert!(b.accepts(USB_BUF_SIZE - 1));
    assert!(!b.accepts(USB_BUF_SIZE));
}

#[test]
fn log_buffer_write_appends_and_flags_at_threshold() {
    let mut b = LogBuffer::new();
    b.write(&[1, 2, 3], 5);
    assert_eq!(b.bytes(), &[1, 2, 3]);
    assert!(!b.is_flushing());
    b.write(&[4, 5], 5);
    assert_eq!(b.bytes(), &[1, 2, 3, 4, 5]);
    assert!(b.is_flushing());
    assert!(!b.accepts(1));
}

#[test]
fn log_buffer_reset_empties_and_reactivates() {
    let mut b = LogBuffer::new();
    b.write(&[1, 2], 30);
    b.set_flushing();
    assert!(b.is_flushing());
    b.reset();
    assert!(!b.is_flushing());
    assert!(b.bytes().is_empty());
    let s = BufState::Active;
    assert_eq!(s, BufState::Active);
}

#[test]
fn controller_writes_to_first_half() {
    let mut c = Controller::new();
    c.write(&[1, 2, 3]);
    assert!(c.get_flushing().is_none());
    c.swap();
    let (i, b) = c.get_flushing().unwrap();
    assert_eq!(i, 0);
    assert_eq!(b.bytes(), &[1, 2, 3]);
}

#[test]
fn controller_swaps_when_current_half_is_full() {
    let mut c = Controller::new();
    c.write(&[1u8; 20]);
    c.write(&[2u8; 20]);
    let (i, b) = c.get_flushing().unwrap();
    assert_eq!(i, 0);
    assert_eq!(b.bytes(), &[1u8; 20][..]);
    c.reset_buffer(0);
    c.swap();
    let (i, b) = c.get_flushing().unwrap();
    assert_eq!(i, 1);
    assert_eq!(b.bytes(), &[2u8; 20][..]);
}

#[test]
fn controller_flags_half_at_threshold() {
    let mut c = Controller::new();
    c.write(&[7u8; 30]);
    let (i, b) = c.get_flushing().unwrap();
    assert_eq!(i, 0);
    assert_eq!(b.bytes().len(), 30);
}

#[test]
fn controller_drops_when_neither_half_takes_it() {
    let mut c = Controller::new();
    c.write(&[1u8; 40]);
    // too long for a half: the first half is handed over empty, nothing kept
    let (i, b) = c.get_flushing().unwrap();
    assert_eq!(i, 0);
    assert!(b.bytes().is_empty());
    c.reset_buffer(0);
    assert!(c.get_flushing().is_none());
}

#[test]
fn controller_never_writes_into_a_flushing_half() {
    let mut c = Controller::new();
    c.write(&[1u8; 10]);
    c.swap(); // half 0 waits to be sent
    c.write(&[2u8; 25]); // half 1
    c.write(&[3u8; 10]); // half 1 full: swap back, half 0 still flushing: dropped
    let (i, b) = c.get_flushing().unwrap();
    assert_eq!(i, 0);
    assert_eq!(b.bytes(), &[1u8; 10][..]);
}

#[test]
fn disabled_controller_ignores_writes() {
    let mut c = Controller::new();
    c.write(&[1, 2]);
    c.disable();
    c.write(&[3, 4]);
    c.swap();
    assert!(c.get_flushing().is_none());
    c.enable();
    c.write(&[5]);
    c.swap();
    let (_, b) = c.get_flushing().unwrap();
    assert_eq!(b.bytes(), &[5]);
}

#[test]
fn split_chunks_cuts_in_order() {
    let data: Vec<u8> = (0..10).collect();
    let c = split_chunks(&data, 4);
    assert_eq!(c, vec![vec![0, 1, 2, 3], vec![4, 5, 6, 7], vec![8, 9]]);
    assert!(split_chunks(&[], 4).is_empty());
}

#[test]
fn usb_packets_add_empty_packet_after_full_one() {
    let data: Vec<u8> = (0..8).collect();
    let p = usb_packets(&data, 4);
    assert_eq!(p, vec![vec![0, 1, 2, 3], vec![4, 5, 6, 7], vec![]]);
}

#[test]
fn usb_packets_without_empty_packet_after_short_one() {
    let data: Vec<u8> = (0..6).collect();
    let p = usb_packets(&data, 4);
    assert_eq!(p, vec![vec![0, 1, 2, 3], vec![4, 5]]);
    assert!(usb_packets(&[], 64).is_empty());
}

#[test]
fn usb_packets_rejoin_to_the_frame() {
    let data: Vec<u8> = (0..200u32).map(|i| i as u8).collect();
    let p = usb_packets(&data, 64);
    let joined: Vec<u8> = p.concat();
    assert_eq!(joined, data);
    assert!(p.iter().all(|x| x.len() <= 64));
    assert!(p.last().unwrap().len() < 64);
}

#[test]
fn finish_drain_resets_sent_half() {
    let mut c = Controller::new();
    c.write(&[1u8; 30]);
    assert!(!c.finish_drain(0, None));
    assert!(c.get_flushing().is_none());
    c.write(&[2]);
    c.swap();
    let (_, b) = c.get_flushing().unwrap();
    assert_eq!(b.bytes(), &[2]);
}

#[test]
fn finish_drain_disabled_endpoint_turns_logging_off() {
    let mut c = Controller::new();
    c.write(&[1u8; 30]);
    c.write(&[2u8; 3]);
    assert!(c.finish_drain(0, Some(WriteFault::Disabled)));
    c.write(&[3]);
    c.swap();
    assert!(c.get_flushing().is_none());
}

#[test]
fn logger_settings_default_threshold() {
    let mut c = Controller::new();
    let t = UsbDefmtLogger::new().apply(&mut c);
    assert_eq!(t, DEFAULT_POLL_MS);
    assert_eq!(t, 10);
    c.write(&[1u8; 29]);
    assert!(c.get_flushing().is_none());
    c.write(&[1u8; 1]);
    assert!(c.get_flushing().is_some());
}

#[test]
fn logger_settings_clamp_buflen() {
    let mut c = Controller::new();
    assert_eq!(UsbDefmtLogger::default().with_buflen(100).apply(&mut c), 10);
    c.write(&[1u8; 29]);
    assert!(c.get_flushing().is_none());
    c.write(&[1u8; 1]);
    assert!(c.get_flushing().is_some());
}

#[test]
fn logger_settings_small_buflen_and_timeout() {
    let mut c = Controller::new();
    let t = UsbDefmtLogger::new().with_buflen(4).with_timeout(5).apply(&mut c);
    assert_eq!(t, 5);
    c.write(&[1u8; 3]);
    assert!(c.get_flushing().is_none());
    c.write(&[1u8; 1]);
    assert!(c.get_flushing().is_some());
}

use embassy_rp_base::usb_log::{UsbDrain, UsbLogTask};

fn drain_all(d: &mut UsbDrain, fail_at: Option<(usize, WriteFault)>) -> Vec<Vec<u8>> {
    let mut sent = Vec::new();
    let mut k = 0;
    while let Some(p) = d.next_packet() {
        let p = p.clone();
        match fail_at {
            Some((at, f)) if at == k => d.packet_done(Some(f)),
            _ => {
                sent.push(p);
                d.packet_done(None);
            }
        }
        k += 1;
    }
    sent
}

#[test]
fn drain_sends_all_packets_then_empties_half() {
    let mut c = Controller::new();
    let mut t = UsbLogTask::new();
    t.on_connected(&mut c);
    c.write(&[3u8; 30]);
    let mut d = t.start_drain(&c, 8).unwrap();
    let sent = drain_all(&mut d, None);
    assert_eq!(sent.len(), 4);
    assert_eq!(sent.concat(), vec![3u8; 30]);
    assert!(!t.end_drain(&d, &mut c));
    assert!(t.start_drain(&c, 8).is_none());
}

#[test]
fn drain_adds_closing_empty_packet() {
    let mut c = Controller::new();
    let mut t = UsbLogTask::new();
    t.on_connected(&mut c);
    c.write(&[1u8; 30]);
    let mut d = t.start_drain(&c, 10).unwrap();
    let sent = drain_all(&mut d, None);
    assert_eq!(sent.len(), 4);
    assert!(sent[3].is_empty());
}

#[test]
fn drain_stops_at_first_fault() {
    let mut c = Controller::new();
    let mut t = UsbLogTask::new();
    t.on_connected(&mut c);
    c.write(&[1u8; 30]);
    let mut d = t.start_drain(&c, 10).unwrap();
    let sent = drain_all(&mut d, Some((1, WriteFault::Disabled)));
    assert_eq!(sent.len(), 1);
    assert!(d.next_packet().is_none());
    assert_eq!(d.outcome(), (0, Some(WriteFault::Disabled)));
    assert!(t.end_drain(&d, &mut c));
    c.write(&[9u8; 30]);
    c.swap();
    assert!(c.get_flushing().is_none());
    t.on_connected(&mut c);
    c.write(&[9u8; 30]);
    assert!(t.start_drain(&c, 10).is_some());
}
