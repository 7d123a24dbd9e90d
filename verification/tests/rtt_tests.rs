use embassy_rp_base::rtt::{
    rtt_available, RttBuffer, RttChannel, MODE_BLOCK_IF_FULL, MODE_NON_BLOCKING_TRIM, RTT_BUF_SIZE,
};

#[test]
fn available_when_read_ahead_of_write() {
    assert_eq!(rtt_available(10, 4, 1024), 5);
}

#[test]
fn available_when_host_at_start() {
    assert_eq!(rtt_available(0, 0, 1024), 1023);
    assert_eq!(rtt_available(0, 100, 1024), 923);
}

#[test]
fn available_runs_to_end_of_buffer() {
    assert_eq!(rtt_available(4, 10, 1024), 1014);
    assert_eq!(rtt_available(4, 4, 1024), 1020);
}

#[test]
fn available_is_zero_when_full() {
    assert_eq!(rtt_available(5, 4, 1024), 0);
    assert_eq!(rtt_available(0, 1023, 1024), 0);
}

#[test]
fn buffer_starts_zeroed() {
    let b = RttBuffer::new();
    assert_eq!(b.get().len(), RTT_BUF_SIZE);
    assert!(b.get().iter().all(|&x| x == 0));
}

#[test]
fn new_channel_is_non_blocking() {
    let c = RttChannel::new();
    assert!(!c.host_is_connected());
    assert_eq!(c.write_cursor(), 0);
    assert!(c.flush());
}

#[test]
fn host_flags_select_blocking_mode() {
    let mut c = RttChannel::new();
    c.host_update(0, MODE_BLOCK_IF_FULL);
    assert!(c.host_is_connected());
    c.host_update(0, MODE_BLOCK_IF_FULL | 0b100);
    assert!(c.host_is_connected());
    c.host_update(0, MODE_NON_BLOCKING_TRIM);
    assert!(!c.host_is_connected());
}

#[test]
fn nonblocking_write_places_bytes_at_cursor() {
    let mut c = RttChannel::new();
    let n = c.nonblocking_write(&[1, 2, 3]);
    assert_eq!(n, 3);
    assert_eq!(c.write_cursor(), 3);
    assert_eq!(&c.buffer().get()[0..4], &[1, 2, 3, 0]);
}

#[test]
fn nonblocking_write_wraps_around() {
    let mut c = RttChannel::new();
    let fill = vec![9u8; 1022];
    assert_eq!(c.nonblocking_write(&fill), 1022);
    c.host_update(1000, MODE_NON_BLOCKING_TRIM);
    assert_eq!(c.write_all(&[1, 2, 3, 4]), 4);
    assert_eq!(c.write_cursor(), 2);
    let b = c.buffer().get();
    assert_eq!(b[1022], 1);
    assert_eq!(b[1023], 2);
    assert_eq!(b[0], 3);
    assert_eq!(b[1], 4);
    assert_eq!(b[2], 9);
}

#[test]
fn nonblocking_write_skips_what_does_not_fit() {
    let mut c = RttChannel::new();
    let big = vec![7u8; 2000];
    assert_eq!(c.nonblocking_write(&big), RTT_BUF_SIZE - 1);
    assert_eq!(c.write_cursor(), RTT_BUF_SIZE - 1);
    assert_eq!(c.nonblocking_write(&[1, 2]), 0);
    assert_eq!(c.write_cursor(), RTT_BUF_SIZE - 1);
    assert_eq!(c.buffer().get()[RTT_BUF_SIZE - 1], 0);
}

#[test]
fn write_all_nonblocking_keeps_unread_bytes() {
    let mut c = RttChannel::new();
    assert_eq!(c.write_all(&[1, 2, 3]), 3);
    c.host_update(1, MODE_NON_BLOCKING_TRIM);
    let data: Vec<u8> = (0..1030u32).map(|i| (i % 251) as u8).collect();
    // room up to the end, then up to one before the host's cursor
    assert_eq!(c.write_all(&data), 1021);
    assert_eq!(c.write_cursor(), 0);
    let b = c.buffer().get();
    assert_eq!(&b[0..3], &[1, 2, 3]);
    for k in 0..1021usize {
        assert_eq!(b[3 + k], data[k]);
    }
}

#[test]
fn blocking_write_of_nothing_writes_nothing() {
    let mut c = RttChannel::new();
    c.host_update(0, MODE_BLOCK_IF_FULL);
    assert_eq!(c.blocking_write(&[]), 0);
    assert_eq!(c.write_cursor(), 0);
}

#[test]
fn blocking_write_stops_before_read_cursor() {
    let mut c = RttChannel::new();
    c.host_update(0, MODE_BLOCK_IF_FULL);
    let data = vec![5u8; 1100];
    // with the host at 0 one slot stays free
    assert_eq!(c.write_all(&data), 1023);
    assert_eq!(c.write_cursor(), 1023);
    assert!(!c.flush());
    // the host reads everything; the rest fits after a wrap
    c.host_update(1023, MODE_BLOCK_IF_FULL);
    assert!(c.flush());
    assert_eq!(c.write_all(&data[1023..]), 77);
    assert_eq!(c.write_cursor(), 76);
}

#[test]
fn blocking_write_does_not_overwrite_unread_bytes() {
    let mut c = RttChannel::new();
    c.host_update(0, MODE_BLOCK_IF_FULL);
    assert_eq!(c.write_all(&[1, 2, 3, 4]), 4);
    c.host_update(2, MODE_BLOCK_IF_FULL);
    let fill = vec![8u8; 2000];
    // room up to the end, then up to one before the host's cursor
    assert_eq!(c.write_all(&fill), 1020 + 1);
    let b = c.buffer().get();
    assert_eq!(b[2], 3);
    assert_eq!(b[3], 4);
    assert_eq!(b[0], 8);
    assert_eq!(b[1], 2);
    assert_eq!(c.write_cursor(), 1);
}
