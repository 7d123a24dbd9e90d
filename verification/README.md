# embassy_rp_base

Firmware for RP2xxx boards that sends `defmt` log frames both over SEGGER RTT
and over a USB CDC-ACM port, and offers a small command shell on a second
CDC-ACM port. The decisions of the firmware live in a library verified with
Verus; the hardware glue lives in `app/`.

- `src/rtt.rs` — the RTT up-channel ring buffer: free-space computation,
  blocking and non-blocking writes, and proofs that blocking writes queue
  behind unread bytes without overwriting them.
- `src/usb_log.rs` — the USB double buffer (two halves that alternate between
  taking log bytes and being sent), the logger settings, the cutting of a
  drained half into USB packets, and the USB task's decisions (sending a half
  packet by packet and stopping at the first endpoint fault; turning logging
  on when a host connects and off when it leaves).
- `src/logger.rs` — the global logger's state: the re-entrancy flag, the
  `defmt` frame encoder, and both sinks.
- `src/shell.rs`, `src/text.rs` — line editing, command parsing and the
  shell's replies.
- `src/reset.rs` — the vendor interface that reboots into the bootloader.
- `app/` — `main`, USB device set-up, the RTT control block in RAM, the
  `defmt::Logger` impl, and the async tasks that move bytes.
