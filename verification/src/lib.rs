//! Verified core of an RP2xxx firmware that sends `defmt` log frames over
//! SEGGER RTT and a USB CDC-ACM double buffer, and runs a small serial shell.

pub mod rtt;
pub mod usb_log;
pub mod logger;
pub mod text;
pub mod shell;
pub mod reset;
