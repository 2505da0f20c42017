//! Verified core of the clawlight status-LED firmware: the line protocol that
//! drives the three LEDs, the serial firmware-update protocol, the trigger
//! parser and the CRC-32 that guards an update.

pub mod console;
pub mod crc;
pub mod leds;
pub mod ota;
pub mod trigger;
