# clawlight-firmware

Firmware for the Seeed XIAO ESP32-C6 that drives the three clawlight status
LEDs and accepts firmware updates over its USB serial link.

- `src/` — the verified library (Verus):
  - `leds` — which LEDs a command line lights;
  - `console` — the command loop as a state machine (line assembly, LED
    commands, update trigger, image confirmation, host-silence timeout);
  - `ota` — the serial update protocol as a state machine (block transfer,
    stall timeout, verify-before-activate), the bounded reply wait, and the
    image-confirmation rule;
  - `trigger` — parsing `<len>:<crc32>`;
  - `crc` — CRC-32 (IEEE / zlib).
- `app/main.rs` — the board driver: pins, USB-Serial-JTAG, flash and OTA
  partitions (esp-hal, esp-storage, esp-bootloader-esp-idf). It performs the
  actions the state machines ask for and reports what happened.
- `tests/` — tests of the library.
