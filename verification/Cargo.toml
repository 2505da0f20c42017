[package]
name = "clawlight-firmware"
version = "0.1.0"
edition = "2021"
publish = false

[dependencies]
esp-hal = { version = "1", features = ["esp32c6", "unstable"] }
esp-storage = { version = "*", features = ["esp32c6"] }
esp-bootloader-esp-idf = { version = "*", features = ["esp32c6"] }
embedded-storage = "0.3"
esp-backtrace = { version = "*", features = ["esp32c6", "panic-handler", "println"] }
