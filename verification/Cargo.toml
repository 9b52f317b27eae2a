[package]
name = "fft-analyzer"
version = "0.1.0"
edition = "2021"
publish = false

[dependencies]
defmt = "=1.2.0"
embassy-executor = { version = "=0.10.0", features = ["defmt", "platform-spin", "executor-thread"] }
embassy-stm32 = { version = "=0.6.0", features = ["defmt", "stm32h753zi", "time-driver-any", "exti"] }
embassy-sync = { version = "=0.8.0", features = ["defmt"] }
embassy-usb = { version = "=0.6.0", features = ["defmt"] }
grounded = "=0.2.1"
micromath = "=2.1.0"
static_cell = "=2.1.1"
