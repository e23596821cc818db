[package]
name = "hello_serial"
version = "0.1.0"
edition = "2021"
publish = false

[dependencies]
cortex-m = "0.6"
cortex-m-rt = "0.6"
cortex-m-semihosting = "0.3"
embedded-hal = "0.2"
futures-core = { version = "0.3", default-features = false }
futures-util = { version = "0.3", default-features = false }
panic-semihosting = "0.5"
pin-utils = "0.1"
stm32f4xx-hal = { version = "0.8", default-features = false, features = ["stm32f407", "rt"] }
