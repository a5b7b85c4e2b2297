[package]
name = "dev_wallet"
version = "0.1.0"
edition = "2021"
publish = false

[dependencies]
heapless = "=0.8.0"
embassy-net = { version = "=0.7.1", features = ["proto-ipv4", "medium-ethernet", "tcp"] }
embassy-executor = "=0.9.1"
embassy-sync = "=0.7.2"
embassy-time = "=0.5.0"
embedded-graphics = "=0.8.1"
ssd1306 = { version = "=0.10.0", features = ["async"] }
picoserve = { version = "=0.17.1", features = ["embassy"] }
static_cell = "=2.1.1"
log = "=0.4.28"
esp-hal = "=1.0.0"
esp-radio = "=0.16.0"
esp-rtos = "=0.1.1"
esp-println = "=0.16.1"
esp-alloc = "=0.9.0"
esp-bootloader-esp-idf = "=0.4.0"
bt-hci = "=0.6.0"
trouble-host = "=0.5.1"
