//! Verified core of the ESP32-C3 development wallet firmware: the decisions and
//! text handling behind the Wi-Fi access point, the web form and the OLED display.

pub mod bounded;
pub mod config;
pub mod display;
pub mod line_breaks;
pub mod network;
pub mod text;
pub mod web;
pub mod wifi;
