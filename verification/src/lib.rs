//! jolt programs STM32L0 microcontrollers over the USART bootloader.

pub mod bootloader;
pub mod chip;
pub mod cli;
pub mod commands;
pub mod connection;
pub mod device;
pub mod error;
pub mod firmware;
pub mod flash;
pub mod frame;
pub mod image;
pub mod plan;
pub mod port;
pub mod progress;
pub mod scripted;
pub mod session;
pub mod target;
pub mod text;
pub mod wire;
