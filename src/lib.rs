//! A driver for the AT command interface of an ESP32 Wi-Fi/Bluetooth
//! coprocessor, over a byte-at-a-time non-blocking serial transport.
pub mod bounded;
pub mod command_sets;
pub mod driver;
pub mod protocol;
pub mod serial;
pub mod state;

pub use command_sets::CommandSets;
pub use driver::{CommandSet, Error, Esp32At, SerialRead, SerialWrite};
pub use serial::{BaudRate, CharSize, FlowControl, Parity, StopBits};
pub use state::{ModuleRevision, State, UartConfig};
