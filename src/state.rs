//! What is known of the module: its revision and its serial settings.
use vstd::prelude::*;
use crate::protocol::LINE_CAPACITY;
use crate::serial::{BaudRate, CharSize, FlowControl, Parity, StopBits};

verus! {

/// The last known state of the module.
pub struct State {
    module_revision: ModuleRevision,
    current_uart_config: UartConfig,
    default_uart_config: UartConfig,
}

/// The firmware revision the module reports.
pub struct ModuleRevision {
    pub at_version: heapless::String<LINE_CAPACITY>,
    pub sdk_version: heapless::String<LINE_CAPACITY>,
    pub compile_time: heapless::String<LINE_CAPACITY>,
}

/// The serial settings of the module's UART.
pub struct UartConfig {
    baud_rate: BaudRate,
    char_size: CharSize,
    stop_bits: StopBits,
    parity: Parity,
    flow_control: FlowControl,
}

} // verus!
