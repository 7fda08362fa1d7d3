pub mod plic;
pub mod traits;
pub mod uart;
pub mod uart_polling;
