pub mod uart_service;
