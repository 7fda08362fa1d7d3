pub mod ring_buf;
