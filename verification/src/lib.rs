//! Listening TCP ports: the logic that turns the output of the system's
//! port and process listing tools into a table of ports.
pub mod text;
pub mod number;
pub mod decode;
pub mod ports;
pub mod windows;
pub mod macos;
pub mod table;
pub mod scan;
pub mod actions;
pub mod laws;
