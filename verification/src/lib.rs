//! A bridge that hands one local TCP connection to a legacy child program.
//!
//! The library holds the rules of the bridge: how the descriptor value is put
//! into the child's argument list, how the `DOOR32.SYS` status file is read and
//! rewritten in code page 437, and in which order the stages run. Opening the
//! socket, duplicating the handle, touching the file system and starting the
//! child are left to the program built around it.

pub mod bridge;
pub mod codepage;
pub mod descriptor;
pub mod dropfile;
pub mod launch;
pub mod text;
