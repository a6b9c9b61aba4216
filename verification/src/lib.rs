//! The decisions of `sandbox-run`, a launcher that runs a command under bubblewrap: how the
//! invocation is read, which binary is meant, which files and environment variables reach the
//! sandbox, and the argument vector handed to `bwrap`.
//!
//! Nothing here touches the system. Paths, arguments and environment values are byte strings
//! (`Vec<u8>`); what is shown to a person or split into words is text (`String`).

pub mod args;
pub mod binds;
pub mod bwrap;
pub mod decimal;
pub mod dotenv;
pub mod environ;
pub mod invocation;
pub mod lookup;
pub mod order;
pub mod passthrough;
pub mod path;
pub mod pieces;
pub mod settings;
pub mod status;
pub mod text;
