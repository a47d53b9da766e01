//! Host side of a small firmware-update protocol: frame codec, image
//! rendering, sessions, wire adapters and the logic of the command line.
//!
//! Every function in this crate is verified, but for three of the standard
//! library whose contracts [`text`] states and takes on trust. What talks to
//! the operating system or to a bus lives outside it and hands plain values
//! in.

pub mod adapters;
pub mod cli;
pub mod device;
pub mod error;
pub mod frame;
pub mod hex;
pub mod ihex;
pub mod image;
pub mod install;
pub mod le;
pub mod session;
pub mod sim;
pub mod stream;
pub mod text;
pub mod transport;
pub mod wire;

pub use error::Error;
pub use session::{DeviceInfo, Session};
pub use transport::Transport;
