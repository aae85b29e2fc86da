//! Scanner backends: what is decided about scanners between the tools, sockets and files that
//! reach them and the service that offers them.
//!
//! - [`brother`] and [`hplip`] are the two backends: discovery, what has to be installed, the
//!   panel of a device, and which scan a press of a panel key asks for.
//! - [`skey`] is the scan-key protocol of Brother panels, and [`scanimage`] the acquisition
//!   that follows a press.
//! - [`mdns`] is DNS-SD: one bounded browse window, and one record that this host publishes.
//! - [`model`] is what scanners, errors and processes are to all of them; [`text`], [`net`],
//!   [`time`], [`keyed`] and [`hostname`] are what the rest is written with.
//!
//! Nothing in here opens a socket, runs a program or reads a file. What came of doing so is
//! handed in as a plain value; where one answer leads to the next question, a state machine
//! says which.
use vstd::prelude::*;

pub mod brother;
pub mod hostname;
pub mod hplip;
pub mod keyed;
pub mod mdns;
pub mod model;
pub mod net;
pub mod scanimage;
pub mod skey;
pub mod text;
pub mod time;
