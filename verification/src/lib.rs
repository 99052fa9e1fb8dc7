//! The logic of a tool that connects to Ethernet devices of unknown address:
//! it reads and changes the IPv4 configuration of network adapters, guards
//! every change with a backup, searches for the subnet on which a device
//! answers, tells what the devices on a subnet are, and draws the terminals
//! that run against them.
//!
//! Nothing here touches a network, a disk or a window. What commands print,
//! what files hold and what the network answers comes in as plain values, and
//! what is to be done goes out as such. Each function states what it does over
//! the models in its module.
pub mod ansi;
pub mod autodetect;
pub mod devices;
pub mod identify;
pub mod ipv6;
pub mod netconfig;
pub mod netiface;
pub mod oui;
pub mod process;
pub mod pty;
pub mod scanner;
pub mod session;
pub mod subnets;
pub mod terminal;
pub mod text;
pub mod tools;
pub mod validate;
pub mod vt;
