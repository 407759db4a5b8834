//! The control plane for HID-BPF: which compiled BPF objects belong to a HID
//! device, in which order they are tried, and how one of them is probed,
//! attached and pinned.
//!
//! Nothing in this library touches the system. Devices, type tables, object
//! files and the file system come in as plain values, and what is to be done
//! to the kernel goes out as plain values; the contracts say what comes out
//! for what goes in.
//!
//! - `modalias`: the device-match descriptor and its textual form.
//! - `btf`: the devices that an object declares in its type table.
//! - `hidudev`: a HID device, its properties and the hints among them.
//! - `locate`, `plan`, `plan_laws`: finding object files and ordering them
//!   into fallback groups.
//! - `bpf`, `bpf_laws`: the engine that probes, attaches and pins one object.
//! - `inspect`, `cli`: what the command line shows and is given.
//! - `pattern`: what the regex crate finds in a text.
//! - `hex`, `order`, `paths`, `text`: texts, numbers and paths.

pub mod bpf;
pub mod bpf_laws;
pub mod btf;
pub mod cli;
pub mod hex;
pub mod hidudev;
pub mod inspect;
pub mod locate;
pub mod modalias;
pub mod order;
pub mod paths;
pub mod pattern;
pub mod plan;
pub mod plan_laws;
pub mod text;
