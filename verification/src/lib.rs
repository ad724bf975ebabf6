//! Hashes of the chunks and regions of a Minecraft save, snapshots of them, and what differs
//! between two snapshots.
pub mod anvil;
pub mod anvil_laws;
pub mod archive;
pub mod b_linear;
pub mod b_linear_laws;
pub mod block_laws;
pub mod blockhash;
pub mod blockhash_laws;
pub mod bytes;
pub mod bytes_laws;
pub mod cli;
pub mod codec;
pub mod compare;
pub mod compare_laws;
pub mod compare_record_laws;
pub mod encoding_laws;
pub mod format_laws;
pub mod hash;
pub mod html;
pub mod inspect;
pub mod inspect_laws;
pub mod json;
pub mod json_report;
pub mod linear;
pub mod linear_laws;
pub mod name_laws;
pub mod nbt;
pub mod order;
pub mod region_laws;
pub mod report;
pub mod report_laws;
pub mod scan;
pub mod scan_laws;
pub mod snapshot;
pub mod snapshot_laws;
pub mod text;
pub mod util;
pub mod util_laws;
pub mod view_laws;
