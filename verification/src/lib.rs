//! Codec for the ARF archive container: the binary layout of its header and
//! directories, the XOR obfuscation passes, and the two inverse operations
//! that pack files into an archive and unpack an archive back into files.
//!
//! The codec works on plain values: the surrounding tool enumerates input
//! files and performs the filesystem reads and writes, and hands byte vectors
//! in and out of this crate.
#![allow(unused_imports)]

pub mod pack;
pub mod types;
pub mod unpack;
pub mod xor;

use crate::pack::{pack_arf, pack_ok, spec_pack, PackOpts};
use crate::types::{file_views, ArfError, ArfFile};
use crate::unpack::{spec_unpack, unpack_arf, UnpackOpts};
use vstd::prelude::*;

verus! {

/// The two operations the tool performs, each with what it needs.
pub enum Command {
    /// Unpack the resources of an archive into individual files.
    Unpack(UnpackOpts),
    /// Pack an enumerated directory of resources into an ARF archive.
    Pack(PackOpts),
}

/// What a processed command yields: the packed archive's bytes, or the files
/// an archive held.
#[derive(Debug)]
pub enum ProcessOutput {
    Packed(Vec<u8>),
    Unpacked(Vec<ArfFile>),
}

impl Command {
    /// Dispatch the command: pack the given files into archive bytes, or
    /// unpack the given archive bytes into files.
    pub fn process(self) -> (r: Result<ProcessOutput, ArfError>)
        requires
            self matches Command::Pack(opts) ==> pack_ok(file_views(opts.files@)),
        ensures
            (self matches Command::Pack(opts) ==> (r matches Ok(out) && out matches
                ProcessOutput::Packed(bytes) && bytes@ == spec_pack(file_views(opts.files@)))),
            (self matches Command::Unpack(opts) ==> (match spec_unpack(opts.archive@) {
                Ok(fv) => r matches Ok(out) && out matches ProcessOutput::Unpacked(files)
                    && file_views(files@) == fv,
                Err(e) => r == Err::<ProcessOutput, ArfError>(e),
            })),
    {
        match self {
            Command::Unpack(opts) => match unpack_arf(&opts.archive) {
                Ok(files) => Ok(ProcessOutput::Unpacked(files)),
                Err(e) => Err(e),
            },
            Command::Pack(opts) => Ok(ProcessOutput::Packed(pack_arf(&opts.files))),
        }
    }
}

} // verus!
