//! A 9P-style file-serving core: handle (fid) and identity (qid) pools,
//! per-handle session and file state, a device registry, a namespace
//! resolver, and an archive-backed file server with a binary directory
//! entry codec.

pub mod dev;
pub mod dir;
pub mod fidmap;
pub mod initrd;
pub mod namespace;
pub mod nine_p;
pub mod qidpool;
pub mod strutil;
pub mod tar;
pub mod wire;

use vstd::prelude::*;

verus! {

/// A fid: a caller-scoped integer handle naming a claim on a path within
/// one backing server.
pub type Fid = u32;

/// The reserved "no fid" value, used for authless attach.
pub const NO_FID: Fid = 0;

} // verus!

