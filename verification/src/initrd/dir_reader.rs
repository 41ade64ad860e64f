//! The forward-only directory entry reader: each read serves the next
//! child of one directory, wire-encoded.

use vstd::prelude::*;
use vstd::string::StrSliceExecFns;
use vstd::string::StringExecFns;
use crate::dir::Dir;
use crate::dir::DirView;
use crate::dir::encodable;
use crate::dir::spec_dir_bytes;
use crate::nine_p::DevError;
use crate::nine_p::RWCWrapper;
use crate::qidpool::Pool;
use crate::qidpool::Qid;
use crate::qidpool::put_transition;
use crate::tar::TarEntry;
use super::InitRD;
use super::entry_wf;
use super::full_name;
use super::spec_tar_qid;
use super::tar_to_qid;

verus! {

/// A one-way cursor over the children of one directory, each child named
/// by its index into the archive's entry list.
pub struct Reader {
    pub dir: Vec<usize>,
    pub pos: usize,
}

/// The directory record served for entry `e` under qid `q`: times and size
/// from the archive, the name prefixed with `/`, and the archive's owner
/// strings (the owner also standing in for the last modifier).
pub open spec fn spec_entry_dir(e: TarEntry, q: Qid) -> DirView {
    DirView {
        dir_type: 0,
        dev: 0,
        qid: q,
        mode: 0,
        atime: match e.header.atime {
            Some(t) => t as u32,
            None => 0,
        },
        mtime: e.header.mtime as u32,
        length: e.data@.len() as u64,
        name: full_name(e),
        uid: e.header.uname@,
        gid: e.header.gname@,
        muid: e.header.uname@,
    }
}

impl Reader {
    /// Whether the cursor is sound for an archive of `n` entries.
    pub open spec fn wf(&self, n: int) -> bool {
        &&& self.pos <= self.dir@.len()
        &&& self.dir@.len() <= n
        &&& forall|k: int| 0 <= k < self.dir@.len() ==> #[trigger] self.dir@[k] < n
    }

    pub fn new(dir: Vec<usize>) -> (r: Reader)
        ensures
            r.dir == dir,
            r.pos == 0,
    {
        Reader { dir, pos: 0 }
    }

    /// Serves the entry under the cursor: advances the cursor by exactly
    /// one entry, allocates or looks up the entry's qid, and returns the
    /// encoded record, unless it is longer than `count` (`SmallRead`) or
    /// the entries are exhausted (`EOF`).
    pub fn read(&mut self, archive: &InitRD, pool: &mut Pool, count: usize) -> (r: Result<
        Vec<u8>,
        DevError,
    >)
        requires
            archive.wf(),
            old(pool).wf(),
            old(pool).next() < u64::MAX,
            old(self).wf(archive.entries@.len() as int),
        ensures
            final(pool).wf(),
            final(self).wf(archive.entries@.len() as int),
            final(self).dir == old(self).dir,
            old(self).pos >= old(self).dir@.len() ==> r == Err::<Vec<u8>, DevError>(DevError::EOF)
                && *final(self) == *old(self) && *final(pool) == *old(pool),
            old(self).pos < old(self).dir@.len() ==> {
                let e = archive.entries@[old(self).dir@[old(self).pos as int] as int];
                let q = old(pool).spec_put_qid(full_name(e), spec_tar_qid(e.header.typeflag));
                let rec = spec_dir_bytes(spec_entry_dir(e, q));
                &&& put_transition(*old(pool), *final(pool), full_name(e), spec_tar_qid(e.header.typeflag))
                &&& final(self).pos == old(self).pos + 1
                &&& rec.len() > count ==> r == Err::<Vec<u8>, DevError>(DevError::SmallRead)
                &&& rec.len() <= count ==> (r matches Ok(b) && b@ == rec)
                &&& rec.len() <= 65537
            },
    {
        if self.pos >= self.dir.len() {
            return Err(DevError::EOF);
        }
        let idx = self.dir[self.pos];
        self.pos = self.pos + 1;
        let e = archive.entry(idx);
        proof {
            assert(entry_wf(archive.entries@[idx as int]));
        }
        let name = String::from_str("/").concat(e.header.name.as_str());
        proof {
            reveal_strlit("/");
            assert(name@ =~= full_name(*e));
        }
        let qtype = tar_to_qid(e.header.typeflag);
        let qid = pool.put(name.as_str(), qtype);
        let atime: u32 = match e.header.atime {
            Some(t) => t as u32,
            None => 0,
        };
        let record = Dir::new(
            0,
            0,
            &qid,
            0,
            atime,
            e.header.mtime as u32,
            e.data.len() as u64,
            name.as_str(),
            e.header.uname.as_str(),
            e.header.gname.as_str(),
            e.header.uname.as_str(),
        );
        proof {
            assert(record@ == spec_entry_dir(archive.entries@[idx as int], qid));
            assert(encodable(record@));
        }
        let bytes = record.as_bytes();
        proof {
            vstd::bytes::lemma_auto_spec_u16_to_from_le_bytes();
            vstd::bytes::lemma_auto_spec_u32_to_from_le_bytes();
            vstd::bytes::lemma_auto_spec_u64_to_from_le_bytes();
            assert(bytes@.len() <= 65537);
        }
        if bytes.len() > count {
            return Err(DevError::SmallRead);
        }
        Ok(bytes)
    }
}

impl RWCWrapper {
    /// Positional access to the sequential reader: a request at any offset
    /// other than the running cursor fails `NoSeek`; a served record
    /// advances the cursor by its length.
    pub fn read_at(&mut self, archive: &InitRD, pool: &mut Pool, pos: u64, count: usize) -> (r:
        Result<Vec<u8>, DevError>)
        requires
            archive.wf(),
            old(pool).wf(),
            old(pool).next() < u64::MAX,
            old(self).reader.wf(archive.entries@.len() as int),
            old(self).offset + 65537 <= u64::MAX,
        ensures
            final(pool).wf(),
            final(self).reader.wf(archive.entries@.len() as int),
            final(self).reader.dir == old(self).reader.dir,
            pos != old(self).offset ==> r == Err::<Vec<u8>, DevError>(DevError::NoSeek) && *final(self) == *old(self) && *final(pool) == *old(pool),
            pos == old(self).offset && old(self).reader.pos >= old(self).reader.dir@.len() ==> r
                == Err::<Vec<u8>, DevError>(DevError::EOF) && *final(self) == *old(self) && *final(pool) == *old(pool),
            pos == old(self).offset && old(self).reader.pos < old(self).reader.dir@.len() ==> {
                let e = archive.entries@[old(self).reader.dir@[old(self).reader.pos as int] as int];
                let q = old(pool).spec_put_qid(full_name(e), spec_tar_qid(e.header.typeflag));
                let rec = spec_dir_bytes(spec_entry_dir(e, q));
                &&& put_transition(*old(pool), *final(pool), full_name(e), spec_tar_qid(e.header.typeflag))
                &&& final(self).reader.pos == old(self).reader.pos + 1
                &&& rec.len() > count ==> r == Err::<Vec<u8>, DevError>(DevError::SmallRead)
                    && final(self).offset == old(self).offset
                &&& rec.len() <= count ==> (r matches Ok(b) && b@ == rec && final(self).offset
                    == old(self).offset + rec.len())
                &&& rec.len() <= 65537
            },
    {
        if pos != self.offset {
            return Err(DevError::NoSeek);
        }
        match self.reader.read(archive, pool, count) {
            Ok(b) => {
                self.offset = self.offset + b.len() as u64;
                Ok(b)
            },
            Err(e) => Err(e),
        }
    }
}

} // verus!
