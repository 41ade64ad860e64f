//! The file-protocol layer: error kinds, sessions, files and their I/O
//! capabilities, open modes, and the capability set every backing server
//! implements.

use vstd::prelude::*;
use vstd::string::StringExecFns;
use crate::Fid;
use crate::qidpool::Pool;
use crate::qidpool::Qid;
use crate::qidpool::put_transition;
use crate::initrd::InitRD;
use crate::initrd::full_name;
use crate::initrd::spec_tar_qid;
use crate::initrd::dir_reader::Reader;
use crate::initrd::dir_reader::spec_entry_dir;
use crate::dir::spec_dir_bytes;

verus! {

/// The closed set of failures a server operation can report.
#[derive(Debug, PartialEq, Eq)]
pub enum DevError {
    EOF,
    AuthNotNeeded,
    PermissionDenied,
    FidInUse,
    NoFid,
    NoSeek,
    SmallRead,
    NoSuchFile,
    NotADir,
    FileOpen,
    Str(String),
}

impl DevError {
    /// A human-readable description of the error.
    pub fn description(&self) -> (r: String)
        ensures
            r@ == match self {
                DevError::EOF => "End of file"@,
                DevError::AuthNotNeeded => "Authentication not required"@,
                DevError::PermissionDenied => "Permission denied"@,
                DevError::FidInUse => "Fid already in use"@,
                DevError::NoFid => "Fid does not exit"@,
                DevError::NoSeek => "File does not support seeking"@,
                DevError::SmallRead => "Read size too small for data"@,
                DevError::NoSuchFile => "No such file or directory"@,
                DevError::NotADir => "Not a directory"@,
                DevError::FileOpen => "File is open"@,
                DevError::Str(s) => s@,
            },
    {
        match self {
            DevError::EOF => String::from_str("End of file"),
            DevError::AuthNotNeeded => String::from_str("Authentication not required"),
            DevError::PermissionDenied => String::from_str("Permission denied"),
            DevError::FidInUse => String::from_str("Fid already in use"),
            DevError::NoFid => String::from_str("Fid does not exit"),
            DevError::NoSeek => String::from_str("File does not support seeking"),
            DevError::SmallRead => String::from_str("Read size too small for data"),
            DevError::NoSuchFile => String::from_str("No such file or directory"),
            DevError::NotADir => String::from_str("Not a directory"),
            DevError::FileOpen => String::from_str("File is open"),
            DevError::Str(s) => s.clone(),
        }
    }
}

/// Per-attach identity: who attached and with which access specification.
#[derive(Debug)]
pub struct Session {
    pub user: String,
    pub access: String,
}

impl Session {
    pub fn new(user: &str, access: &str) -> (r: Session)
        ensures
            r.user@ == user@,
            r.access@ == access@,
    {
        Session { user: user.to_owned(), access: access.to_owned() }
    }

    /// A second session with the same identity.
    pub fn duplicate(&self) -> (r: Session)
        ensures
            r == *self,
    {
        Session { user: self.user.clone(), access: self.access.clone() }
    }
}

/// The I/O capability a file delegates reads to once it has been opened.
pub enum IoCap {
    /// An archive member's raw bytes, addressed positionally.
    Bytes(Vec<u8>),
    /// A forward-only directory entry stream behind its positional adapter.
    DirStream(RWCWrapper),
}

/// Adapts the sequential directory reader to a positional interface: it
/// tracks a running offset and rejects any other requested position.
pub struct RWCWrapper {
    pub reader: Reader,
    pub offset: u64,
}

impl RWCWrapper {
    pub fn new(reader: Reader) -> (r: RWCWrapper)
        ensures
            r.reader == reader,
            r.offset == 0,
    {
        RWCWrapper { reader, offset: 0 }
    }
}

/// Per-fid file state: the bound path, whether the fid authenticates, and
/// the I/O capability bound by a successful open.
pub struct File {
    pub name: String,
    pub auth: bool,
    pub rwc: Option<IoCap>,
}

impl File {
    pub fn new(name: &str, auth: bool, rwc: Option<IoCap>) -> (r: File)
        ensures
            r.name@ == name@,
            r.auth == auth,
            r.rwc == rwc,
    {
        File { name: name.to_owned(), auth, rwc }
    }

    /// The path this file is bound to.
    pub fn name(&self) -> (r: String)
        ensures
            r@ == self.name@,
    {
        self.name.clone()
    }

    pub fn auth(&self) -> (r: bool)
        ensures
            r == self.auth,
    {
        self.auth
    }

    /// The bound I/O capability, if the file has been opened.
    pub fn rwc(&self) -> (r: &Option<IoCap>)
        ensures
            r == &self.rwc,
    {
        &self.rwc
    }

    /// Binds an I/O capability.
    pub fn set_rwc(&mut self, rwc: IoCap)
        ensures
            final(self).name == old(self).name,
            final(self).auth == old(self).auth,
            final(self).rwc == Some(rwc),
    {
        self.rwc = Some(rwc);
    }
}

/// The access a caller asks for when opening a file.
#[derive(Debug, Clone, Copy, PartialEq, Eq, Structural)]
pub enum FileAccessMode {
    Read,
    Write,
    ReadWrite,
    Execute,
}

/// An immutable open request: the access mode and the truncate and
/// remove-on-close flags.
#[derive(Debug, Clone, Copy, PartialEq, Eq, Structural)]
pub struct FileMode {
    pub access: FileAccessMode,
    pub truncate: bool,
    pub remove_on_close: bool,
}

impl FileMode {
    pub open spec fn spec_access(self) -> FileAccessMode {
        self.access
    }

    pub open spec fn spec_truncate(self) -> bool {
        self.truncate
    }

    pub open spec fn spec_remove_on_close(self) -> bool {
        self.remove_on_close
    }

    pub fn new(access: FileAccessMode, truncate: bool, remove_on_close: bool) -> (r: FileMode)
        ensures
            r == (FileMode { access, truncate, remove_on_close }),
    {
        FileMode { access, truncate, remove_on_close }
    }

    pub fn access(&self) -> (r: FileAccessMode)
        ensures
            r == self.access,
    {
        self.access
    }

    pub fn truncate(&self) -> (r: bool)
        ensures
            r == self.truncate,
    {
        self.truncate
    }

    pub fn remove_on_close(&self) -> (r: bool)
        ensures
            r == self.remove_on_close,
    {
        self.remove_on_close
    }
}

/// What a server remembers about one bound fid, as contracts see it.
pub ghost struct FidView {
    pub path: Seq<char>,
    pub open: bool,
}

/// The identity a session was attached with, as contracts see it.
pub ghost struct SessionView {
    pub user: Seq<char>,
    pub access: Seq<char>,
}

/// The path every attach binds to.
pub open spec fn root_path() -> Seq<char> {
    seq!['/']
}

/// The capability set of a backing server: attach, walk, open, read, clunk
/// and remove with the protocol's error semantics.  Write-side operations
/// default to `PermissionDenied`.
pub trait NinePServer: Sized {
    /// The server's internal invariant.
    spec fn inv(&self) -> bool;

    /// The bound fids: each one's path and whether it has been opened.
    spec fn files_view(&self) -> Map<Fid, FidView>;

    /// The session bound to each fid.
    spec fn sessions_view(&self) -> Map<Fid, SessionView>;

    spec fn name_spec(&self) -> char;

    /// The qid of the server's root.
    spec fn root_qid(&self) -> Qid;

    /// Whether a walk of `n` names has room to allocate `n` fresh qids.
    spec fn can_walk(&self, n: nat) -> bool;

    /// Whether a read has room to allocate one fresh qid.
    spec fn can_read(&self) -> bool;

    /// The one-character device name the server registers under.
    fn name(&self) -> (r: char)
        ensures
            r == self.name_spec(),
    ;

    fn description(&self) -> (r: String);

    fn init(&self) {
    }

    fn shutdown(&self) {
    }

    fn reset(&self) {
    }

    /// This scope has no authentication step: `auth` always reports
    /// `AuthNotNeeded` and changes nothing.
    fn auth(&mut self, afid: Fid, uname: &str, aname: &str) -> (r: Result<Qid, DevError>)
        requires
            old(self).inv(),
        ensures
            *final(self) == *old(self),
            r == Err::<Qid, DevError>(DevError::AuthNotNeeded),
    ;

    /// Binds `fid` to the server's root, creating its session and file.
    /// Fails `AuthNotNeeded` for a nonzero afid and `FidInUse` for a bound
    /// fid, changing nothing in either case.
    fn attach(&mut self, fid: Fid, afid: Fid, uname: &str, aname: &str) -> (r: Result<
        Qid,
        DevError,
    >)
        requires
            old(self).inv(),
        ensures
            final(self).inv(),
            final(self).name_spec() == old(self).name_spec(),
            afid != 0 ==> r == Err::<Qid, DevError>(DevError::AuthNotNeeded) && *final(self)
                == *old(self),
            afid == 0 && old(self).files_view().contains_key(fid) ==> r == Err::<Qid, DevError>(
                DevError::FidInUse,
            ) && *final(self) == *old(self),
            afid == 0 && !old(self).files_view().contains_key(fid) ==> r == Ok::<Qid, DevError>(
                old(self).root_qid(),
            ) && old(self).root_qid().spec_is_dir() && final(self).files_view() == old(self).files_view().insert(fid, (FidView { path: root_path(), open: false })) && final(self).sessions_view() == old(self).sessions_view().insert(
                fid,
                (SessionView { user: uname@, access: aname@ }),
            ) && final(self).root_qid() == old(self).root_qid(),
    ;

    /// Releases `fid`: its file and session are removed together.  Always
    /// succeeds, also for an unbound fid.
    fn clunk(&mut self, fid: Fid) -> (r: Result<(), DevError>)
        requires
            old(self).inv(),
        ensures
            final(self).inv(),
            final(self).name_spec() == old(self).name_spec(),
            r == Ok::<(), DevError>(()),
            final(self).files_view() == old(self).files_view().remove(fid),
            final(self).sessions_view() == old(self).sessions_view().remove(fid),
            final(self).root_qid() == old(self).root_qid(),
    ;

    /// Binds an I/O capability to `fid` per its open mode.  Fails `NoFid`
    /// for an unbound fid, `PermissionDenied` for any request to truncate
    /// or remove on close, and `FileOpen` for a fid that is already open;
    /// nothing changes on any failure.
    fn open(&mut self, fid: Fid, mode: &FileMode) -> (r: Result<(Qid, u32), DevError>)
        requires
            old(self).inv(),
        ensures
            final(self).inv(),
            final(self).name_spec() == old(self).name_spec(),
            final(self).root_qid() == old(self).root_qid(),
            !old(self).files_view().contains_key(fid) ==> r == Err::<(Qid, u32), DevError>(
                DevError::NoFid,
            ),
            old(self).files_view().contains_key(fid) && (mode.spec_remove_on_close()
                || mode.spec_truncate()) ==> r == Err::<(Qid, u32), DevError>(
                DevError::PermissionDenied,
            ),
            old(self).files_view().contains_key(fid) && !mode.spec_remove_on_close()
                && !mode.spec_truncate() && old(self).files_view()[fid].open ==> r == Err::<
                (Qid, u32),
                DevError,
            >(DevError::FileOpen),
            r is Err ==> final(self).files_view() == old(self).files_view() && final(self).sessions_view() == old(self).sessions_view(),
            r is Ok ==> old(self).files_view().contains_key(fid) && !old(self).files_view()[fid].open && final(self).files_view() == old(self).files_view().insert(
                fid,
                (FidView { path: old(self).files_view()[fid].path, open: true }),
            ) && final(self).sessions_view() == old(self).sessions_view(),
    ;

    /// Resolves a list of path-segment names from `fid` into `new_fid`,
    /// returning one qid per resolved name; see the archive server for the
    /// resolution rules.  On any failure nothing is bound.
    fn walk(&mut self, fid: Fid, new_fid: Fid, names: &[&str]) -> (r: Result<Vec<Qid>, DevError>)
        requires
            old(self).inv(),
            old(self).can_walk(names@.len() as nat),
        ensures
            final(self).inv(),
            final(self).name_spec() == old(self).name_spec(),
            final(self).root_qid() == old(self).root_qid(),
            !old(self).files_view().contains_key(fid) ==> r == Err::<Vec<Qid>, DevError>(
                DevError::NoFid,
            ) && *final(self) == *old(self),
            old(self).files_view().contains_key(fid) && names@.len() > 0 && fid != new_fid && old(self).files_view().contains_key(new_fid) ==> r == Err::<Vec<Qid>, DevError>(
                DevError::FidInUse,
            ) && *final(self) == *old(self),
            r is Err ==> final(self).files_view() == old(self).files_view() && final(self).sessions_view() == old(self).sessions_view(),
            r matches Ok(v) ==> v@.len() <= names@.len() && old(self).files_view().contains_key(fid)
                && final(self).files_view() == old(self).files_view().insert(
                new_fid,
                final(self).files_view()[new_fid],
            ) && final(self).files_view().contains_key(new_fid) && final(self).files_view()[new_fid].open == false && final(self).sessions_view() == old(self).sessions_view().insert(new_fid, old(self).sessions_view()[fid]),
            old(self).files_view().contains_key(fid) && names@.len() == 0 ==> (r matches Ok(v)
                && v@.len() == 0 && final(self).files_view() == old(self).files_view().insert(
                new_fid,
                (FidView { path: old(self).files_view()[fid].path, open: false }),
            )),
    ;

    /// Reads from an open fid through its bound I/O capability.  Fails
    /// `NoFid` for an unbound fid and with a descriptive error for a fid
    /// that has not been opened.  No fid's binding changes.
    fn read(&mut self, fid: Fid, offset: u64, count: usize) -> (r: Result<Vec<u8>, DevError>)
        requires
            old(self).inv(),
            old(self).can_read(),
        ensures
            final(self).inv(),
            final(self).name_spec() == old(self).name_spec(),
            final(self).root_qid() == old(self).root_qid(),
            final(self).files_view() == old(self).files_view(),
            final(self).sessions_view() == old(self).sessions_view(),
            !old(self).files_view().contains_key(fid) ==> r == Err::<Vec<u8>, DevError>(
                DevError::NoFid,
            ),
            old(self).files_view().contains_key(fid) && !old(self).files_view()[fid].open ==> r
                is Err,
            r matches Ok(b) ==> b@.len() <= count && old(self).files_view().contains_key(fid)
                && old(self).files_view()[fid].open,
    ;

    fn create(&self, _fid: Fid, _name: &str, _perm: u32, _mode: &FileMode) -> (r: Result<
        (Qid, u32),
        DevError,
    >)
        ensures
            r == Err::<(Qid, u32), DevError>(DevError::PermissionDenied),
    {
        Err(DevError::PermissionDenied)
    }

    fn write(&self) -> (r: Result<(), DevError>)
        ensures
            r == Err::<(), DevError>(DevError::PermissionDenied),
    {
        Err(DevError::PermissionDenied)
    }

    /// Removes the fid's file and session, then reports `PermissionDenied`:
    /// a read-only store never actually deletes.
    fn remove(&mut self, fid: Fid) -> (r: Result<(), DevError>)
        requires
            old(self).inv(),
        ensures
            final(self).inv(),
            final(self).name_spec() == old(self).name_spec(),
            final(self).root_qid() == old(self).root_qid(),
            r == Err::<(), DevError>(DevError::PermissionDenied),
            final(self).files_view() == old(self).files_view().remove(fid),
            final(self).sessions_view() == old(self).sessions_view().remove(fid),
    ;

    fn stat(&self) -> (r: Result<(), DevError>);

    fn wstat(&self) -> (r: Result<(), DevError>)
        ensures
            r == Err::<(), DevError>(DevError::PermissionDenied),
    {
        Err(DevError::PermissionDenied)
    }
}

/// A positional read out of a raw byte capability: everything from
/// `offset` up to `count` bytes, `EOF` at or past the end.
pub fn bytes_read_at(data: &Vec<u8>, offset: u64, count: usize) -> (r: Result<Vec<u8>, DevError>)
    ensures
        offset >= data@.len() ==> r == Err::<Vec<u8>, DevError>(DevError::EOF),
        offset < data@.len() ==> (r matches Ok(b) && b@ == data@.subrange(
            offset as int,
            if count <= data@.len() - offset {
                offset + count
            } else {
                data@.len() as int
            },
        )),
{
    let len = data.len();
    if offset >= len as u64 {
        return Err(DevError::EOF);
    }
    let start = offset as usize;
    let read_len: usize = if count <= len - start {
        count
    } else {
        len - start
    };
    let mut out: Vec<u8> = Vec::new();
    let mut k: usize = 0;
    while k < read_len
        invariant
            0 <= k <= read_len,
            start + read_len <= data@.len(),
            data@.len() <= usize::MAX,
            out@.len() == k,
            forall|j: int| 0 <= j < k ==> out@[j] == data@[start + j],
        decreases read_len - k,
    {
        proof {
            assert(start + k < data@.len());
        }
        out.push(data[start + k]);
        k = k + 1;
    }
    proof {
        assert(out@ =~= data@.subrange(
            offset as int,
            if count <= data@.len() - offset {
                offset + count
            } else {
                data@.len() as int
            },
        ));
    }
    Ok(out)
}

/// Reads from a file through its bound I/O capability, handing the file
/// back beside the result.  A file with no capability has not been opened
/// and reports a descriptive error.
pub fn default_read(file: File, archive: &InitRD, pool: &mut Pool, offset: u64, count: usize) -> (r:
    (File, Result<Vec<u8>, DevError>))
    requires
        archive.wf(),
        old(pool).wf(),
        old(pool).next() < u64::MAX,
        file.rwc matches Some(IoCap::DirStream(w)) ==> w.reader.wf(
            archive.entries@.len() as int,
        ) && w.offset + 65537 <= u64::MAX,
    ensures
        final(pool).wf(),
        r.0.name == file.name,
        r.0.auth == file.auth,
        file.rwc is None ==> {
            &&& r.0.rwc is None
            &&& *final(pool) == *old(pool)
            &&& r.1 matches Err(e) && e matches DevError::Str(m) && m@ == "File "@ + file.name@
                + " not open for reading"@
        },
        file.rwc matches Some(IoCap::Bytes(d)) ==> {
            &&& r.0.rwc == file.rwc
            &&& *final(pool) == *old(pool)
            &&& offset >= d@.len() ==> r.1 == Err::<Vec<u8>, DevError>(DevError::EOF)
            &&& offset < d@.len() ==> (r.1 matches Ok(b) && b@ == d@.subrange(
                offset as int,
                if count <= d@.len() - offset {
                    offset + count
                } else {
                    d@.len() as int
                },
            ))
        },
        file.rwc matches Some(IoCap::DirStream(w)) ==> {
            &&& r.0.rwc matches Some(IoCap::DirStream(w2)) && w2.reader.dir == w.reader.dir
                && w2.reader.wf(archive.entries@.len() as int) && {
                &&& offset != w.offset ==> r.1 == Err::<Vec<u8>, DevError>(DevError::NoSeek) && w2
                    == w && *final(pool) == *old(pool)
                &&& offset == w.offset && w.reader.pos >= w.reader.dir@.len() ==> r.1 == Err::<
                    Vec<u8>,
                    DevError,
                >(DevError::EOF) && w2 == w && *final(pool) == *old(pool)
                &&& offset == w.offset && w.reader.pos < w.reader.dir@.len() ==> {
                    let e = archive.entries@[w.reader.dir@[w.reader.pos as int] as int];
                    let q = old(pool).spec_put_qid(full_name(e), spec_tar_qid(e.header.typeflag));
                    let rec = spec_dir_bytes(spec_entry_dir(e, q));
                    &&& put_transition(*old(pool), *final(pool), full_name(e), spec_tar_qid(e.header.typeflag))
                    &&& w2.reader.pos == w.reader.pos + 1
                    &&& rec.len() > count ==> r.1 == Err::<Vec<u8>, DevError>(DevError::SmallRead)
                        && w2.offset == w.offset
                    &&& rec.len() <= count ==> (r.1 matches Ok(b) && b@ == rec && w2.offset
                        == w.offset + rec.len())
                    &&& rec.len() <= 65537
                }
            }
        },
{
    let File { name, auth, rwc } = file;
    match rwc {
        None => {
            let msg = String::from_str("File ").concat(name.as_str()).concat(
                " not open for reading",
            );
            let out = File { name, auth, rwc: None };
            (out, Err(DevError::Str(msg)))
        },
        Some(IoCap::Bytes(d)) => {
            let res = bytes_read_at(&d, offset, count);
            let out = File { name, auth, rwc: Some(IoCap::Bytes(d)) };
            (out, res)
        },
        Some(IoCap::DirStream(mut w)) => {
            let res = w.read_at(archive, pool, offset, count);
            let out = File { name, auth, rwc: Some(IoCap::DirStream(w)) };
            (out, res)
        },
    }
}

} // verus!
