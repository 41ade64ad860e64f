//! The archive-backed file server: an in-memory read-only archive exposed
//! through the file-server capability set, with the walk/open/read state
//! machine and lazy directory listing.

pub mod dir_reader;

use vstd::prelude::*;
use vstd::string::StrSliceExecFns;
use vstd::string::StringExecFns;
use vstd::utf8::is_ascii_chars;
use vstd::slice::slice_to_vec;
use crate::Fid;
use crate::tar::TarEntry;
use crate::tar::FileType;
use crate::qidpool::Pool;
use crate::qidpool::Qid;
use crate::qidpool::QidType;
use crate::qidpool::QTYPE_DIRECTORY;
use crate::qidpool::QTYPE_FILE;
use crate::qidpool::put_transition;
use crate::fidmap::FidMap;
use crate::nine_p::DevError;
use crate::nine_p::Session;
use crate::nine_p::File;
use crate::nine_p::IoCap;
use crate::nine_p::RWCWrapper;
use crate::nine_p::FileMode;
use crate::nine_p::FileAccessMode;
use crate::nine_p::FidView;
use crate::nine_p::SessionView;
use crate::nine_p::NinePServer;
use crate::nine_p::root_path;
use crate::strutil;
use crate::dir::spec_dir_bytes;
use self::dir_reader::Reader;
use self::dir_reader::spec_entry_dir;

verus! {

/// The qid type bits for one kind of archive member.
pub open spec fn spec_tar_qid(t: FileType) -> QidType {
    if t == FileType::Directory {
        QidType { bits: QTYPE_DIRECTORY }
    } else {
        QidType { bits: QTYPE_FILE }
    }
}

/// The qid type an archive member of type `tar_type` is served under.
/// This store only serves regular files and directories.
pub fn tar_to_qid(tar_type: FileType) -> (r: QidType)
    requires
        tar_type == FileType::Regular || tar_type == FileType::Directory,
    ensures
        r == spec_tar_qid(tar_type),
{
    match tar_type {
        FileType::Directory => QidType::directory(),
        _ => QidType::file(),
    }
}

/// What the server relies on of each archive entry: a nonempty ASCII name,
/// ASCII owner strings short enough for the directory record codec, a type
/// this store can serve, and times that fit the record's fields.
pub open spec fn entry_wf(e: TarEntry) -> bool {
    &&& is_ascii_chars(e.header.name@)
    &&& e.header.name@.len() > 0
    &&& is_ascii_chars(e.header.uname@)
    &&& is_ascii_chars(e.header.gname@)
    &&& 49 + e.header.name@.len() + 2 * e.header.uname@.len() + e.header.gname@.len() <= 65535
    &&& e.header.typeflag == FileType::Regular || e.header.typeflag == FileType::Directory
    &&& e.header.mtime <= u32::MAX
    &&& (e.header.atime matches Some(t) ==> t <= u32::MAX)
}

/// A well-formed archive: every entry well-formed, names pairwise distinct,
/// and the entry count bounded so that directory-stream offsets cannot wrap.
pub open spec fn archive_wf(entries: Seq<TarEntry>) -> bool {
    &&& forall|i: int| 0 <= i < entries.len() ==> entry_wf(#[trigger] entries[i])
    &&& forall|i: int, j: int|
        0 <= i < j < entries.len() ==> entries[i].header.name@ != entries[j].header.name@
    &&& entries.len() <= u32::MAX
}

/// An entry's full path: its archive name prefixed with `/`.
pub open spec fn full_name(e: TarEntry) -> Seq<char> {
    seq!['/'] + e.header.name@
}

/// The index of the entry whose full path is `path`, if there is one.  The
/// root itself is not an entry.
pub open spec fn spec_resolve(entries: Seq<TarEntry>, path: Seq<char>) -> Option<int> {
    if path == root_path() {
        None
    } else if exists|i: int| 0 <= i < entries.len() && full_name(#[trigger] entries[i]) == path {
        Some(choose|i: int| 0 <= i < entries.len() && full_name(#[trigger] entries[i]) == path)
    } else {
        None
    }
}

/// In a well-formed archive each entry resolves to its own index.
pub proof fn lemma_resolve_at(entries: Seq<TarEntry>, i: int)
    requires
        archive_wf(entries),
        0 <= i < entries.len(),
    ensures
        spec_resolve(entries, full_name(entries[i])) == Some(i),
{
    let path = full_name(entries[i]);
    assert(entry_wf(entries[i]));
    assert(path.len() >= 2);
    assert(path != root_path()) by {
        assert(root_path().len() == 1);
    }
    assert(0 <= i < entries.len() && full_name(entries[i]) == path);
    let j = choose|j: int| 0 <= j < entries.len() && full_name(#[trigger] entries[j]) == path;
    if j != i {
        assert(entries[j].header.name@ =~= full_name(entries[j]).subrange(
            1,
            full_name(entries[j]).len() as int,
        ));
        assert(entries[i].header.name@ =~= path.subrange(1, path.len() as int));
        assert(entries[j].header.name@ == entries[i].header.name@);
    }
}

/// The name prefix of the children of directory `path`: empty for the
/// root, otherwise the path without its leading slash plus a trailing one.
pub open spec fn spec_child_prefix(path: Seq<char>) -> Seq<char> {
    if path == root_path() {
        Seq::empty()
    } else {
        path.drop_first() + seq!['/']
    }
}

/// Whether entry `e` lists as a direct child of directory `path`: its name
/// extends the directory's prefix with no further path separator.
pub open spec fn spec_is_child(e: TarEntry, path: Seq<char>) -> bool {
    let p = spec_child_prefix(path);
    &&& e.header.name@.len() >= p.len()
    &&& e.header.name@.subrange(0, p.len() as int) == p
    &&& !e.header.name@.subrange(p.len() as int, e.header.name@.len() as int).contains('/')
}

/// The indices below `k` of the entries that list as children of `path`,
/// in entry order.
pub open spec fn child_indices_upto(entries: Seq<TarEntry>, path: Seq<char>, k: int) -> Seq<int>
    decreases k,
{
    if k <= 0 {
        Seq::empty()
    } else {
        child_indices_upto(entries, path, k - 1) + if spec_is_child(entries[k - 1], path) {
            seq![k - 1]
        } else {
            Seq::empty()
        }
    }
}

/// The indices of the children of `path`, in entry order.
pub open spec fn child_indices(entries: Seq<TarEntry>, path: Seq<char>) -> Seq<int> {
    child_indices_upto(entries, path, entries.len() as int)
}

/// The decoded in-memory archive: an ordered sequence of decoded entries.
pub struct InitRD {
    pub entries: Vec<TarEntry>,
}

impl InitRD {
    pub open spec fn wf(&self) -> bool {
        archive_wf(self.entries@)
    }

    /// Wraps an already-decoded entry list.
    pub fn new(entries: Vec<TarEntry>) -> (r: InitRD)
        requires
            archive_wf(entries@),
        ensures
            r.entries == entries,
            r.wf(),
    {
        InitRD { entries }
    }

    /// The decoded entries, in archive order.
    pub fn headers(&self) -> (r: &Vec<TarEntry>)
        ensures
            r == &self.entries,
    {
        &self.entries
    }

    pub fn entry(&self, i: usize) -> (r: &TarEntry)
        requires
            i < self.entries@.len(),
        ensures
            *r == self.entries@[i as int],
    {
        &self.entries[i]
    }

    /// The indices of the entries that list as direct children of the
    /// directory `path`.
    pub fn list_dir(&self, path: &str) -> (r: Vec<usize>)
        requires
            self.wf(),
            path@.len() >= 1,
            path@[0] == '/',
        ensures
            r@.map_values(|u: usize| u as int) == child_indices(self.entries@, path@),
            r@.len() <= self.entries@.len(),
            forall|k: int| 0 <= k < r@.len() ==> #[trigger] r@[k] < self.entries@.len(),
    {
        let plen = path.unicode_len();
        let prefix: String = if plen == 1 {
            proof {
                assert(path@ =~= root_path());
                assert(spec_child_prefix(path@) =~= Seq::<char>::empty());
            }
            String::new()
        } else {
            proof {
                assert(path@ != root_path()) by {
                    assert(root_path().len() == 1);
                }
                reveal_strlit("/");
            }
            let tail = path.substring_char(1, plen);
            let p = tail.to_owned().concat("/");
            proof {
                assert(p@ =~= spec_child_prefix(path@));
            }
            p
        };
        let n = self.entries.len();
        let mut out: Vec<usize> = Vec::new();
        let mut i: usize = 0;
        while i < n
            invariant
                0 <= i <= n,
                n == self.entries@.len(),
                self.wf(),
                prefix@ == spec_child_prefix(path@),
                out@.map_values(|u: usize| u as int) == child_indices_upto(
                    self.entries@,
                    path@,
                    i as int,
                ),
                out@.len() <= i,
                forall|k: int| 0 <= k < out@.len() ==> #[trigger] out@[k] < n,
            decreases n - i,
        {
            let ghost pre_out = out@;
            let name = self.entries[i].header.name.as_str();
            let nlen = name.unicode_len();
            let plen2 = prefix.as_str().unicode_len();
            if strutil::starts_with(name, prefix.as_str()) {
                let rest = name.substring_char(plen2, nlen);
                if !strutil::contains_char(rest, '/') {
                    out.push(i);
                    proof {
                        assert(spec_is_child(self.entries@[i as int], path@));
                    }
                } else {
                    proof {
                        assert(!spec_is_child(self.entries@[i as int], path@));
                    }
                }
            } else {
                proof {
                    assert(!spec_is_child(self.entries@[i as int], path@));
                }
            }
            i = i + 1;
            proof {
                assert(out@.map_values(|u: usize| u as int) =~= child_indices_upto(
                    self.entries@,
                    path@,
                    i as int,
                ));
            }
        }
        out
    }

    /// The index of the unique entry whose full path is `path`.  The root
    /// is handled by the directory machinery, never looked up here.
    pub fn stat(&self, path: &str) -> (r: Option<usize>)
        requires
            self.wf(),
            path@ != root_path(),
        ensures
            match r {
                Some(i) => spec_resolve(self.entries@, path@) == Some(i as int),
                None => spec_resolve(self.entries@, path@) is None,
            },
    {
        let n = self.entries.len();
        let mut i: usize = 0;
        while i < n
            invariant
                0 <= i <= n,
                n == self.entries@.len(),
                self.wf(),
                path@ != root_path(),
                forall|j: int| 0 <= j < i ==> full_name(#[trigger] self.entries@[j]) != path@,
            decreases n - i,
        {
            if slash_name_eq(path, self.entries[i].header.name.as_str()) {
                proof {
                    lemma_resolve_at(self.entries@, i as int);
                }
                return Some(i);
            }
            i = i + 1;
        }
        None
    }
}

/// Whether `path` is `/` followed by exactly `name`.
fn slash_name_eq(path: &str, name: &str) -> (r: bool)
    ensures
        r == (path@ == seq!['/'] + name@),
{
    let plen = path.unicode_len();
    let nlen = name.unicode_len();
    if plen == 0 || plen - 1 != nlen {
        return false;
    }
    if path.get_char(0) != '/' {
        proof {
            assert(path@ != seq!['/'] + name@) by {
                assert((seq!['/'] + name@)[0] == '/');
            }
        }
        return false;
    }
    let mut i: usize = 0;
    while i < nlen
        invariant
            0 <= i <= nlen,
            nlen == name@.len(),
            plen == path@.len(),
            plen == nlen + 1,
            path@[0] == '/',
            forall|j: int| 0 <= j < i ==> path@[j + 1] == name@[j],
        decreases nlen - i,
    {
        if path.get_char(i + 1) != name.get_char(i) {
            proof {
                assert(path@ != seq!['/'] + name@) by {
                    assert((seq!['/'] + name@)[i + 1] == name@[i as int]);
                }
            }
            return false;
        }
        i = i + 1;
    }
    proof {
        assert(path@ =~= seq!['/'] + name@);
    }
    true
}

/// Whether `s` is exactly the root path.
fn is_root_str(s: &str) -> (r: bool)
    ensures
        r == (s@ == root_path()),
{
    let l = s.unicode_len();
    if l != 1 {
        proof {
            assert(root_path().len() == 1);
        }
        return false;
    }
    if s.get_char(0) == '/' {
        proof {
            assert(s@ =~= root_path());
        }
        true
    } else {
        proof {
            assert(s@ != root_path()) by {
                assert(root_path()[0] == '/');
            }
        }
        false
    }
}

/// The path without its final segment: everything before the last slash.
/// A path with no slash has no parent and stays as it is.
pub open spec fn spec_parent(path: Seq<char>) -> Seq<char> {
    if path.contains('/') {
        path.subrange(
            0,
            choose|i: int|
                0 <= i < path.len() && path[i] == '/' && (forall|j: int|
                    i < j < path.len() ==> path[j] != '/'),
        )
    } else {
        path
    }
}

/// One walk step: `..` pops the last path segment, any other name appends
/// `/name`.
pub open spec fn spec_step(path: Seq<char>, name: Seq<char>) -> Seq<char> {
    if name == seq!['.', '.'] {
        spec_parent(path)
    } else {
        path + seq!['/'] + name
    }
}

/// Executes one walk step on path strings.
fn path_step(path: &str, name: &str) -> (r: String)
    ensures
        r@ == spec_step(path@, name@),
{
    proof {
        reveal_strlit("..");
        reveal_strlit("/");
        assert(".."@ =~= seq!['.', '.']);
    }
    if strutil::str_eq(name, "..") {
        match strutil::last_index_of(path, '/') {
            Some(i) => {
                proof {
                    assert(path@[i as int] == '/');
                    let c = choose|c: int|
                        0 <= c < path@.len() && path@[c] == '/' && (forall|j: int|
                            c < j < path@.len() ==> path@[j] != '/');
                    assert(c == i) by {
                        if c < i {
                            assert(path@[i as int] == '/');
                        }
                        if i < c {
                            assert(path@[c] == '/');
                        }
                    }
                }
                strutil::take_chars(path, i)
            },
            None => {
                proof {
                    assert(!path@.contains('/'));
                }
                path.to_owned()
            },
        }
    } else {
        let r = path.to_owned().concat("/").concat(name);
        proof {
            assert(r@ =~= path@ + seq!['/'] + name@);
        }
        r
    }
}

/// The qid pool as contracts see it: its bindings and its next counter
/// value, the latter widened so walk arithmetic needs no overflow care.
pub ghost struct PoolModel {
    pub m: Map<Seq<char>, Qid>,
    pub next: int,
}

pub open spec fn pool_model(p: Pool) -> PoolModel {
    PoolModel { m: p.map(), next: p.next() as int }
}

/// What one `put` does to the pool model, and the qid it returns.
pub open spec fn model_put(pm: PoolModel, name: Seq<char>, t: QidType) -> (PoolModel, Qid) {
    if pm.m.contains_key(name) {
        (pm, pm.m[name])
    } else {
        let q = Qid { qid_type: t, version: 0, path: pm.next as u64 };
        (PoolModel { m: pm.m.insert(name, q), next: pm.next + 1 }, q)
    }
}

/// The result of resolving a name list: the pool afterwards, the qids of
/// the resolved prefix, and the last resolved path.
pub ghost struct WalkOutcome {
    pub pm: PoolModel,
    pub qids: Seq<Qid>,
    pub path: Seq<char>,
}

pub open spec fn walk_join(acc: Seq<Qid>, rest: WalkOutcome) -> WalkOutcome {
    WalkOutcome { pm: rest.pm, qids: acc + rest.qids, path: rest.path }
}

/// Resolution of a name list, left to right: each step builds the next
/// path, fails if it does not resolve, and stops after the first name that
/// resolves to a non-directory.  Each resolved path's qid is allocated or
/// looked up in order.
pub open spec fn walk_rec(
    pm: PoolModel,
    entries: Seq<TarEntry>,
    path: Seq<char>,
    names: Seq<Seq<char>>,
) -> WalkOutcome
    decreases names.len(),
{
    if names.len() == 0 {
        WalkOutcome { pm, qids: Seq::empty(), path }
    } else {
        let p1 = spec_step(path, names[0]);
        match spec_resolve(entries, p1) {
            None => WalkOutcome { pm, qids: Seq::empty(), path },
            Some(i) => {
                let pq = model_put(pm, p1, spec_tar_qid(entries[i].header.typeflag));
                if !pq.1.spec_is_dir() {
                    WalkOutcome { pm: pq.0, qids: seq![pq.1], path: p1 }
                } else {
                    let rest = walk_rec(pq.0, entries, p1, names.drop_first());
                    WalkOutcome { pm: rest.pm, qids: seq![pq.1] + rest.qids, path: rest.path }
                }
            },
        }
    }
}

/// The views of a list of walked names.
pub open spec fn spec_names_views(names: Seq<&str>) -> Seq<Seq<char>> {
    names.map_values(|s: &str| s@)
}

/// Whether a pool binding is consistent with the archive: every non-
/// directory qid names a path that resolves to a regular entry.
pub open spec fn qid_ok(entries: Seq<TarEntry>, p: Seq<char>, q: Qid) -> bool {
    !q.spec_is_dir() ==> (spec_resolve(entries, p) matches Some(i) && entries[i].header.typeflag
        == FileType::Regular)
}

/// The archive server: the decoded archive, its identity, and the per-fid
/// session and file tables around one qid pool.
/// The view a file contributes to the server's fid table.
pub open spec fn file_view(f: File) -> FidView {
    FidView { path: f.name@, open: f.rwc is Some }
}

/// The view a session contributes to the server's session table.
pub open spec fn sess_view(s: Session) -> SessionView {
    SessionView { user: s.user@, access: s.access@ }
}

pub struct InitRDServer {
    init_rd: InitRD,
    name: char,
    description: String,
    session_fid: FidMap<Session>,
    qid_pool: Pool,
    files: FidMap<File>,
}

impl InitRDServer {
    /// The archive entries this server serves.
    pub closed spec fn entries(&self) -> Seq<TarEntry> {
        self.init_rd.entries@
    }

    /// The qid pool's bindings.
    pub closed spec fn qids(&self) -> Map<Seq<char>, Qid> {
        self.qid_pool.map()
    }

    /// The qid pool's next counter value.
    pub closed spec fn qid_next(&self) -> u64 {
        self.qid_pool.next()
    }

    /// The per-fid file table.
    pub closed spec fn files_map(&self) -> Map<Fid, File> {
        self.files.map()
    }

    /// The qid pool as walk contracts speak of it.
    pub open spec fn model(&self) -> PoolModel {
        PoolModel { m: self.qids(), next: self.qid_next() as int }
    }

    spec fn file_ok(&self, f: File) -> bool {
        &&& f.name@.len() >= 1
        &&& f.name@[0] == '/'
        &&& self.qid_pool.map().contains_key(f.name@)
        &&& match f.rwc {
            None => true,
            Some(IoCap::Bytes(_)) => true,
            Some(IoCap::DirStream(w)) => w.reader.wf(self.entries().len() as int) && w.offset
                <= w.reader.pos * 65537,
        }
    }

    fn check_fid(&self, fid: Fid) -> (r: Result<(), DevError>)
        requires
            self.files.wf(),
        ensures
            r is Ok <==> self.files.map().contains_key(fid),
            r is Err ==> r == Err::<(), DevError>(DevError::NoFid),
    {
        if self.files.contains_key(fid) {
            Ok(())
        } else {
            Err(DevError::NoFid)
        }
    }

    fn check_fid_in_use(&self, fid: Fid) -> (r: Result<(), DevError>)
        requires
            self.files.wf(),
        ensures
            r is Ok <==> !self.files.map().contains_key(fid),
            r is Err ==> r == Err::<(), DevError>(DevError::FidInUse),
    {
        if self.files.contains_key(fid) {
            Err(DevError::FidInUse)
        } else {
            Ok(())
        }
    }

    pub fn new(name: char, description: &str, init_rd: InitRD) -> (r: InitRDServer)
        requires
            init_rd.wf(),
        ensures
            r.inv(),
            r.files_view() == Map::<Fid, FidView>::empty(),
            r.sessions_view() == Map::<Fid, SessionView>::empty(),
            r.name_spec() == name,
            r.entries() == init_rd.entries@,
            r.qids() == Map::<Seq<char>, Qid>::empty().insert(root_path(), r.root_qid()),
            r.qid_next() == 1,
    {
        let mut qid_pool = Pool::new();
        proof {
            reveal_strlit("/");
        }
        let root = qid_pool.put("/", QidType::directory());
        proof {
            assert("/"@ =~= root_path());
        }
        let r = InitRDServer {
            init_rd,
            name,
            description: description.to_owned(),
            session_fid: FidMap::new(),
            qid_pool,
            files: FidMap::new(),
        };
        proof {
            assert(r.files_view() =~= Map::<Fid, FidView>::empty());
            assert(r.sessions_view() =~= Map::<Fid, SessionView>::empty());
            assert(r.root_qid().spec_is_dir()) by {
                assert(QTYPE_DIRECTORY & QTYPE_DIRECTORY == QTYPE_DIRECTORY) by (bit_vector);
            }
            assert forall|p: Seq<char>| #[trigger] r.qid_pool.map().contains_key(p) implies qid_ok(
                r.entries(),
                p,
                r.qid_pool.map()[p],
            ) by {
                assert(p == root_path());
            }
        }
        r
    }
}

impl NinePServer for InitRDServer {
    closed spec fn inv(&self) -> bool {
        &&& self.init_rd.wf()
        &&& self.files.wf()
        &&& self.session_fid.wf()
        &&& self.session_fid.map().dom() == self.files.map().dom()
        &&& self.qid_pool.wf()
        &&& self.qid_pool.map().contains_key(root_path())
        &&& self.qid_pool.map()[root_path()] == self.root_qid()
        &&& forall|f: Fid| #[trigger] self.files.map().contains_key(f) ==> self.file_ok(
            self.files.map()[f],
        )
        &&& forall|p: Seq<char>| #[trigger] self.qid_pool.map().contains_key(p) ==> qid_ok(
            self.init_rd.entries@,
            p,
            self.qid_pool.map()[p],
        )
    }

    open spec fn files_view(&self) -> Map<Fid, FidView> {
        self.files_map().map_values(|f: File| file_view(f))
    }

    closed spec fn sessions_view(&self) -> Map<Fid, SessionView> {
        self.session_fid.map().map_values(|s: Session| sess_view(s))
    }

    closed spec fn name_spec(&self) -> char {
        self.name
    }

    open spec fn root_qid(&self) -> Qid {
        Qid { qid_type: QidType { bits: QTYPE_DIRECTORY }, version: 0, path: 0 }
    }

    open spec fn can_walk(&self, n: nat) -> bool {
        self.qid_next() + n <= u64::MAX
    }

    open spec fn can_read(&self) -> bool {
        self.qid_next() < u64::MAX
    }

    fn name(&self) -> (r: char) {
        self.name
    }

    fn description(&self) -> (r: String) {
        self.description.clone()
    }

    fn auth(&mut self, _afid: Fid, _uname: &str, _aname: &str) -> (r: Result<Qid, DevError>) {
        Err(DevError::AuthNotNeeded)
    }

    fn attach(&mut self, fid: Fid, afid: Fid, uname: &str, aname: &str) -> (r: Result<
        Qid,
        DevError,
    >)
        ensures
            final(self).entries() == old(self).entries(),
            final(self).qids() == old(self).qids(),
            final(self).qid_next() == old(self).qid_next(),
    {
        if afid != 0 {
            return Err(DevError::AuthNotNeeded);
        }
        let session = Session::new(uname, aname);
        match self.check_fid_in_use(fid) {
            Err(e) => {
                return Err(e);
            },
            _ => {},
        }
        self.session_fid.insert(fid, session);
        proof {
            reveal_strlit("/");
            assert("/"@ =~= root_path());
        }
        self.files.insert(fid, File::new("/", false, None));
        let qid = self.qid_pool.put("/", QidType::directory());
        proof {
            assert(final(self).files_view() =~= old(self).files_view().insert(
                fid,
                (FidView { path: root_path(), open: false }),
            ));
            assert(final(self).sessions_view() =~= old(self).sessions_view().insert(
                fid,
                (SessionView { user: uname@, access: aname@ }),
            ));
            assert(final(self).root_qid().spec_is_dir()) by {
                assert(QTYPE_DIRECTORY & QTYPE_DIRECTORY == QTYPE_DIRECTORY) by (bit_vector);
            }
            assert(final(self).session_fid.map().dom() =~= final(self).files.map().dom());
        }
        Ok(qid)
    }

    fn clunk(&mut self, fid: Fid) -> (r: Result<(), DevError>)
        ensures
            final(self).entries() == old(self).entries(),
            final(self).qids() == old(self).qids(),
            final(self).qid_next() == old(self).qid_next(),
    {
        self.files.remove(fid);
        self.session_fid.remove(fid);
        proof {
            assert(final(self).files_view() =~= old(self).files_view().remove(fid));
            assert(final(self).sessions_view() =~= old(self).sessions_view().remove(fid));
            assert(final(self).session_fid.map().dom() =~= final(self).files.map().dom());
        }
        Ok(())
    }

    fn open(&mut self, fid: Fid, mode: &FileMode) -> (r: Result<(Qid, u32), DevError>)
        ensures
            final(self).entries() == old(self).entries(),
            final(self).qids() == old(self).qids(),
            final(self).qid_next() == old(self).qid_next(),
            old(self).files_view().contains_key(fid) && !mode.spec_remove_on_close()
                && !mode.spec_truncate() && !old(self).files_view()[fid].open ==> {
                let path = old(self).files_view()[fid].path;
                let q = old(self).qids()[path];
                &&& q.spec_is_dir() && mode.spec_access() != FileAccessMode::Read ==> r == Err::<
                    (Qid, u32),
                    DevError,
                >(DevError::PermissionDenied)
                &&& q.spec_is_dir() && mode.spec_access() == FileAccessMode::Read ==> r == Ok::<
                    (Qid, u32),
                    DevError,
                >((q, 0)) && (final(self).files_map()[fid].rwc matches Some(IoCap::DirStream(w))
                    && w.offset == 0 && w.reader.pos == 0 && w.reader.dir@.map_values(
                    |u: usize| u as int,
                ) == child_indices(old(self).entries(), path))
                &&& !q.spec_is_dir() && mode.spec_access() != FileAccessMode::Read
                    && mode.spec_access() != FileAccessMode::Execute ==> r == Err::<
                    (Qid, u32),
                    DevError,
                >(DevError::PermissionDenied)
                &&& !q.spec_is_dir() && (mode.spec_access() == FileAccessMode::Read
                    || mode.spec_access() == FileAccessMode::Execute) ==> r == Ok::<
                    (Qid, u32),
                    DevError,
                >((q, 0)) && (final(self).files_map()[fid].rwc matches Some(IoCap::Bytes(d))
                    && spec_resolve(old(self).entries(), path) matches Some(i) && d@ == old(self).entries()[i].data@)
            },
    {
        match self.check_fid(fid) {
            Err(e) => {
                return Err(e);
            },
            _ => {},
        }
        if mode.remove_on_close() {
            return Err(DevError::PermissionDenied);
        }
        if mode.truncate() || mode.remove_on_close() {
            return Err(DevError::PermissionDenied);
        }
        let file = match self.files.take(fid) {
            Some(f) => f,
            None => {
                proof {
                    assert(false);
                }
                return Err(DevError::NoFid);
            },
        };
        if file.rwc.is_some() {
            self.files.insert(fid, file);
            proof {
                assert(final(self).files.map() =~= old(self).files.map());
                assert(final(self).files_view() =~= old(self).files_view());
            }
            return Err(DevError::FileOpen);
        }
        let qid = match self.qid_pool.get(file.name.as_str()) {
            Some(q) => q,
            None => {
                proof {
                    assert(old(self).file_ok(file));
                    assert(false);
                }
                return Err(DevError::NoFid);
            },
        };
        if qid.qid_type().contains(QidType::directory()) {
            proof {
                assert(qid.spec_is_dir());
            }
            if mode.access() != FileAccessMode::Read {
                self.files.insert(fid, file);
                proof {
                    assert(final(self).files.map() =~= old(self).files.map());
                    assert(final(self).files_view() =~= old(self).files_view());
                }
                return Err(DevError::PermissionDenied);
            }
            proof {
                assert(old(self).file_ok(file));
            }
            let children = self.init_rd.list_dir(file.name.as_str());
            let reader = Reader::new(children);
            let wrapper = RWCWrapper::new(reader);
            let file2 = File { name: file.name, auth: file.auth, rwc: Some(
                IoCap::DirStream(wrapper),
            ) };
            self.files.insert(fid, file2);
            proof {
                assert(final(self).files_view() =~= old(self).files_view().insert(
                    fid,
                    (FidView { path: old(self).files_view()[fid].path, open: true }),
                ));
                assert(final(self).session_fid.map().dom() =~= final(self).files.map().dom());
            }
            Ok((qid, 0))
        } else {
            proof {
                assert(!qid.spec_is_dir());
            }
            if mode.access() != FileAccessMode::Read && mode.access() != FileAccessMode::Execute {
                self.files.insert(fid, file);
                proof {
                    assert(final(self).files.map() =~= old(self).files.map());
                    assert(final(self).files_view() =~= old(self).files_view());
                }
                return Err(DevError::PermissionDenied);
            }
            proof {
                assert(old(self).file_ok(file));
                assert(file.name@ != root_path());
            }
            let e_idx = match self.init_rd.stat(file.name.as_str()) {
                Some(i) => i,
                None => {
                    proof {
                        assert(false);
                    }
                    return Err(DevError::NoSuchFile);
                },
            };
            let data = slice_to_vec(self.init_rd.entry(e_idx).data());
            let file2 = File { name: file.name, auth: file.auth, rwc: Some(IoCap::Bytes(data)) };
            self.files.insert(fid, file2);
            proof {
                assert(final(self).files_view() =~= old(self).files_view().insert(
                    fid,
                    (FidView { path: old(self).files_view()[fid].path, open: true }),
                ));
                assert(final(self).session_fid.map().dom() =~= final(self).files.map().dom());
            }
            Ok((qid, 0))
        }
    }

    #[verifier::rlimit(50)]
    fn walk(&mut self, fid: Fid, new_fid: Fid, names: &[&str]) -> (r: Result<Vec<Qid>, DevError>)
        ensures
            final(self).entries() == old(self).entries(),
            forall|p: Seq<char>| #[trigger] old(self).qids().contains_key(p) ==> final(self).qids().contains_key(p) && final(self).qids()[p] == old(self).qids()[p],
            r is Err ==> final(self).qids() == old(self).qids() && final(self).qid_next() == old(self).qid_next(),
            names@.len() == 0 ==> final(self).qids() == old(self).qids() && final(self).qid_next()
                == old(self).qid_next(),
            old(self).files_view().contains_key(fid) && names@.len() > 0 && (fid == new_fid || !old(self).files_view().contains_key(new_fid)) ==> {
                let fv = old(self).files_view()[fid];
                let q0 = old(self).qids()[fv.path];
                &&& !q0.spec_is_dir() ==> r == Err::<Vec<Qid>, DevError>(DevError::NotADir)
                &&& q0.spec_is_dir() && fv.open ==> r == Err::<Vec<Qid>, DevError>(
                    DevError::FileOpen,
                )
                &&& q0.spec_is_dir() && !fv.open ==> {
                    let w = walk_rec(
                        old(self).model(),
                        old(self).entries(),
                        strutil::spec_trim_slashes(fv.path),
                        spec_names_views(names@),
                    );
                    &&& w.qids.len() == 0 ==> r == Err::<Vec<Qid>, DevError>(DevError::NoSuchFile)
                    &&& w.qids.len() > 0 ==> (r matches Ok(v) && v@ == w.qids && final(self).model()
                        == w.pm && final(self).files_view() == old(self).files_view().insert(
                        new_fid,
                        (FidView { path: w.path, open: false }),
                    ))
                }
            },
    {
        match self.check_fid(fid) {
            Err(e) => {
                return Err(e);
            },
            _ => {},
        }
        let (src_name, src_open) = match self.files.get(fid) {
            Some(f) => (f.name.clone(), f.rwc.is_some()),
            None => {
                proof {
                    assert(false);
                }
                return Err(DevError::NoFid);
            },
        };
        if names.len() > 0 && fid != new_fid {
            match self.check_fid_in_use(new_fid) {
                Err(e) => {
                    return Err(e);
                },
                _ => {},
            }
        }
        let session = match self.session_fid.get(fid) {
            Some(s) => s.duplicate(),
            None => {
                proof {
                    assert(old(self).session_fid.map().dom() == old(self).files.map().dom());
                    assert(false);
                }
                return Err(DevError::NoFid);
            },
        };
        let mut out_qid: Vec<Qid> = Vec::new();
        let mut path: String;
        let ghost entries0 = self.init_rd.entries@;
        let ghost nv = spec_names_views(names@);
        if names.len() > 0 {
            let qid = match self.qid_pool.get(src_name.as_str()) {
                Some(q) => q,
                None => {
                    proof {
                        assert(old(self).file_ok(old(self).files.map()[fid]));
                        assert(false);
                    }
                    return Err(DevError::NoFid);
                },
            };
            if !qid.qid_type().contains(QidType::directory()) {
                return Err(DevError::NotADir);
            }
            if src_open {
                return Err(DevError::FileOpen);
            }
            path = strutil::trim_end_slashes(src_name.as_str());
            let ghost tpath0 = path@;
            let n = names.len();
            let mut i: usize = 0;
            proof {
                assert(nv.skip(0) =~= nv);
                assert(Seq::<Qid>::empty() + walk_rec(
                    pool_model(self.qid_pool),
                    entries0,
                    path@,
                    nv,
                ).qids =~= walk_rec(pool_model(self.qid_pool), entries0, path@, nv).qids);
            }
            loop
                invariant_except_break
                    walk_rec(pool_model(old(self).qid_pool), entries0, tpath0, nv) == walk_join(
                        out_qid@,
                        walk_rec(pool_model(self.qid_pool), entries0, path@, nv.skip(i as int)),
                    ),
                    forall|k: int| 0 <= k < out_qid@.len() ==> #[trigger] out_qid@[
                        k
                    ].spec_is_dir(),
                invariant
                    0 <= i <= n,
                    n == names@.len(),
                    0 < n,
                    nv == spec_names_views(names@),
                    old(self).inv(),
                    old(self).files_view().contains_key(fid),
                    fid == new_fid || !old(self).files_view().contains_key(new_fid),
                    old(self).files_view()[fid].open == false,
                    old(self).qids()[old(self).files_view()[fid].path].spec_is_dir(),
                    tpath0 == strutil::spec_trim_slashes(old(self).files_view()[fid].path),
                    forall|p: Seq<char>| #[trigger] old(self).qid_pool.map().contains_key(p)
                        ==> self.qid_pool.map().contains_key(p) && self.qid_pool.map()[p] == old(self).qid_pool.map()[p],
                    self.init_rd == old(self).init_rd,
                    self.files == old(self).files,
                    self.session_fid == old(self).session_fid,
                    self.name == old(self).name,
                    self.description == old(self).description,
                    self.init_rd.wf(),
                    entries0 == self.init_rd.entries@,
                    self.qid_pool.wf(),
                    self.qid_pool.map().contains_key(root_path()),
                    self.qid_pool.map()[root_path()] == old(self).qid_pool.map()[root_path()],
                    forall|p: Seq<char>| #[trigger] self.qid_pool.map().contains_key(p) ==> qid_ok(
                        entries0,
                        p,
                        self.qid_pool.map()[p],
                    ),
                    self.qid_pool.next() as int <= old(self).qid_pool.next() + i,
                    old(self).qid_pool.next() + names@.len() <= u64::MAX,
                    out_qid@.len() == i,
                    out_qid@.len() > 0 ==> path@.len() >= 1 && path@[0] == '/'
                        && self.qid_pool.map().contains_key(path@),
                    out_qid@.len() == 0 ==> self.qid_pool == old(self).qid_pool && path@ == tpath0,
                ensures
                    old(self).inv(),
                    forall|p: Seq<char>| #[trigger] old(self).qid_pool.map().contains_key(p)
                        ==> self.qid_pool.map().contains_key(p) && self.qid_pool.map()[p] == old(self).qid_pool.map()[p],
                    self.init_rd == old(self).init_rd,
                    self.files == old(self).files,
                    self.session_fid == old(self).session_fid,
                    self.name == old(self).name,
                    self.description == old(self).description,
                    self.qid_pool.wf(),
                    self.qid_pool.map().contains_key(root_path()),
                    self.qid_pool.map()[root_path()] == old(self).qid_pool.map()[root_path()],
                    forall|p: Seq<char>| #[trigger] self.qid_pool.map().contains_key(p) ==> qid_ok(
                        entries0,
                        p,
                        self.qid_pool.map()[p],
                    ),
                    1 <= out_qid@.len() <= names@.len(),
                    walk_rec(pool_model(old(self).qid_pool), entries0, tpath0, nv)
                        == (WalkOutcome { pm: pool_model(self.qid_pool), qids: out_qid@, path: path@ }),
                    path@.len() >= 1 && path@[0] == '/' && self.qid_pool.map().contains_key(path@),
                decreases n - i,
            {
                if i >= n {
                    proof {
                        assert(nv.skip(i as int).len() == 0);
                    }
                    break ;
                }
                let name = names[i];
                proof {
                    assert(nv.skip(i as int).len() > 0);
                    assert(nv.skip(i as int)[0] == nv[i as int]);
                    assert(nv[i as int] == name@);
                }
                let next_path = path_step(path.as_str(), name);
                let ghost rest_names = nv.skip(i as int);
                if is_root_str(next_path.as_str()) {
                    proof {
                        assert(spec_resolve(entries0, next_path@) is None);
                        assert(walk_rec(pool_model(self.qid_pool), entries0, path@, rest_names)
                            == (WalkOutcome {
                            pm: pool_model(self.qid_pool),
                            qids: Seq::<Qid>::empty(),
                            path: path@,
                        }));
                        assert(out_qid@ + Seq::<Qid>::empty() =~= out_qid@);
                    }
                    if out_qid.len() == 0 {
                        return Err(DevError::NoSuchFile);
                    }
                    break ;
                }
                match self.init_rd.stat(next_path.as_str()) {
                    None => {
                        proof {
                            assert(walk_rec(pool_model(self.qid_pool), entries0, path@, rest_names)
                                == (WalkOutcome {
                                pm: pool_model(self.qid_pool),
                                qids: Seq::<Qid>::empty(),
                                path: path@,
                            }));
                            assert(out_qid@ + Seq::<Qid>::empty() =~= out_qid@);
                        }
                        if out_qid.len() == 0 {
                            return Err(DevError::NoSuchFile);
                        }
                        break ;
                    },
                    Some(e_idx) => {
                        proof {
                            assert(0 <= e_idx as int && (e_idx as int) < entries0.len());
                            assert(entry_wf(entries0[e_idx as int]));
                        }
                        let tf = self.init_rd.entry(e_idx).header.typeflag;
                        let t = tar_to_qid(tf);
                        let ghost pool_before = self.qid_pool;
                        let ghost out_before = out_qid@;
                        let q = self.qid_pool.put(next_path.as_str(), t);
                        out_qid.push(q);
                        proof {
                            assert(out_qid@.drop_last() =~= out_before);
                        }
                        proof {
                            assert(model_put(pool_model(pool_before), next_path@, t)
                                == (pool_model(self.qid_pool), q));
                            assert forall|p: Seq<char>| #[trigger] self.qid_pool.map().contains_key(
                                p,
                            ) implies qid_ok(entries0, p, self.qid_pool.map()[p]) by {
                                if p != next_path@ {
                                    assert(pool_before.map().contains_key(p));
                                } else {
                                    if !self.qid_pool.map()[p].spec_is_dir() {
                                        if pool_before.map().contains_key(p) {
                                        } else {
                                            assert(self.qid_pool.map()[p].qid_type
                                                == spec_tar_qid(entries0[e_idx as int].header.typeflag));
                                            assert(QTYPE_DIRECTORY & QTYPE_DIRECTORY
                                                == QTYPE_DIRECTORY) by (bit_vector);
                                            assert(entries0[e_idx as int].header.typeflag
                                                != FileType::Directory);
                                        }
                                    }
                                }
                            }
                            assert(next_path@ != root_path());
                        }
                        let is_dir = q.qid_type().contains(QidType::directory());
                        proof {
                            assert(full_name(entries0[e_idx as int]) == next_path@);
                            assert(next_path@.len() >= 2);
                            assert(next_path@[0] == '/');
                            assert(QTYPE_DIRECTORY == 0x80u8);
                            assert(is_dir == q.spec_is_dir());
                            let rest2 = walk_rec(
                                pool_model(self.qid_pool),
                                entries0,
                                next_path@,
                                rest_names.drop_first(),
                            );
                            let inner = walk_rec(
                                pool_model(pool_before),
                                entries0,
                                path@,
                                rest_names,
                            );
                            assert(walk_rec(pool_model(old(self).qid_pool), entries0, tpath0, nv)
                                == walk_join(out_before, inner));
                            if is_dir {
                                assert(inner == (WalkOutcome {
                                    pm: rest2.pm,
                                    qids: seq![q] + rest2.qids,
                                    path: rest2.path,
                                }));
                                assert(rest_names.drop_first() =~= nv.skip(i as int + 1));
                                assert(rest2 == walk_rec(
                                    pool_model(self.qid_pool),
                                    entries0,
                                    next_path@,
                                    nv.skip(i as int + 1),
                                ));
                                assert((out_before + (seq![q] + rest2.qids)) =~= (out_qid@
                                    + rest2.qids));
                                assert(walk_join(out_before, inner) == walk_join(
                                    out_qid@,
                                    walk_rec(
                                        pool_model(self.qid_pool),
                                        entries0,
                                        next_path@,
                                        nv.skip(i as int + 1),
                                    ),
                                ));
                            } else {
                                assert(inner == (WalkOutcome {
                                    pm: pool_model(self.qid_pool),
                                    qids: seq![q],
                                    path: next_path@,
                                }));
                                assert((out_before + seq![q]) =~= out_qid@);
                                assert(walk_join(out_before, inner) == (WalkOutcome {
                                    pm: pool_model(self.qid_pool),
                                    qids: out_qid@,
                                    path: next_path@,
                                }));
                            }
                        }
                        path = next_path;
                        i = i + 1;
                        if !is_dir {
                            break ;
                        }
                    },
                }
            }
        } else {
            path = src_name;
            proof {
                assert(old(self).file_ok(old(self).files.map()[fid]));
            }
        }
        self.session_fid.insert(new_fid, session);
        self.files.insert(new_fid, File::new(path.as_str(), false, None));
        proof {
            assert(final(self).files_view() =~= old(self).files_view().insert(
                new_fid,
                (FidView { path: path@, open: false }),
            ));
            assert(final(self).sessions_view() =~= old(self).sessions_view().insert(
                new_fid,
                old(self).sessions_view()[fid],
            ));
            assert(final(self).session_fid.map().dom() =~= final(self).files.map().dom());
        }
        Ok(out_qid)
    }

    fn read(&mut self, fid: Fid, offset: u64, count: usize) -> (r: Result<Vec<u8>, DevError>)
        ensures
            final(self).entries() == old(self).entries(),
            !old(self).files_view().contains_key(fid) ==> final(self).qids() == old(self).qids()
                && final(self).qid_next() == old(self).qid_next(),
            old(self).files_view().contains_key(fid) ==> {
                let f = old(self).files_map()[fid];
                &&& f.rwc is None ==> (r matches Err(e) && e matches DevError::Str(m) && m@
                    == "File "@ + f.name@ + " not open for reading"@) && final(self).qids() == old(self).qids() && final(self).qid_next() == old(self).qid_next()
                &&& f.rwc matches Some(IoCap::Bytes(d)) ==> final(self).qids() == old(self).qids()
                    && final(self).qid_next() == old(self).qid_next() && (offset >= d@.len() ==> r
                    == Err::<Vec<u8>, DevError>(DevError::EOF)) && (offset < d@.len() ==> (
                r matches Ok(b) && b@ == d@.subrange(
                    offset as int,
                    if count <= d@.len() - offset {
                        offset + count
                    } else {
                        d@.len() as int
                    },
                )))
                &&& f.rwc matches Some(IoCap::DirStream(w)) ==> {
                    &&& offset != w.offset ==> r == Err::<Vec<u8>, DevError>(DevError::NoSeek)
                        && final(self).qids() == old(self).qids() && final(self).files_map() == old(self).files_map()
                    &&& offset == w.offset && w.reader.pos >= w.reader.dir@.len() ==> r == Err::<
                        Vec<u8>,
                        DevError,
                    >(DevError::EOF) && final(self).qids() == old(self).qids() && final(self).files_map() == old(self).files_map()
                    &&& offset == w.offset && w.reader.pos < w.reader.dir@.len() ==> {
                        let e = old(self).entries()[w.reader.dir@[w.reader.pos as int] as int];
                        let q = old(self).model().m[full_name(e)];
                        let qf = Qid {
                            qid_type: spec_tar_qid(e.header.typeflag),
                            version: 0,
                            path: old(self).qid_next(),
                        };
                        let served = if old(self).qids().contains_key(full_name(e)) {
                            q
                        } else {
                            qf
                        };
                        let rec = spec_dir_bytes(spec_entry_dir(e, served));
                        &&& model_put(
                            old(self).model(),
                            full_name(e),
                            spec_tar_qid(e.header.typeflag),
                        ) == (final(self).model(), served)
                        &&& final(self).files_map()[fid].rwc matches Some(IoCap::DirStream(w2))
                            && w2.reader.dir == w.reader.dir && w2.reader.pos == w.reader.pos + 1
                        &&& rec.len() > count ==> r == Err::<Vec<u8>, DevError>(DevError::SmallRead)
                        &&& rec.len() <= count ==> (r matches Ok(b) && b@ == rec)
                    }
                }
            },
    {
        let file = match self.files.take(fid) {
            None => {
                proof {
                    assert(final(self).files.map() =~= old(self).files.map());
                    assert(final(self).files_view() =~= old(self).files_view());
                }
                return Err(DevError::NoFid);
            },
            Some(f) => f,
        };
        let ghost cap = file.rwc;
        let ghost j: int = match cap {
            Some(IoCap::DirStream(w)) => w.reader.dir@[w.reader.pos as int] as int,
            _ => 0,
        };
        proof {
            assert(old(self).file_ok(file));
            match cap {
                Some(IoCap::DirStream(w)) => {
                    assert(w.reader.pos * 65537 <= w.reader.dir@.len() * 65537);
                    assert(w.reader.dir@.len() * 65537 <= self.init_rd.entries@.len() * 65537);
                    assert(self.init_rd.entries@.len() * 65537 <= 0xffffffff * 65537);
                    assert(w.offset + 65537 <= u64::MAX);
                    if w.reader.pos < w.reader.dir@.len() {
                        assert(0 <= j < self.init_rd.entries@.len());
                        assert(entry_wf(self.init_rd.entries@[j]));
                        lemma_resolve_at(self.init_rd.entries@, j);
                    }
                },
                _ => {},
            }
        }
        let (file2, res) = crate::nine_p::default_read(
            file,
            &self.init_rd,
            &mut self.qid_pool,
            offset,
            count,
        );
        self.files.insert(fid, file2);
        proof {
            assert(final(self).files_view() =~= old(self).files_view());
            assert(final(self).sessions_view() =~= old(self).sessions_view());
            assert(final(self).session_fid.map().dom() =~= final(self).files.map().dom());
            assert(final(self).file_ok(file2)) by {
                match cap {
                    Some(IoCap::DirStream(w)) => {
                        assert(self.qid_pool.map().contains_key(file2.name@));
                        if offset == w.offset && w.reader.pos < w.reader.dir@.len() {
                            assert(file2.rwc matches Some(IoCap::DirStream(w2)) ==> w2.offset
                                <= w2.reader.pos * 65537);
                        }
                    },
                    _ => {},
                }
            }
            assert(final(self).inv()) by {
                let entries = self.init_rd.entries@;
                match cap {
                    Some(IoCap::DirStream(w)) => {
                        if w.reader.pos < w.reader.dir@.len() && offset == w.offset {
                            let e = entries[j];
                            assert(full_name(e).len() >= 2);
                            assert(full_name(e) != root_path()) by {
                                assert(root_path().len() == 1);
                            }
                            assert(QTYPE_DIRECTORY & QTYPE_DIRECTORY == QTYPE_DIRECTORY)
                                by (bit_vector);
                            assert forall|p: Seq<char>| #[trigger] self.qid_pool.map().contains_key(
                                p,
                            ) implies qid_ok(entries, p, self.qid_pool.map()[p]) by {
                                if p != full_name(e) {
                                    assert(old(self).qid_pool.map().contains_key(p));
                                } else {
                                    if !self.qid_pool.map()[p].spec_is_dir() {
                                        if !old(self).qid_pool.map().contains_key(p) {
                                            assert(self.qid_pool.map()[p].qid_type == spec_tar_qid(
                                                e.header.typeflag,
                                            ));
                                            assert(e.header.typeflag != FileType::Directory);
                                        }
                                    }
                                }
                            }
                        }
                    },
                    _ => {},
                }
            }
        }
        res
    }

    fn remove(&mut self, fid: Fid) -> (r: Result<(), DevError>)
        ensures
            final(self).entries() == old(self).entries(),
            final(self).qids() == old(self).qids(),
            final(self).qid_next() == old(self).qid_next(),
    {
        self.files.remove(fid);
        self.session_fid.remove(fid);
        proof {
            assert(final(self).files_view() =~= old(self).files_view().remove(fid));
            assert(final(self).sessions_view() =~= old(self).sessions_view().remove(fid));
            assert(final(self).session_fid.map().dom() =~= final(self).files.map().dom());
        }
        Err(DevError::PermissionDenied)
    }

    /// An explicit gap in this scope: per-path metadata is served through
    /// directory reads, never through this call.
    fn stat(&self) -> (r: Result<(), DevError>)
        ensures
            r matches Err(e) && e matches DevError::Str(m) && m@ == "stat is not implemented"@,
    {
        Err(DevError::Str(String::from_str("stat is not implemented")))
    }
}

} // verus!
