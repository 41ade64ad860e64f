//! Fid pools and the device-driver registry.
//!
//! A fid pool hands out small integer handles, recycling clunked ones and
//! compacting its high-water counter when the topmost handles are free.

use vstd::prelude::*;
use crate::Fid;
use crate::nine_p::DevError;
use crate::nine_p::FidView;
use crate::nine_p::FileMode;
use crate::nine_p::NinePServer;
use crate::qidpool::Qid;

verus! {

/// A pool of fids for one backing server: a monotonic counter plus a set of
/// recyclable values handed back by `clunk_fid`.
pub struct FidPool {
    cur_fid: Fid,
    available_fids: Vec<Fid>,
}

spec fn distinct_fids(s: Seq<Fid>) -> bool {
    forall|i: int, j: int| 0 <= i < j < s.len() ==> s[i] != s[j]
}

proof fn lemma_swap_remove_fid(s: Seq<Fid>, i: int)
    requires
        distinct_fids(s),
        0 <= i < s.len(),
    ensures
        distinct_fids(s.update(i, s.last()).drop_last()),
        forall|f: Fid| #[trigger] s.update(i, s.last()).drop_last().contains(f) <==> (s.contains(f)
            && f != s[i]),
{
    let t = s.update(i, s.last()).drop_last();
    assert forall|a: int, b: int| 0 <= a < b < t.len() implies t[a] != t[b] by {
        if a == i {
            assert(t[a] == s[s.len() - 1]);
        }
        if b == i {
            assert(t[b] == s[s.len() - 1]);
        }
    }
    assert forall|f: Fid| #[trigger] t.contains(f) implies s.contains(f) && f != s[i] by {
        let a = choose|a: int| 0 <= a < t.len() && t[a] == f;
        let a2: int = if a == i { s.len() - 1 } else { a };
        assert(s[a2] == f);
        assert(a2 != i);
    }
    assert forall|f: Fid| s.contains(f) && f != s[i] implies #[trigger] t.contains(f) by {
        let a = choose|a: int| 0 <= a < s.len() && s[a] == f;
        if a == s.len() - 1 {
            if i < s.len() - 1 {
                assert(t[i] == f);
            }
        } else {
            assert(t[a] == f);
        }
    }
}

impl FidPool {
    /// The next value the counter would hand out: the pool's high-water mark.
    pub closed spec fn cur(&self) -> Fid {
        self.cur_fid
    }

    /// The recyclable values, in pool order.
    pub closed spec fn avail(&self) -> Seq<Fid> {
        self.available_fids@
    }

    pub closed spec fn wf(&self) -> bool {
        &&& 1 <= self.cur_fid
        &&& distinct_fids(self.available_fids@)
        &&& forall|i: int| 0 <= i < self.available_fids@.len() ==> 1 <= #[trigger] self.available_fids@[i]
            < self.cur_fid
        &&& (self.cur_fid == 1 || !self.available_fids@.contains((self.cur_fid - 1) as Fid))
    }

    /// The fids currently on loan: handed out by `get_fid` and not yet
    /// handed back by `clunk_fid`.
    pub open spec fn outstanding(&self) -> Set<Fid> {
        Set::new(|f: Fid| 1 <= f < self.cur() && !self.avail().contains(f))
    }

    /// The value the next `get_fid` call returns: the lowest-index
    /// recyclable value, or the counter.
    pub open spec fn next_fid(&self) -> Fid {
        if self.avail().len() > 0 {
            self.avail()[0]
        } else {
            self.cur()
        }
    }

    /// Whether `get_fid` may be called: a recyclable value exists or the
    /// counter has not reached its maximum.  Exhaustion of the whole handle
    /// space is treated as fatal, not as a reportable error.
    pub open spec fn can_get(&self) -> bool {
        self.avail().len() > 0 || self.cur() < Fid::MAX
    }

    pub fn new() -> (r: FidPool)
        ensures
            r.wf(),
            r.cur() == 1,
            r.avail() == Seq::<Fid>::empty(),
            r.outstanding() == Set::<Fid>::empty(),
    {
        let r = FidPool { cur_fid: 1, available_fids: Vec::new() };
        proof {
            assert(r.outstanding() =~= Set::<Fid>::empty());
        }
        r
    }

    fn find_fid(&self, fid: Fid) -> (r: Option<usize>)
        ensures
            match r {
                Some(i) => i < self.available_fids@.len() && self.available_fids@[i as int] == fid,
                None => !self.available_fids@.contains(fid),
            },
    {
        let n = self.available_fids.len();
        let mut i: usize = 0;
        while i < n
            invariant
                0 <= i <= n,
                n == self.available_fids@.len(),
                forall|j: int| 0 <= j < i ==> self.available_fids@[j] != fid,
            decreases n - i,
        {
            if self.available_fids[i] == fid {
                return Some(i);
            }
            i = i + 1;
        }
        None
    }

    /// Hands out a fid that is not outstanding: the lowest-index recyclable
    /// value if any exists, otherwise the counter value, advancing the
    /// counter.  No two concurrently-outstanding fids are ever equal: the
    /// result was not outstanding before the call, and the outstanding set
    /// grows by exactly the result.
    pub fn get_fid(&mut self) -> (r: Fid)
        requires
            old(self).wf(),
            old(self).can_get(),
        ensures
            final(self).wf(),
            1 <= r,
            r == old(self).next_fid(),
            !old(self).outstanding().contains(r),
            final(self).outstanding() == old(self).outstanding().insert(r),
            old(self).avail().len() > 0 ==> r == old(self).avail()[0] && final(self).cur() == old(self).cur() && final(self).avail() == old(self).avail().update(
                0,
                old(self).avail().last(),
            ).drop_last(),
            old(self).avail().len() == 0 ==> r == old(self).cur() && final(self).cur() == old(self).cur() + 1 && final(self).avail() == old(self).avail(),
    {
        if self.available_fids.len() > 0 {
            let f = self.available_fids.swap_remove(0);
            proof {
                lemma_swap_remove_fid(old(self).available_fids@, 0);
                assert(final(self).outstanding() =~= old(self).outstanding().insert(f));
            }
            f
        } else {
            let f = self.cur_fid;
            self.cur_fid = self.cur_fid + 1;
            proof {
                assert(final(self).outstanding() =~= old(self).outstanding().insert(f));
            }
            f
        }
    }

    /// Hands `fid` back: adds it to the recyclable set unless it is already
    /// there (a duplicate clunk is a no-op), then compacts the counter
    /// downward past every trailing recyclable value.  Clunking the highest
    /// outstanding fid shrinks the high-water counter; clunking any other
    /// fid leaves the counter unchanged and makes the value reusable.
    pub fn clunk_fid(&mut self, fid: Fid)
        requires
            old(self).wf(),
            1 <= fid < old(self).cur(),
        ensures
            final(self).wf(),
            final(self).outstanding() == old(self).outstanding().remove(fid),
            final(self).cur() <= old(self).cur(),
            fid != old(self).cur() - 1 ==> final(self).cur() == old(self).cur(),
            fid == old(self).cur() - 1 && old(self).outstanding().contains(fid)
                ==> final(self).cur() < old(self).cur(),
    {
        let ghost pre = *old(self);
        match self.find_fid(fid) {
            Some(i) => {
                proof {
                    assert(self.available_fids@.contains(fid)) by {
                        assert(self.available_fids@[i as int] == fid);
                    }
                }
            },
            None => {
                self.available_fids.push(fid);
            },
        }
        proof {
            assert forall|f: Fid| #[trigger] self.available_fids@.contains(f) <==> (
            pre.available_fids@.contains(f) || f == fid) by {
                if self.available_fids@.contains(f) {
                    let a = choose|a: int|
                        0 <= a < self.available_fids@.len() && self.available_fids@[a] == f;
                    if a < pre.available_fids@.len() {
                        assert(pre.available_fids@[a] == f);
                    }
                }
                if pre.available_fids@.contains(f) {
                    let a = choose|a: int|
                        0 <= a < pre.available_fids@.len() && pre.available_fids@[a] == f;
                    assert(self.available_fids@[a] == f);
                }
                if f == fid && self.available_fids@.len() == pre.available_fids@.len() + 1 {
                    assert(self.available_fids@[pre.available_fids@.len() as int] == fid);
                }
            }
            assert(distinct_fids(self.available_fids@));
            assert(self.outstanding() =~= pre.outstanding().remove(fid));
        }
        self.compact();
    }

    /// Repeatedly pops the value below the counter out of the recyclable
    /// set and decrements the counter, until the top value is outstanding.
    fn compact(&mut self)
        requires
            1 <= old(self).cur(),
            distinct_fids(old(self).avail()),
            forall|i: int| 0 <= i < old(self).avail().len() ==> 1 <= #[trigger] old(self).avail()[i] < old(self).cur(),
        ensures
            final(self).wf(),
            final(self).cur() <= old(self).cur(),
            final(self).outstanding() == old(self).outstanding(),
            !old(self).avail().contains((old(self).cur() - 1) as Fid) ==> final(self).cur() == old(self).cur() && final(self).avail() == old(self).avail(),
            old(self).cur() > 1 && old(self).avail().contains((old(self).cur() - 1) as Fid) ==>
                final(self).cur() < old(self).cur(),
    {
        let ghost pre = *old(self);
        loop
            invariant
                1 <= self.cur_fid,
                distinct_fids(self.available_fids@),
                forall|i: int| 0 <= i < self.available_fids@.len() ==> 1 <= #[trigger] self.available_fids@[i]
                    < self.cur_fid,
                self.cur_fid <= pre.cur_fid,
                self.outstanding() == pre.outstanding(),
                self.cur_fid < pre.cur_fid || (self.cur_fid == pre.cur_fid && self.available_fids@
                    == pre.available_fids@),
                !pre.available_fids@.contains((pre.cur_fid - 1) as Fid) ==> self.cur_fid
                    == pre.cur_fid && self.available_fids@ == pre.available_fids@,
            ensures
                1 <= self.cur_fid <= pre.cur_fid,
                distinct_fids(self.available_fids@),
                forall|i: int| 0 <= i < self.available_fids@.len() ==> 1 <= #[trigger] self.available_fids@[i]
                    < self.cur_fid,
                self.outstanding() == pre.outstanding(),
                self.cur_fid == 1 || !self.available_fids@.contains((self.cur_fid - 1) as Fid),
                self.cur_fid < pre.cur_fid || (self.cur_fid == pre.cur_fid && self.available_fids@
                    == pre.available_fids@),
                !pre.available_fids@.contains((pre.cur_fid - 1) as Fid) ==> self.cur_fid
                    == pre.cur_fid && self.available_fids@ == pre.available_fids@,
            decreases self.cur_fid,
        {
            if self.cur_fid == 1 {
                break ;
            }
            let top = self.cur_fid - 1;
            match self.find_fid(top) {
                None => {
                    break ;
                },
                Some(i) => {
                    let ghost before = *self;
                    proof {
                        assert(before.available_fids@.contains(top)) by {
                            assert(before.available_fids@[i as int] == top);
                        }
                    }
                    self.available_fids.swap_remove(i);
                    self.cur_fid = self.cur_fid - 1;
                    proof {
                        lemma_swap_remove_fid(before.available_fids@, i as int);
                        assert(self.outstanding() =~= before.outstanding());
                    }
                },
            }
        }
        proof {
            if pre.cur() > 1 && pre.avail().contains((pre.cur() - 1) as Fid) {
                assert(self.cur_fid < pre.cur_fid);
            }
        }
    }

    /// The current high-water counter value.
    pub fn high_water(&self) -> (r: Fid)
        ensures
            r == self.cur(),
    {
        self.cur_fid
    }
}


/// The pool's visible state is pinned by its outstanding set: two
/// well-formed pools with the same outstanding fids have the same
/// high-water counter and the same recyclable values.  The counter a
/// sequence of `get_fid` and `clunk_fid` calls leaves behind therefore
/// follows from their postconditions alone.
pub proof fn lemma_pool_state_determined(p1: FidPool, p2: FidPool)
    requires
        p1.wf(),
        p2.wf(),
        p1.outstanding() == p2.outstanding(),
    ensures
        p1.cur() == p2.cur(),
        forall|f: Fid| p1.avail().contains(f) == p2.avail().contains(f),
{
    assert forall|a: FidPool, b: FidPool| a.wf() && b.wf() && a.outstanding() == b.outstanding()
        implies a.cur() <= b.cur() by {
        if a.cur() > b.cur() {
            assert(a.cur() > 1);
            let top = (a.cur() - 1) as Fid;
            assert(a.outstanding().contains(top));
            assert(b.outstanding().contains(top));
            assert(top < b.cur());
        }
    }
    assert(p1.cur() == p2.cur());
    assert forall|f: Fid| p1.avail().contains(f) == p2.avail().contains(f) by {
        if p1.avail().contains(f) {
            assert(1 <= f < p1.cur());
            assert(!p1.outstanding().contains(f));
            assert(!p2.outstanding().contains(f));
        }
        if p2.avail().contains(f) {
            assert(1 <= f < p2.cur());
            assert(!p2.outstanding().contains(f));
            assert(!p1.outstanding().contains(f));
        }
    }
}

/// One registered backing server beside its own fid pool.
pub struct FileServer<S> {
    pub server: S,
    pub fid_pool: FidPool,
}

impl<S: NinePServer> FileServer<S> {
    pub fn server(&self) -> (r: &S)
        ensures
            r == &self.server,
    {
        &self.server
    }

    pub fn fid_pool(&self) -> (r: &FidPool)
        ensures
            r == &self.fid_pool,
    {
        &self.fid_pool
    }
}

/// Whether the table binds `name`.
pub open spec fn seq_has<S>(s: Seq<(char, FileServer<S>)>, name: char) -> bool {
    exists|i: int| 0 <= i < s.len() && (#[trigger] s[i]).0 == name
}

/// The registration the table binds to `name`.
pub open spec fn seq_at<S>(s: Seq<(char, FileServer<S>)>, name: char) -> FileServer<S>
    recommends
        seq_has(s, name),
{
    s[choose|i: int| 0 <= i < s.len() && (#[trigger] s[i]).0 == name].1
}

spec fn distinct_devs<S>(s: Seq<(char, FileServer<S>)>) -> bool {
    forall|i: int, j: int| 0 <= i < j < s.len() ==> s[i].0 != s[j].0
}

/// With distinct names, a lookup lands on the one entry that carries the
/// name.
proof fn lemma_seq_at_index<S>(s: Seq<(char, FileServer<S>)>, k: int)
    requires
        distinct_devs(s),
        0 <= k < s.len(),
    ensures
        seq_has(s, s[k].0),
        seq_at(s, s[k].0) == s[k].1,
{
    let c = s[k].0;
    assert(0 <= k < s.len() && s[k].0 == c);
    let j = choose|i: int| 0 <= i < s.len() && (#[trigger] s[i]).0 == c;
    if j != k {
        assert(s[j].0 == s[k].0);
    }
}

/// The device-driver registry: a table from one-character device names to
/// running backing servers, each with its own fid pool.
pub struct DevDrivers<S> {
    drivers: Vec<(char, FileServer<S>)>,
}

impl<S: NinePServer> DevDrivers<S> {
    pub closed spec fn entries(&self) -> Seq<(char, FileServer<S>)> {
        self.drivers@
    }

    pub open spec fn wf(&self) -> bool {
        &&& forall|i: int, j: int|
            0 <= i < j < self.entries().len() ==> self.entries()[i].0 != self.entries()[j].0
        &&& forall|i: int| 0 <= i < self.entries().len() ==> (#[trigger] self.entries()[
            i
        ].1).server.inv() && self.entries()[i].1.fid_pool.wf()
    }

    /// Whether a server is registered under `name`.
    pub open spec fn has(&self, name: char) -> bool {
        seq_has(self.entries(), name)
    }

    /// The registration under `name`.
    pub open spec fn at(&self, name: char) -> FileServer<S>
        recommends
            self.has(name),
    {
        seq_at(self.entries(), name)
    }

    pub fn new() -> (r: DevDrivers<S>)
        ensures
            r.wf(),
            r.entries() == Seq::<(char, FileServer<S>)>::empty(),
    {
        DevDrivers { drivers: Vec::new() }
    }

    fn find(&self, name: char) -> (r: Option<usize>)
        requires
            self.wf(),
        ensures
            match r {
                Some(i) => i < self.entries().len() && self.entries()[i as int].0 == name
                    && self.has(name) && self.at(name) == self.entries()[i as int].1,
                None => !self.has(name),
            },
    {
        let n = self.drivers.len();
        let mut i: usize = 0;
        while i < n
            invariant
                0 <= i <= n,
                n == self.entries().len(),
                self.wf(),
                forall|j: int| 0 <= j < i ==> (#[trigger] self.entries()[j]).0 != name,
            decreases n - i,
        {
            if self.drivers[i].0 == name {
                proof {
                    let c = choose|c: int|
                        0 <= c < self.entries().len() && (#[trigger] self.entries()[c]).0 == name;
                    assert(c == i);
                }
                return Some(i);
            }
            i = i + 1;
        }
        None
    }

    pub fn has_dev(&self, name: char) -> (r: bool)
        requires
            self.wf(),
        ensures
            r == self.has(name),
    {
        self.find(name).is_some()
    }

    /// Registers `server` under its own name, paired with a fresh fid
    /// pool; a later registration under the same name wins.
    pub fn insert_dev_driver(&mut self, server: S)
        requires
            old(self).wf(),
            server.inv(),
        ensures
            final(self).wf(),
            final(self).has(server.name_spec()),
            final(self).at(server.name_spec()).server == server,
            final(self).at(server.name_spec()).fid_pool.cur() == 1,
            final(self).at(server.name_spec()).fid_pool.avail() == Seq::<Fid>::empty(),
            forall|c: char| c != server.name_spec() ==> final(self).has(c) == old(self).has(c)
                && (old(self).has(c) ==> final(self).at(c) == old(self).at(c)),
    {
        let name = server.name();
        let entry = FileServer { server, fid_pool: FidPool::new() };
        let ghost pre = self.drivers@;
        match self.find(name) {
            Some(i) => {
                self.drivers.swap_remove(i);
                self.drivers.push((name, entry));
                proof {
                    assert(self.drivers@.drop_last() =~= pre.update(
                        i as int,
                        pre.last(),
                    ).drop_last());
                    lemma_registry_frame(pre, self.drivers@, i as int, name);
                }
            },
            None => {
                self.drivers.push((name, entry));
                proof {
                    assert(self.drivers@.drop_last() =~= pre);
                    lemma_registry_push(pre, self.drivers@, name);
                }
            },
        }
    }

    /// A shared borrow of the registration under `name`.
    pub fn get_dev_driver(&self, name: char) -> (r: Option<&FileServer<S>>)
        requires
            self.wf(),
        ensures
            match r {
                Some(d) => self.has(name) && *d == self.at(name),
                None => !self.has(name),
            },
    {
        match self.find(name) {
            Some(i) => Some(&self.drivers[i].1),
            None => None,
        }
    }

    /// Draws a fresh fid from the named device's pool.
    pub fn get_fid(&mut self, name: char) -> (r: Fid)
        requires
            old(self).wf(),
            old(self).has(name),
            old(self).at(name).fid_pool.can_get(),
        ensures
            final(self).wf(),
            1 <= r,
            r == old(self).at(name).fid_pool.next_fid(),
            !old(self).at(name).fid_pool.outstanding().contains(r),
            final(self).at(name).fid_pool.outstanding() == old(self).at(
                name,
            ).fid_pool.outstanding().insert(r),
            final(self).at(name).server == old(self).at(name).server,
            final(self).has(name),
            forall|c: char| c != name ==> final(self).has(c) == old(self).has(c) && (old(self).has(
                c,
            ) ==> final(self).at(c) == old(self).at(c)),
    {
        let i = match self.find(name) {
            Some(i) => i,
            None => {
                proof {
                    assert(false);
                }
                vstd::pervasive::unreached()
            },
        };
        let ghost pre = self.drivers@;
        let mut entry = self.drivers.swap_remove(i);
        let fid = entry.1.fid_pool.get_fid();
        self.drivers.push(entry);
        proof {
            assert(self.drivers@.drop_last() =~= pre.update(i as int, pre.last()).drop_last());
            lemma_registry_frame(pre, self.drivers@, i as int, name);
        }
        fid
    }

    /// Hands a fid back to the named device's pool.
    pub fn clunk_fid(&mut self, name: char, fid: Fid)
        requires
            old(self).wf(),
            old(self).has(name),
            1 <= fid < old(self).at(name).fid_pool.cur(),
        ensures
            final(self).wf(),
            final(self).at(name).fid_pool.outstanding() == old(self).at(
                name,
            ).fid_pool.outstanding().remove(fid),
            final(self).at(name).server == old(self).at(name).server,
            final(self).has(name),
            forall|c: char| c != name ==> final(self).has(c) == old(self).has(c) && (old(self).has(
                c,
            ) ==> final(self).at(c) == old(self).at(c)),
    {
        let i = match self.find(name) {
            Some(i) => i,
            None => {
                proof {
                    assert(false);
                }
                vstd::pervasive::unreached()
            },
        };
        let ghost pre = self.drivers@;
        let mut entry = self.drivers.swap_remove(i);
        entry.1.fid_pool.clunk_fid(fid);
        self.drivers.push(entry);
        proof {
            assert(self.drivers@.drop_last() =~= pre.update(i as int, pre.last()).drop_last());
            lemma_registry_frame(pre, self.drivers@, i as int, name);
        }
    }

    /// Attaches `fid` to the named device's root.
    pub fn attach(&mut self, name: char, fid: Fid, afid: Fid, uname: &str, aname: &str) -> (r:
        Result<Qid, DevError>)
        requires
            old(self).wf(),
            old(self).has(name),
        ensures
            final(self).wf(),
            final(self).has(name),
            final(self).at(name).fid_pool == old(self).at(name).fid_pool,
            afid == 0 && !old(self).at(name).server.files_view().contains_key(fid) ==> r == Ok::<
                Qid,
                DevError,
            >(old(self).at(name).server.root_qid()) && final(self).at(name).server.files_view()
                == old(self).at(name).server.files_view().insert(
                fid,
                (FidView { path: crate::nine_p::root_path(), open: false }),
            ),
            afid == 0 && old(self).at(name).server.files_view().contains_key(fid) ==> r == Err::<
                Qid,
                DevError,
            >(DevError::FidInUse),
            afid != 0 ==> r == Err::<Qid, DevError>(DevError::AuthNotNeeded),
            forall|c: char| c != name ==> final(self).has(c) == old(self).has(c) && (old(self).has(
                c,
            ) ==> final(self).at(c) == old(self).at(c)),
    {
        let i = match self.find(name) {
            Some(i) => i,
            None => {
                proof {
                    assert(false);
                }
                vstd::pervasive::unreached()
            },
        };
        let ghost pre = self.drivers@;
        let mut entry = self.drivers.swap_remove(i);
        let r = entry.1.server.attach(fid, afid, uname, aname);
        self.drivers.push(entry);
        proof {
            assert(self.drivers@.drop_last() =~= pre.update(i as int, pre.last()).drop_last());
            lemma_registry_frame(pre, self.drivers@, i as int, name);
        }
        r
    }

    /// Walks names on the named device.
    pub fn walk(&mut self, name: char, fid: Fid, new_fid: Fid, names: &[&str]) -> (r: Result<
        Vec<Qid>,
        DevError,
    >)
        requires
            old(self).wf(),
            old(self).has(name),
            old(self).at(name).server.can_walk(names@.len() as nat),
        ensures
            final(self).wf(),
            final(self).has(name),
            final(self).at(name).fid_pool == old(self).at(name).fid_pool,
            !old(self).at(name).server.files_view().contains_key(fid) ==> r == Err::<
                Vec<Qid>,
                DevError,
            >(DevError::NoFid),
            old(self).at(name).server.files_view().contains_key(fid) && names@.len() > 0 && fid
                != new_fid && old(self).at(name).server.files_view().contains_key(new_fid) ==> r
                == Err::<Vec<Qid>, DevError>(DevError::FidInUse),
            r is Err ==> final(self).at(name).server.files_view() == old(self).at(
                name,
            ).server.files_view(),
            r matches Ok(v) ==> v@.len() <= names@.len() && final(self).at(
                name,
            ).server.files_view().contains_key(new_fid) && final(self).at(
                name,
            ).server.files_view() == old(self).at(name).server.files_view().insert(
                new_fid,
                final(self).at(name).server.files_view()[new_fid],
            ) && final(self).at(name).server.files_view()[new_fid].open == false,
            forall|c: char| c != name ==> final(self).has(c) == old(self).has(c) && (old(self).has(
                c,
            ) ==> final(self).at(c) == old(self).at(c)),
    {
        let i = match self.find(name) {
            Some(i) => i,
            None => {
                proof {
                    assert(false);
                }
                vstd::pervasive::unreached()
            },
        };
        let ghost pre = self.drivers@;
        let mut entry = self.drivers.swap_remove(i);
        let r = entry.1.server.walk(fid, new_fid, names);
        self.drivers.push(entry);
        proof {
            assert(self.drivers@.drop_last() =~= pre.update(i as int, pre.last()).drop_last());
            lemma_registry_frame(pre, self.drivers@, i as int, name);
        }
        r
    }

    /// Opens a fid on the named device.
    pub fn open(&mut self, name: char, fid: Fid, mode: &FileMode) -> (r: Result<
        (Qid, u32),
        DevError,
    >)
        requires
            old(self).wf(),
            old(self).has(name),
        ensures
            final(self).wf(),
            final(self).has(name),
            final(self).at(name).fid_pool == old(self).at(name).fid_pool,
            !old(self).at(name).server.files_view().contains_key(fid) ==> r == Err::<
                (Qid, u32),
                DevError,
            >(DevError::NoFid),
            old(self).at(name).server.files_view().contains_key(fid) && (mode.spec_remove_on_close()
                || mode.spec_truncate()) ==> r == Err::<(Qid, u32), DevError>(
                DevError::PermissionDenied,
            ),
            r is Err ==> final(self).at(name).server.files_view() == old(self).at(
                name,
            ).server.files_view(),
            r is Ok ==> old(self).at(name).server.files_view().contains_key(fid) && final(self).at(
                name,
            ).server.files_view()[fid].open,
            forall|c: char| c != name ==> final(self).has(c) == old(self).has(c) && (old(self).has(
                c,
            ) ==> final(self).at(c) == old(self).at(c)),
    {
        let i = match self.find(name) {
            Some(i) => i,
            None => {
                proof {
                    assert(false);
                }
                vstd::pervasive::unreached()
            },
        };
        let ghost pre = self.drivers@;
        let mut entry = self.drivers.swap_remove(i);
        let r = entry.1.server.open(fid, mode);
        self.drivers.push(entry);
        proof {
            assert(self.drivers@.drop_last() =~= pre.update(i as int, pre.last()).drop_last());
            lemma_registry_frame(pre, self.drivers@, i as int, name);
        }
        r
    }

    /// Reads from a fid on the named device.
    pub fn read(&mut self, name: char, fid: Fid, offset: u64, count: usize) -> (r: Result<
        Vec<u8>,
        DevError,
    >)
        requires
            old(self).wf(),
            old(self).has(name),
            old(self).at(name).server.can_read(),
        ensures
            final(self).wf(),
            final(self).has(name),
            final(self).at(name).fid_pool == old(self).at(name).fid_pool,
            final(self).at(name).server.files_view() == old(self).at(name).server.files_view(),
            !old(self).at(name).server.files_view().contains_key(fid) ==> r == Err::<
                Vec<u8>,
                DevError,
            >(DevError::NoFid),
            r matches Ok(b) ==> b@.len() <= count,
            forall|c: char| c != name ==> final(self).has(c) == old(self).has(c) && (old(self).has(
                c,
            ) ==> final(self).at(c) == old(self).at(c)),
    {
        let i = match self.find(name) {
            Some(i) => i,
            None => {
                proof {
                    assert(false);
                }
                vstd::pervasive::unreached()
            },
        };
        let ghost pre = self.drivers@;
        let mut entry = self.drivers.swap_remove(i);
        let r = entry.1.server.read(fid, offset, count);
        self.drivers.push(entry);
        proof {
            assert(self.drivers@.drop_last() =~= pre.update(i as int, pre.last()).drop_last());
            lemma_registry_frame(pre, self.drivers@, i as int, name);
        }
        r
    }

    /// Clunks a fid on the named device's server.
    pub fn clunk(&mut self, name: char, fid: Fid) -> (r: Result<(), DevError>)
        requires
            old(self).wf(),
            old(self).has(name),
        ensures
            final(self).wf(),
            final(self).has(name),
            r == Ok::<(), DevError>(()),
            final(self).at(name).server.files_view() == old(self).at(
                name,
            ).server.files_view().remove(fid),
            final(self).at(name).fid_pool == old(self).at(name).fid_pool,
            forall|c: char| c != name ==> final(self).has(c) == old(self).has(c) && (old(self).has(
                c,
            ) ==> final(self).at(c) == old(self).at(c)),
    {
        let i = match self.find(name) {
            Some(i) => i,
            None => {
                proof {
                    assert(false);
                }
                vstd::pervasive::unreached()
            },
        };
        let ghost pre = self.drivers@;
        let mut entry = self.drivers.swap_remove(i);
        let r = entry.1.server.clunk(fid);
        self.drivers.push(entry);
        proof {
            assert(self.drivers@.drop_last() =~= pre.update(i as int, pre.last()).drop_last());
            lemma_registry_frame(pre, self.drivers@, i as int, name);
        }
        r
    }
}

/// After a swap-remove of the entry under `name` at index `i` and a push
/// of an entry under the same name, the table still has distinct names,
/// `name` is bound to the pushed registration, and every other name is
/// bound exactly as before.
proof fn lemma_registry_frame<S: NinePServer>(
    pre: Seq<(char, FileServer<S>)>,
    post: Seq<(char, FileServer<S>)>,
    i: int,
    name: char,
)
    requires
        distinct_devs(pre),
        0 <= i < pre.len(),
        pre[i].0 == name,
        post.len() == pre.len(),
        post.drop_last() == pre.update(i, pre.last()).drop_last(),
        post.last().0 == name,
    ensures
        distinct_devs(post),
        seq_has(post, name),
        seq_at(post, name) == post.last().1,
        forall|c: char| c != name ==> #[trigger] seq_has(post, c) == seq_has(pre, c),
        forall|c: char| c != name && seq_has(pre, c) ==> #[trigger] seq_at(post, c) == seq_at(
            pre,
            c,
        ),
{
    let mid = pre.update(i, pre.last()).drop_last();
    assert(mid.len() == pre.len() - 1);
    assert(forall|a: int| 0 <= a < post.len() - 1 ==> post[a] == mid[a]);
    assert forall|a: int, b: int| 0 <= a < b < mid.len() implies mid[a].0 != mid[b].0 by {
        if a == i {
            assert(mid[a] == pre[pre.len() - 1]);
        }
        if b == i {
            assert(mid[b] == pre[pre.len() - 1]);
        }
    }
    assert forall|a: int| 0 <= a < mid.len() implies mid[a].0 != name by {
        if a == i {
            assert(mid[a] == pre[pre.len() - 1]);
            assert(i < pre.len() - 1);
        } else {
            assert(mid[a] == pre[a]);
        }
    }
    assert(distinct_devs(post));
    lemma_seq_at_index(post, post.len() - 1);
    assert forall|c: char| c != name implies #[trigger] seq_has(post, c) == seq_has(pre, c) by {
        if seq_has(pre, c) {
            let j = choose|j: int| 0 <= j < pre.len() && (#[trigger] pre[j]).0 == c;
            assert(j != i);
            if j == pre.len() - 1 {
                assert(i < pre.len() - 1);
                assert(mid[i] == pre[j]);
                assert(post[i] == pre[j]);
            } else {
                assert(mid[j] == pre[j]);
                assert(post[j] == pre[j]);
            }
        }
        if seq_has(post, c) {
            let j = choose|j: int| 0 <= j < post.len() && (#[trigger] post[j]).0 == c;
            assert(j < post.len() - 1);
            assert(post[j] == mid[j]);
            if j == i {
                assert(mid[j] == pre[pre.len() - 1]);
                assert(seq_has(pre, c));
            } else {
                assert(mid[j] == pre[j]);
                assert(seq_has(pre, c));
            }
        }
    }
    assert forall|c: char| c != name && seq_has(pre, c) implies #[trigger] seq_at(post, c)
        == seq_at(pre, c) by {
        let j = choose|j: int| 0 <= j < pre.len() && (#[trigger] pre[j]).0 == c;
        assert(j != i);
        let j2: int = if j == pre.len() - 1 {
            i
        } else {
            j
        };
        if j == pre.len() - 1 {
            assert(i < pre.len() - 1);
            assert(mid[i] == pre[j]);
        } else {
            assert(mid[j2] == pre[j]);
        }
        assert(post[j2] == pre[j]);
        lemma_seq_at_index(post, j2);
        lemma_seq_at_index(pre, j);
    }
}

/// Pushing an entry under a fresh name binds that name and leaves every
/// other name's binding as it was.
proof fn lemma_registry_push<S: NinePServer>(
    pre: Seq<(char, FileServer<S>)>,
    post: Seq<(char, FileServer<S>)>,
    name: char,
)
    requires
        distinct_devs(pre),
        !seq_has(pre, name),
        post.len() == pre.len() + 1,
        post.drop_last() == pre,
        post.last().0 == name,
    ensures
        distinct_devs(post),
        seq_has(post, name),
        seq_at(post, name) == post.last().1,
        forall|c: char| c != name ==> #[trigger] seq_has(post, c) == seq_has(pre, c),
        forall|c: char| c != name && seq_has(pre, c) ==> #[trigger] seq_at(post, c) == seq_at(
            pre,
            c,
        ),
{
    assert(forall|a: int| 0 <= a < pre.len() ==> post[a] == pre[a]);
    assert forall|a: int| 0 <= a < pre.len() implies pre[a].0 != name by {
        if pre[a].0 == name {
            assert(seq_has(pre, name));
        }
    }
    assert(distinct_devs(post));
    lemma_seq_at_index(post, post.len() - 1);
    assert forall|c: char| c != name implies #[trigger] seq_has(post, c) == seq_has(pre, c) by {
        if seq_has(pre, c) {
            let j = choose|j: int| 0 <= j < pre.len() && (#[trigger] pre[j]).0 == c;
            assert(post[j] == pre[j]);
        }
        if seq_has(post, c) {
            let j = choose|j: int| 0 <= j < post.len() && (#[trigger] post[j]).0 == c;
            assert(j < post.len() - 1);
            assert(pre[j].0 == c);
            assert(seq_has(pre, c));
        }
    }
    assert forall|c: char| c != name && seq_has(pre, c) implies #[trigger] seq_at(post, c)
        == seq_at(pre, c) by {
        let j = choose|j: int| 0 <= j < pre.len() && (#[trigger] pre[j]).0 == c;
        assert(post[j] == pre[j]);
        lemma_seq_at_index(post, j);
        lemma_seq_at_index(pre, j);
    }
}

} // verus!
