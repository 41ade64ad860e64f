//! Qids and the qid pool: a stable identity token per path string within
//! one backing server, allocated from a monotonic counter.

use vstd::prelude::*;
use crate::wire;
use crate::strutil;

verus! {

/// Bit set describing what kind of object a qid names.
#[derive(Debug, Clone, Copy, PartialEq, Eq, Structural)]
pub struct QidType {
    pub bits: u8,
}

pub const QTYPE_DIRECTORY: u8 = 0x80;

pub const QTYPE_APPEND_ONLY: u8 = 0x40;

pub const QTYPE_EXCLUSIVE_USE: u8 = 0x20;

pub const QTYPE_AUTHENTICATION: u8 = 0x08;

pub const QTYPE_TEMPORARY_FILE: u8 = 0x04;

pub const QTYPE_FILE: u8 = 0x00;

impl QidType {
    pub open spec fn spec_contains(self, other: QidType) -> bool {
        self.bits & other.bits == other.bits
    }

    pub fn directory() -> (r: QidType)
        ensures
            r.bits == QTYPE_DIRECTORY,
    {
        QidType { bits: QTYPE_DIRECTORY }
    }

    pub fn file() -> (r: QidType)
        ensures
            r.bits == QTYPE_FILE,
    {
        QidType { bits: QTYPE_FILE }
    }

    pub fn from_bits(bits: u8) -> (r: QidType)
        ensures
            r.bits == bits,
    {
        QidType { bits }
    }

    pub fn bits(&self) -> (r: u8)
        ensures
            r == self.bits,
    {
        self.bits
    }

    /// Whether every bit of `other` is set in `self`.
    pub fn contains(&self, other: QidType) -> (r: bool)
        ensures
            r == self.spec_contains(other),
    {
        self.bits & other.bits == other.bits
    }
}

/// A server-scoped identity token for one path: type bits, a version, and a
/// path counter value unique per distinct path string.
#[derive(Debug, Clone, Copy, PartialEq, Eq, Structural)]
pub struct Qid {
    pub qid_type: QidType,
    pub version: u32,
    pub path: u64,
}

/// The fixed 13-byte encoding of a qid: one byte of type bits, then the
/// version and the path counter, both big-endian.
pub open spec fn spec_qid_bytes(q: Qid) -> Seq<u8> {
    seq![q.qid_type.bits] + wire::spec_u32_to_be_bytes(q.version) + wire::spec_u64_to_be_bytes(
        q.path,
    )
}

pub open spec fn spec_qid_from_bytes(s: Seq<u8>) -> Qid
    recommends
        s.len() == 13,
{
    Qid {
        qid_type: QidType { bits: s[0] },
        version: wire::spec_u32_from_be_bytes(s.subrange(1, 5)),
        path: wire::spec_u64_from_be_bytes(s.subrange(5, 13)),
    }
}

impl Qid {
    pub open spec fn spec_qid_type(self) -> QidType {
        self.qid_type
    }

    pub open spec fn spec_version(self) -> u32 {
        self.version
    }

    pub open spec fn spec_path(self) -> u64 {
        self.path
    }

    /// Whether the qid names a directory.
    pub open spec fn spec_is_dir(self) -> bool {
        self.qid_type.bits & QTYPE_DIRECTORY == QTYPE_DIRECTORY
    }

    pub fn new(qid_type: QidType, version: u32, path: u64) -> (r: Qid)
        ensures
            r == (Qid { qid_type, version, path }),
    {
        Qid { qid_type, version, path }
    }

    pub fn qid_type(&self) -> (r: QidType)
        ensures
            r == self.qid_type,
    {
        self.qid_type
    }

    /// The 13-byte wire form of the qid.
    pub fn as_bytes(&self) -> (r: Vec<u8>)
        ensures
            r@ == spec_qid_bytes(*self),
            r@.len() == 13,
    {
        let mut r: Vec<u8> = Vec::new();
        r.push(self.qid_type.bits);
        let mut v = wire::u32_to_be_bytes(self.version);
        r.append(&mut v);
        let mut p = wire::u64_to_be_bytes(self.path);
        r.append(&mut p);
        proof {
            assert(r@ =~= spec_qid_bytes(*self));
        }
        r
    }

    /// The qid encoded in 13 bytes starting at `start`.
    pub fn from_bytes(s: &[u8], start: usize) -> (r: Qid)
        requires
            start + 13 <= s@.len(),
        ensures
            r == spec_qid_from_bytes(s@.subrange(start as int, start as int + 13)),
    {
        let bits = s[start];
        let version = wire::u32_from_be_bytes(s, start + 1);
        let path = wire::u64_from_be_bytes(s, start + 5);
        proof {
            let sub = s@.subrange(start as int, start as int + 13);
            assert(sub[0] == s@[start as int]);
            assert(sub.subrange(1, 5) =~= s@.subrange(start as int + 1, start as int + 5));
            assert(sub.subrange(5, 13) =~= s@.subrange(start as int + 5, start as int + 13));
        }
        Qid { qid_type: QidType { bits }, version, path }
    }
}

/// Encoding a qid and decoding the 13 bytes recovers the qid exactly.
pub proof fn lemma_qid_round_trip(q: Qid)
    ensures
        spec_qid_from_bytes(spec_qid_bytes(q)) == q,
{
    let s = spec_qid_bytes(q);
    assert(s.subrange(1, 5) =~= wire::spec_u32_to_be_bytes(q.version));
    assert(s.subrange(5, 13) =~= wire::spec_u64_to_be_bytes(q.path));
    wire::lemma_u32_be_round_trip(q.version);
    wire::lemma_u64_be_round_trip(q.path);
}

/// One recorded binding of a path string to a qid.
struct PoolEntry {
    name: String,
    qid: Qid,
}

/// The qid pool: maps each path string seen so far to a stable qid, and
/// holds the next unused path counter value.
pub struct Pool {
    entries: Vec<PoolEntry>,
    next_path: u64,
}

/// The bindings of a pool prefix, later entries shadowing earlier ones
/// (well-formed pools have no duplicate names, so nothing is shadowed).
spec fn assoc_map(s: Seq<PoolEntry>) -> Map<Seq<char>, Qid>
    decreases s.len(),
{
    if s.len() == 0 {
        Map::empty()
    } else {
        assoc_map(s.drop_last()).insert(s.last().name@, s.last().qid)
    }
}

spec fn distinct_names(s: Seq<PoolEntry>) -> bool {
    forall|i: int, j: int| 0 <= i < j < s.len() ==> s[i].name@ != s[j].name@
}

proof fn lemma_assoc_contains(s: Seq<PoolEntry>, k: Seq<char>)
    ensures
        assoc_map(s).contains_key(k) <==> exists|i: int| 0 <= i < s.len() && s[i].name@ == k,
    decreases s.len(),
{
    if s.len() > 0 {
        lemma_assoc_contains(s.drop_last(), k);
        if assoc_map(s).contains_key(k) && s.last().name@ != k {
            let i = choose|i: int| 0 <= i < s.drop_last().len() && s.drop_last()[i].name@ == k;
            assert(s[i].name@ == k);
        }
        if exists|i: int| 0 <= i < s.len() && s[i].name@ == k {
            let i = choose|i: int| 0 <= i < s.len() && s[i].name@ == k;
            if i < s.len() - 1 {
                assert(s.drop_last()[i].name@ == k);
            }
        }
    }
}

proof fn lemma_assoc_index(s: Seq<PoolEntry>, i: int)
    requires
        distinct_names(s),
        0 <= i < s.len(),
    ensures
        assoc_map(s).contains_key(s[i].name@),
        assoc_map(s)[s[i].name@] == s[i].qid,
    decreases s.len(),
{
    lemma_assoc_contains(s, s[i].name@);
    if i < s.len() - 1 {
        assert(s.last().name@ != s[i].name@);
        assert(s.drop_last()[i] == s[i]);
        lemma_assoc_index(s.drop_last(), i);
    }
}

impl Pool {
    /// The pool's bindings as a map from path strings to qids.
    pub closed spec fn map(&self) -> Map<Seq<char>, Qid> {
        assoc_map(self.entries@)
    }

    /// The next unused path counter value.
    pub closed spec fn next(&self) -> u64 {
        self.next_path
    }

    pub closed spec fn wf(&self) -> bool {
        distinct_names(self.entries@)
    }

    /// The qid a `put` of `name` with type `t` returns on this pool.
    pub open spec fn spec_put_qid(&self, name: Seq<char>, t: QidType) -> Qid {
        if self.map().contains_key(name) {
            self.map()[name]
        } else {
            Qid { qid_type: t, version: 0, path: self.next() }
        }
    }

    pub fn new() -> (r: Pool)
        ensures
            r.wf(),
            r.map() == Map::<Seq<char>, Qid>::empty(),
            r.next() == 0,
    {
        Pool { entries: Vec::new(), next_path: 0 }
    }

    /// The index of `name` in the entry list, if present.
    fn find(&self, name: &str) -> (r: Option<usize>)
        ensures
            match r {
                Some(i) => i < self.entries@.len() && self.entries@[i as int].name@ == name@,
                None => forall|i: int| 0 <= i < self.entries@.len() ==> self.entries@[i].name@
                    != name@,
            },
    {
        let n = self.entries.len();
        let mut i: usize = 0;
        while i < n
            invariant
                0 <= i <= n,
                n == self.entries@.len(),
                forall|j: int| 0 <= j < i ==> self.entries@[j].name@ != name@,
            decreases n - i,
        {
            if strutil::str_eq(self.entries[i].name.as_str(), name) {
                return Some(i);
            }
            i = i + 1;
        }
        None
    }

    /// Pure lookup: the qid recorded for `name`, allocating nothing.
    pub fn get(&self, name: &str) -> (r: Option<Qid>)
        requires
            self.wf(),
        ensures
            r == if self.map().contains_key(name@) {
                Some(self.map()[name@])
            } else {
                None::<Qid>
            },
    {
        proof {
            lemma_assoc_contains(self.entries@, name@);
        }
        match self.find(name) {
            Some(i) => {
                proof {
                    lemma_assoc_index(self.entries@, i as int);
                }
                Some(self.entries[i].qid)
            },
            None => None,
        }
    }

    /// Returns the qid already recorded for `name`, or records and returns a
    /// fresh one built from the next unused path counter value.
    pub fn put(&mut self, name: &str, qtype: QidType) -> (r: Qid)
        requires
            old(self).wf(),
            old(self).map().contains_key(name@) || old(self).next() < u64::MAX,
        ensures
            final(self).wf(),
            r == old(self).spec_put_qid(name@, qtype),
            old(self).map().contains_key(name@) ==> final(self).map() == old(self).map()
                && final(self).next() == old(self).next(),
            !old(self).map().contains_key(name@) ==> final(self).map() == old(self).map().insert(
                name@,
                r,
            ) && final(self).next() == old(self).next() + 1,
            put_transition(*old(self), *final(self), name@, qtype),
    {
        proof {
            lemma_assoc_contains(self.entries@, name@);
        }
        match self.find(name) {
            Some(i) => {
                proof {
                    lemma_assoc_index(self.entries@, i as int);
                }
                self.entries[i].qid
            },
            None => {
                let qid = Qid { qid_type: qtype, version: 0, path: self.next_path };
                self.next_path = self.next_path + 1;
                self.entries.push(PoolEntry { name: name.to_owned(), qid });
                proof {
                    assert(self.entries@.drop_last() =~= old(self).entries@);
                    assert(distinct_names(self.entries@));
                }
                qid
            },
        }
    }

    /// Removes the binding for `name`; the counter is not reclaimed, so a
    /// later `put` of the same string allocates a new value.
    pub fn del(&mut self, name: &str)
        requires
            old(self).wf(),
        ensures
            final(self).wf(),
            final(self).map() == old(self).map().remove(name@),
            final(self).next() == old(self).next(),
    {
        proof {
            lemma_assoc_contains(self.entries@, name@);
        }
        match self.find(name) {
            Some(i) => {
                self.entries.swap_remove(i);
                proof {
                    lemma_swap_remove_assoc(old(self).entries@, i as int);
                }
            },
            None => {
                proof {
                    assert(final(self).map() =~= old(self).map().remove(name@)) by {
                        lemma_assoc_contains(self.entries@, name@);
                    }
                }
            },
        }
    }
}

/// Removing index `i` by a swap-remove takes exactly that name out of the
/// association map, provided the names were distinct.
proof fn lemma_swap_remove_assoc(s: Seq<PoolEntry>, i: int)
    requires
        distinct_names(s),
        0 <= i < s.len(),
    ensures
        distinct_names(s.update(i, s.last()).drop_last()),
        assoc_map(s.update(i, s.last()).drop_last()) == assoc_map(s).remove(s[i].name@),
{
    let t = s.update(i, s.last()).drop_last();
    assert forall|a: int, b: int| 0 <= a < b < t.len() implies t[a].name@ != t[b].name@ by {
        if a == i {
            assert(t[a] == s[s.len() - 1]);
        }
        if b == i {
            assert(t[b] == s[s.len() - 1]);
        }
    }
    let k0 = s[i].name@;
    assert forall|k: Seq<char>| #[trigger] assoc_map(t).contains_key(k) implies assoc_map(s).remove(
        k0,
    ).contains_key(k) && assoc_map(t)[k] == assoc_map(s).remove(k0)[k] by {
        lemma_assoc_contains(t, k);
        lemma_assoc_contains(s, k);
        let a = choose|a: int| 0 <= a < t.len() && t[a].name@ == k;
        let a2: int = if a == i { s.len() - 1 } else { a };
        assert(s[a2].name@ == k);
        assert(a2 != i);
        assert(k != k0);
        lemma_assoc_index(t, a);
        lemma_assoc_index(s, a2);
    }
    assert forall|k: Seq<char>| #[trigger] assoc_map(s).remove(k0).contains_key(k) implies
        assoc_map(t).contains_key(k) by {
        lemma_assoc_contains(t, k);
        lemma_assoc_contains(s, k);
        let a = choose|a: int| 0 <= a < s.len() && s[a].name@ == k;
        assert(a != i);
        if a == s.len() - 1 {
            if i < s.len() - 1 {
                assert(t[i] == s[a]);
            }
        } else {
            assert(t[a] == s[a]);
        }
    }
    assert(assoc_map(t) =~= assoc_map(s).remove(k0));
}

/// How one `put` call relates the pool state before it to the state after
/// it; `put`'s postcondition establishes exactly this relation.
pub open spec fn put_transition(pre: Pool, post: Pool, name: Seq<char>, t: QidType) -> bool {
    if pre.map().contains_key(name) {
        post.map() == pre.map() && post.next() == pre.next()
    } else {
        post.map() == pre.map().insert(name, pre.spec_put_qid(name, t)) && post.next() == pre.next()
            + 1
    }
}

/// Two `put` calls with the same path string return bit-identical qids,
/// whatever type bits the second call asks for.
pub proof fn lemma_put_same_name(pre: Pool, post: Pool, name: Seq<char>, t1: QidType, t2: QidType)
    requires
        put_transition(pre, post, name, t1),
    ensures
        post.spec_put_qid(name, t2) == pre.spec_put_qid(name, t1),
{
    if pre.map().contains_key(name) {
        assert(post.map()[name] == pre.map()[name]);
    } else {
        assert(post.map().contains_key(name));
        assert(post.map()[name] == pre.spec_put_qid(name, t1));
    }
}

/// Two `put` calls for distinct path strings neither of which the pool has
/// seen return qids whose path fields strictly increase in call order.
pub proof fn lemma_put_distinct_paths_increase(
    pre: Pool,
    mid: Pool,
    n1: Seq<char>,
    n2: Seq<char>,
    t1: QidType,
    t2: QidType,
)
    requires
        n1 != n2,
        !pre.map().contains_key(n1),
        !pre.map().contains_key(n2),
        put_transition(pre, mid, n1, t1),
    ensures
        mid.spec_put_qid(n2, t2).spec_path() > pre.spec_put_qid(n1, t1).spec_path(),
{
    assert(!mid.map().contains_key(n2));
}

} // verus!
