//! The namespace: a table of path-prefix bindings, and the minimum viable
//! resolver that opens a device-selector path against the registry.

use vstd::prelude::*;
use vstd::string::StrSliceExecFns;
use crate::Fid;
use crate::NO_FID;
use crate::dev::DevDrivers;
use crate::nine_p::DevError;
use crate::nine_p::FidView;
use crate::nine_p::NinePServer;
use crate::nine_p::root_path;

verus! {

/// The destination the binding table maps `src` to: the latest binding for
/// a source shadows every earlier one.
pub open spec fn last_bound(s: Seq<(Seq<char>, Seq<char>)>, src: Seq<char>) -> Option<Seq<char>>
    decreases s.len(),
{
    if s.len() == 0 {
        None
    } else if s.last().0 == src {
        Some(s.last().1)
    } else {
        last_bound(s.drop_last(), src)
    }
}

/// An ordered table of path-prefix bindings plus the resolver over the
/// device registry.
pub struct Namespace {
    binds: Vec<(String, String)>,
}

impl Namespace {
    pub closed spec fn binds_seq(&self) -> Seq<(Seq<char>, Seq<char>)> {
        self.binds@.map_values(|p: (String, String)| (p.0@, p.1@))
    }

    /// The destination bound to `src`, if any.
    pub open spec fn bound(&self, src: Seq<char>) -> Option<Seq<char>> {
        last_bound(self.binds_seq(), src)
    }

    pub fn new() -> (r: Namespace)
        ensures
            forall|k: Seq<char>| r.bound(k) is None,
    {
        let r = Namespace { binds: Vec::new() };
        proof {
            assert(r.binds_seq() =~= Seq::<(Seq<char>, Seq<char>)>::empty());
        }
        r
    }

    /// Binds the prefix `src` to the destination `dst`, shadowing any
    /// earlier binding for the same source.
    pub fn bind(&mut self, src: &str, dst: &str)
        ensures
            final(self).bound(src@) == Some(dst@),
            forall|k: Seq<char>| k != src@ ==> final(self).bound(k) == old(self).bound(k),
    {
        self.binds.push((src.to_owned(), dst.to_owned()));
        proof {
            assert(final(self).binds_seq() =~= old(self).binds_seq().push((src@, dst@)));
            assert(final(self).binds_seq().drop_last() =~= old(self).binds_seq());
        }
    }

    /// Resolves a device-selector path: looks the one-character device
    /// name up in the registry, draws a fid from that device's pool, and
    /// attaches it to the device's root.  A missing device name or an
    /// unregistered device fails `NoSuchFile`.  If the attach fails, the
    /// drawn fid goes straight back to the pool and the server's error is
    /// propagated.
    pub fn open_file<S: NinePServer>(&self, devs: &mut DevDrivers<S>, path: &str) -> (r: Result<
        (char, Fid),
        DevError,
    >)
        requires
            old(devs).wf(),
            path@.len() >= 1 && path@[0] == '#',
            path@.len() >= 2 && old(devs).has(path@[1]) ==> old(devs).at(
                path@[1],
            ).fid_pool.can_get(),
        ensures
            final(devs).wf(),
            path@.len() < 2 ==> r == Err::<(char, Fid), DevError>(DevError::NoSuchFile) && *final(devs) == *old(devs),
            path@.len() >= 2 && !old(devs).has(path@[1]) ==> r == Err::<(char, Fid), DevError>(
                DevError::NoSuchFile,
            ) && *final(devs) == *old(devs),
            path@.len() >= 2 && old(devs).has(path@[1]) ==> {
                let c = path@[1];
                let pool0 = old(devs).at(c).fid_pool;
                let srv0 = old(devs).at(c).server;
                let fid = pool0.next_fid();
                &&& final(devs).has(c)
                &&& forall|d: char| d != c ==> #[trigger] final(devs).has(d) == old(devs).has(d)
                    && (old(devs).has(d) ==> final(devs).at(d) == old(devs).at(d))
                &&& !srv0.files_view().contains_key(fid) ==> r == Ok::<(char, Fid), DevError>(
                    (c, fid),
                ) && final(devs).at(c).server.files_view() == srv0.files_view().insert(
                    fid,
                    (FidView { path: root_path(), open: false }),
                ) && final(devs).at(c).fid_pool.outstanding() == pool0.outstanding().insert(fid)
                &&& srv0.files_view().contains_key(fid) ==> r == Err::<(char, Fid), DevError>(
                    DevError::FidInUse,
                ) && final(devs).at(c).fid_pool.outstanding() == pool0.outstanding()
            },
    {
        if path.unicode_len() < 2 {
            return Err(DevError::NoSuchFile);
        }
        let c = path.get_char(1);
        if !devs.has_dev(c) {
            return Err(DevError::NoSuchFile);
        }
        let fid = devs.get_fid(c);
        match devs.attach(c, fid, NO_FID, "", "") {
            Ok(_) => Ok((c, fid)),
            Err(e) => {
                proof {
                    assert(devs.at(c).fid_pool.outstanding().contains(fid));
                }
                devs.clunk_fid(c, fid);
                proof {
                    assert(final(devs).at(c).fid_pool.outstanding() =~= old(devs).at(
                        c,
                    ).fid_pool.outstanding());
                }
                Err(e)
            },
        }
    }
}

} // verus!
