//! The directory entry codec: the fixed little-endian binary layout of one
//! stat record, its decoder, and the proof that the two are inverses.

use vstd::prelude::*;
use vstd::bytes::*;
use vstd::slice::slice_subrange;
use vstd::slice::slice_to_vec;
use vstd::string::StrSliceExecFns;
use vstd::string::StringSliceAdditionalSpecFns;
use vstd::utf8::is_ascii_chars;
use vstd::utf8::is_ascii_chars_encode_utf8;
use crate::qidpool::Qid;
use crate::qidpool::spec_qid_bytes;
use crate::qidpool::spec_qid_from_bytes;
use crate::qidpool::lemma_qid_round_trip;
use crate::strutil;

verus! {

/// The mathematical content of one directory record.
pub ghost struct DirView {
    pub dir_type: u16,
    pub dev: u32,
    pub qid: Qid,
    pub mode: u32,
    pub atime: u32,
    pub mtime: u32,
    pub length: u64,
    pub name: Seq<char>,
    pub uid: Seq<char>,
    pub gid: Seq<char>,
    pub muid: Seq<char>,
}

/// One directory entry: the metadata of one file or directory, as served to
/// readers of an open directory.
pub struct Dir {
    pub dir_type: u16,
    pub dev: u32,
    pub qid: Qid,
    pub mode: u32,
    pub atime: u32,
    pub mtime: u32,
    pub length: u64,
    pub name: String,
    pub uid: String,
    pub gid: String,
    pub muid: String,
}

impl View for Dir {
    type V = DirView;

    open spec fn view(&self) -> DirView {
        DirView {
            dir_type: self.dir_type,
            dev: self.dev,
            qid: self.qid,
            mode: self.mode,
            atime: self.atime,
            mtime: self.mtime,
            length: self.length,
            name: self.name@,
            uid: self.uid@,
            gid: self.gid@,
            muid: self.muid@,
        }
    }
}

/// ASCII characters, one byte each.
pub open spec fn spec_chars_to_bytes(s: Seq<char>) -> Seq<u8> {
    s.map_values(|c: char| c as u8)
}

/// One length-prefixed string field: two little-endian length bytes, then
/// the string's bytes.
pub open spec fn spec_str_field(s: Seq<char>) -> Seq<u8> {
    spec_u16_to_le_bytes(s.len() as u16) + spec_chars_to_bytes(s)
}

/// Whether a record can be encoded: its strings are ASCII and the whole
/// record length fits the two-byte length prefix.
pub open spec fn encodable(d: DirView) -> bool {
    &&& is_ascii_chars(d.name)
    &&& is_ascii_chars(d.uid)
    &&& is_ascii_chars(d.gid)
    &&& is_ascii_chars(d.muid)
    &&& 47 + d.name.len() + d.uid.len() + d.gid.len() + d.muid.len() <= 65535
}

/// Everything after the two length bytes: type, dev, qid, mode, atime,
/// mtime, length, then the four string fields.
pub open spec fn spec_dir_payload(d: DirView) -> Seq<u8> {
    spec_u16_to_le_bytes(d.dir_type) + spec_u32_to_le_bytes(d.dev) + spec_qid_bytes(d.qid)
        + spec_u32_to_le_bytes(d.mode) + spec_u32_to_le_bytes(d.atime) + spec_u32_to_le_bytes(
        d.mtime,
    ) + spec_u64_to_le_bytes(d.length) + spec_str_field(d.name) + spec_str_field(d.uid)
        + spec_str_field(d.gid) + spec_str_field(d.muid)
}

/// The full wire form: the payload length as two little-endian bytes, then
/// the payload.
pub open spec fn spec_dir_bytes(d: DirView) -> Seq<u8> {
    spec_u16_to_le_bytes(spec_dir_payload(d).len() as u16) + spec_dir_payload(d)
}

/// One length-prefixed string field read at `off`: the characters and the
/// offset just past them.  Fails on a short field or a non-ASCII byte.
pub open spec fn spec_parse_str_field(s: Seq<u8>, off: int) -> Option<(Seq<char>, int)> {
    if 0 <= off && off + 2 <= s.len() {
        let l = spec_u16_from_le_bytes(s.subrange(off, off + 2)) as int;
        if off + 2 + l <= s.len() && strutil::spec_all_ascii(s.subrange(off + 2, off + 2 + l)) {
            Some((strutil::spec_ascii_chars(s.subrange(off + 2, off + 2 + l)), off + 2 + l))
        } else {
            None
        }
    } else {
        None
    }
}

/// The record encoded in `s`, if `s` is exactly one well-formed record.
pub open spec fn spec_dir_from_bytes(s: Seq<u8>) -> Option<DirView> {
    if s.len() < 49 || s.len() != 2 + spec_u16_from_le_bytes(s.subrange(0, 2)) {
        None
    } else {
        match spec_parse_str_field(s, 41) {
            None => None,
            Some((name, o1)) => match spec_parse_str_field(s, o1) {
                None => None,
                Some((uid, o2)) => match spec_parse_str_field(s, o2) {
                    None => None,
                    Some((gid, o3)) => match spec_parse_str_field(s, o3) {
                        None => None,
                        Some((muid, o4)) => if o4 == s.len() {
                            Some(
                                DirView {
                                    dir_type: spec_u16_from_le_bytes(s.subrange(2, 4)),
                                    dev: spec_u32_from_le_bytes(s.subrange(4, 8)),
                                    qid: spec_qid_from_bytes(s.subrange(8, 21)),
                                    mode: spec_u32_from_le_bytes(s.subrange(21, 25)),
                                    atime: spec_u32_from_le_bytes(s.subrange(25, 29)),
                                    mtime: spec_u32_from_le_bytes(s.subrange(29, 33)),
                                    length: spec_u64_from_le_bytes(s.subrange(33, 41)),
                                    name,
                                    uid,
                                    gid,
                                    muid,
                                },
                            )
                        } else {
                            None
                        },
                    },
                },
            },
        }
    }
}

/// Appends one length-prefixed string field.
fn push_str_field(out: &mut Vec<u8>, s: &str)
    requires
        is_ascii_chars(s@),
        s@.len() <= 65535,
    ensures
        final(out)@ == old(out)@ + spec_str_field(s@),
{
    proof {
        is_ascii_chars_encode_utf8(s@);
    }
    let n = s.unicode_len();
    let mut len_bytes = u16_to_le_bytes(n as u16);
    out.append(&mut len_bytes);
    let mut bytes = s.as_bytes_vec();
    out.append(&mut bytes);
    proof {
        assert(s.spec_bytes() =~= spec_chars_to_bytes(s@));
        assert(final(out)@ =~= old(out)@ + spec_str_field(s@));
    }
}

impl Dir {
    pub fn new(
        dir_type: u16,
        dev: u32,
        qid: &Qid,
        mode: u32,
        atime: u32,
        mtime: u32,
        length: u64,
        name: &str,
        uid: &str,
        gid: &str,
        muid: &str,
    ) -> (r: Dir)
        ensures
            r@ == (DirView {
                dir_type,
                dev,
                qid: *qid,
                mode,
                atime,
                mtime,
                length,
                name: name@,
                uid: uid@,
                gid: gid@,
                muid: muid@,
            }),
    {
        Dir {
            dir_type,
            dev,
            qid: *qid,
            mode,
            atime,
            mtime,
            length,
            name: name.to_owned(),
            uid: uid.to_owned(),
            gid: gid.to_owned(),
            muid: muid.to_owned(),
        }
    }

    /// The record's wire form: a two-byte total length (the record length
    /// minus those two bytes), the fixed fields, then the four strings.
    pub fn as_bytes(&self) -> (r: Vec<u8>)
        requires
            encodable(self@),
        ensures
            r@ == spec_dir_bytes(self@),
    {
        proof {
            is_ascii_chars_encode_utf8(self.name@);
            is_ascii_chars_encode_utf8(self.uid@);
            is_ascii_chars_encode_utf8(self.gid@);
            is_ascii_chars_encode_utf8(self.muid@);
            lemma_auto_spec_u16_to_from_le_bytes();
            lemma_auto_spec_u32_to_from_le_bytes();
            lemma_auto_spec_u64_to_from_le_bytes();
        }
        let name_len = self.name.as_str().unicode_len();
        let uid_len = self.uid.as_str().unicode_len();
        let gid_len = self.gid.as_str().unicode_len();
        let muid_len = self.muid.as_str().unicode_len();
        let len = 47 + name_len + uid_len + gid_len + muid_len;

        let mut out: Vec<u8> = Vec::new();
        let mut piece = u16_to_le_bytes(len as u16);
        out.append(&mut piece);
        let mut piece = u16_to_le_bytes(self.dir_type);
        out.append(&mut piece);
        let mut piece = u32_to_le_bytes(self.dev);
        out.append(&mut piece);
        let mut piece = self.qid.as_bytes();
        out.append(&mut piece);
        let mut piece = u32_to_le_bytes(self.mode);
        out.append(&mut piece);
        let mut piece = u32_to_le_bytes(self.atime);
        out.append(&mut piece);
        let mut piece = u32_to_le_bytes(self.mtime);
        out.append(&mut piece);
        let mut piece = u64_to_le_bytes(self.length);
        out.append(&mut piece);
        push_str_field(&mut out, self.name.as_str());
        push_str_field(&mut out, self.uid.as_str());
        push_str_field(&mut out, self.gid.as_str());
        push_str_field(&mut out, self.muid.as_str());
        proof {
            assert(spec_dir_payload(self@).len() == 47 + self.name@.len() + self.uid@.len()
                + self.gid@.len() + self.muid@.len());
            assert(out@ =~= spec_dir_bytes(self@));
        }
        out
    }

    /// Decodes one record; `None` exactly where no well-formed record fills
    /// `s` completely.
    pub fn from_bytes(s: &[u8]) -> (r: Option<Dir>)
        ensures
            match r {
                Some(d) => spec_dir_from_bytes(s@) == Some(d@),
                None => spec_dir_from_bytes(s@) is None,
            },
    {
        proof {
            lemma_auto_spec_u16_to_from_le_bytes();
        }
        let n = s.len();
        if n < 49 {
            return None;
        }
        let reclen = u16_from_le_bytes(slice_subrange(s, 0, 2));
        if (reclen as usize) + 2 != n {
            return None;
        }
        let name = match parse_str_field(s, 41) {
            None => {
                return None;
            },
            Some(p) => p,
        };
        let uid = match parse_str_field(s, name.1) {
            None => {
                return None;
            },
            Some(p) => p,
        };
        let gid = match parse_str_field(s, uid.1) {
            None => {
                return None;
            },
            Some(p) => p,
        };
        let muid = match parse_str_field(s, gid.1) {
            None => {
                return None;
            },
            Some(p) => p,
        };
        if muid.1 != n {
            return None;
        }
        let d = Dir {
            dir_type: u16_from_le_bytes(slice_subrange(s, 2, 4)),
            dev: u32_from_le_bytes(slice_subrange(s, 4, 8)),
            qid: Qid::from_bytes(s, 8),
            mode: u32_from_le_bytes(slice_subrange(s, 21, 25)),
            atime: u32_from_le_bytes(slice_subrange(s, 25, 29)),
            mtime: u32_from_le_bytes(slice_subrange(s, 29, 33)),
            length: u64_from_le_bytes(slice_subrange(s, 33, 41)),
            name: name.0,
            uid: uid.0,
            gid: gid.0,
            muid: muid.0,
        };
        Some(d)
    }
}

/// Reads one length-prefixed string field at `off`.
fn parse_str_field(s: &[u8], off: usize) -> (r: Option<(String, usize)>)
    ensures
        match r {
            Some(p) => spec_parse_str_field(s@, off as int) == Some((p.0@, p.1 as int)),
            None => spec_parse_str_field(s@, off as int) is None,
        },
{
    proof {
        lemma_auto_spec_u16_to_from_le_bytes();
    }
    let n = s.len();
    if off > n || n - off < 2 {
        return None;
    }
    let l = u16_from_le_bytes(slice_subrange(s, off, off + 2)) as usize;
    if n - off - 2 < l {
        return None;
    }
    let field = slice_subrange(s, off + 2, off + 2 + l);
    let mut i: usize = 0;
    #[verifier::loop_isolation(false)]
    while i < l
        invariant
            0 <= i <= l,
            forall|j: int| 0 <= j < i ==> field@[j] < 128,
        decreases l - i,
    {
        if field[i] >= 128 {
            proof {
                let lspec = spec_u16_from_le_bytes(s@.subrange(off as int, off as int + 2)) as int;
                assert(lspec == l as int);
                assert(field@ == s@.subrange(off as int + 2, off as int + 2 + lspec));
                assert(field@[i as int] >= 128);
                assert(!strutil::spec_all_ascii(field@));
            }
            return None;
        }
        i = i + 1;
    }
    let text = strutil::string_from_ascii(slice_to_vec(field));
    Some((text, off + 2 + l))
}

/// Encoding a record and decoding the bytes recovers every field exactly.
pub proof fn lemma_dir_round_trip(d: DirView)
    requires
        encodable(d),
    ensures
        spec_dir_from_bytes(spec_dir_bytes(d)) == Some(d),
{
    lemma_auto_spec_u16_to_from_le_bytes();
    lemma_auto_spec_u32_to_from_le_bytes();
    lemma_auto_spec_u64_to_from_le_bytes();
    lemma_qid_round_trip(d.qid);
    is_ascii_chars_encode_utf8(d.name);
    let s = spec_dir_bytes(d);
    let pl = spec_dir_payload(d);
    assert(pl.len() == 47 + d.name.len() + d.uid.len() + d.gid.len() + d.muid.len());
    assert(s.len() == 2 + pl.len());
    assert(s.subrange(0, 2) =~= spec_u16_to_le_bytes(pl.len() as u16));
    assert(s.len() == 2 + spec_u16_from_le_bytes(s.subrange(0, 2)));
    assert(s.subrange(2, 4) =~= spec_u16_to_le_bytes(d.dir_type));
    assert(s.subrange(4, 8) =~= spec_u32_to_le_bytes(d.dev));
    assert(s.subrange(8, 21) =~= spec_qid_bytes(d.qid));
    assert(s.subrange(21, 25) =~= spec_u32_to_le_bytes(d.mode));
    assert(s.subrange(25, 29) =~= spec_u32_to_le_bytes(d.atime));
    assert(s.subrange(29, 33) =~= spec_u32_to_le_bytes(d.mtime));
    assert(s.subrange(33, 41) =~= spec_u64_to_le_bytes(d.length));
    let o1 = 43 + d.name.len() as int;
    let o2 = o1 + 2 + d.uid.len() as int;
    let o3 = o2 + 2 + d.gid.len() as int;
    let o4 = o3 + 2 + d.muid.len() as int;
    assert(s.subrange(41, o1) =~= spec_str_field(d.name));
    assert(s.subrange(o1, o2) =~= spec_str_field(d.uid));
    assert(s.subrange(o2, o3) =~= spec_str_field(d.gid));
    assert(s.subrange(o3, o4) =~= spec_str_field(d.muid));
    lemma_parse_encoded_field(s, 41, d.name);
    lemma_parse_encoded_field(s, o1, d.uid);
    lemma_parse_encoded_field(s, o2, d.gid);
    lemma_parse_encoded_field(s, o3, d.muid);
    assert(o4 == s.len());
    assert(spec_dir_from_bytes(s).unwrap() == d);
}

/// If the bytes at `off` are the encoding of `chars`, parsing there yields
/// `chars` and stops just past them.
proof fn lemma_parse_encoded_field(s: Seq<u8>, off: int, chars: Seq<char>)
    requires
        is_ascii_chars(chars),
        chars.len() <= 65535,
        0 <= off,
        off + 2 + chars.len() <= s.len(),
        s.subrange(off, off + 2 + chars.len() as int) == spec_str_field(chars),
    ensures
        spec_parse_str_field(s, off) == Some((chars, off + 2 + chars.len() as int)),
{
    lemma_auto_spec_u16_to_from_le_bytes();
    let f = spec_str_field(chars);
    let lenb = spec_u16_to_le_bytes(chars.len() as u16);
    let bytes = spec_chars_to_bytes(chars);
    assert(lenb.len() == 2);
    assert(f.len() == 2 + chars.len());
    let whole = s.subrange(off, off + 2 + chars.len() as int);
    assert forall|j: int| 0 <= j < f.len() implies s[off + j] == f[j] by {
        assert(whole[j] == f[j]);
        assert(whole[j] == s[off + j]);
    }
    assert(s.subrange(off, off + 2) =~= lenb) by {
        assert forall|j: int| 0 <= j < 2 implies s.subrange(off, off + 2)[j] == lenb[j] by {
            assert(s.subrange(off, off + 2)[j] == s[off + j]);
            assert(s[off + j] == f[j]);
            assert(f[j] == lenb[j]);
        }
    }
    assert(spec_u16_from_le_bytes(s.subrange(off, off + 2)) == chars.len());
    let body = s.subrange(off + 2, off + 2 + chars.len() as int);
    assert(body =~= bytes) by {
        assert forall|i: int| 0 <= i < chars.len() implies body[i] == bytes[i] by {
            assert(body[i] == s[off + 2 + i]);
            assert(s[off + (2 + i)] == f[2 + i]);
            assert(f[2 + i] == bytes[i]);
        }
    }
    assert forall|i: int| 0 <= i < body.len() implies body[i] < 128 by {
        assert(chars[i] <= '\u{7f}');
        assert(body[i] == chars[i] as u8);
    }
    assert(strutil::spec_ascii_chars(body) =~= chars) by {
        assert(forall|i: int| 0 <= i < chars.len() ==> #[trigger] body[i] == chars[i] as u8);
        assert forall|i: int| 0 <= i < chars.len() implies strutil::spec_ascii_chars(body)[i]
            == chars[i] by {
            assert(strutil::spec_ascii_chars(body)[i] == body[i] as char);
            assert(chars[i] <= '\u{7f}');
        }
    }
}

} // verus!
