//! Decoded archive entries: the header fields and raw data of one member
//! of an in-memory tar archive, and the block-level decoder.

use vstd::prelude::*;
use vstd::slice::slice_subrange;
use vstd::slice::slice_to_vec;
use crate::strutil;

verus! {

pub const TAR_BLOCKSIZE: u64 = 512;

/// The kind of object an archive member is.
#[derive(Debug, Clone, Copy, PartialEq, Eq, Structural)]
pub enum FileType {
    Regular,
    HardLink,
    SoftLink,
    CharacterSpecial,
    BlockSpecial,
    Directory,
    Fifo,
    LongLink,
}

/// The decoded fields of one archive member's header.
#[derive(Debug)]
pub struct TarHeader {
    pub name: String,
    pub mode: usize,
    pub uid: usize,
    pub gid: usize,
    pub size: usize,
    pub mtime: usize,
    pub chksum: usize,
    pub typeflag: FileType,
    pub linkname: String,
    pub uname: String,
    pub gname: String,
    pub devmajor: String,
    pub devminor: String,
    pub prefix: String,
    pub atime: Option<usize>,
    pub ctime: Option<usize>,
}

/// One archive member: its header and its raw data bytes.
#[derive(Debug)]
pub struct TarEntry {
    pub header: TarHeader,
    pub data: Vec<u8>,
}

impl TarEntry {
    pub fn header(&self) -> (r: &TarHeader)
        ensures
            r == &self.header,
    {
        &self.header
    }

    pub fn data(&self) -> (r: &[u8])
        ensures
            r@ == self.data@,
    {
        self.data.as_slice()
    }
}


/// An octal digit byte.
pub open spec fn spec_is_octal_digit(b: u8) -> bool {
    48 <= b <= 55
}

/// The value of an all-octal-digit field, most significant digit first.
pub open spec fn spec_octal_value(s: Seq<u8>) -> nat
    decreases s.len(),
{
    if s.len() == 0 {
        0
    } else {
        spec_octal_value(s.drop_last()) * 8 + (s.last() - 48) as nat
    }
}

/// A nonempty field of octal digits whose value a `usize` can hold.
pub open spec fn spec_octal_field(s: Seq<u8>) -> bool {
    &&& s.len() > 0
    &&& forall|i: int| 0 <= i < s.len() ==> spec_is_octal_digit(#[trigger] s[i])
    &&& spec_octal_value(s) <= usize::MAX
}

/// The field without its trailing NUL bytes.
pub open spec fn spec_trim_nuls(s: Seq<u8>) -> Seq<u8>
    decreases s.len(),
{
    if s.len() > 0 && s.last() == 0 {
        spec_trim_nuls(s.drop_last())
    } else {
        s
    }
}

/// The file type a typeflag byte stands for.
pub open spec fn spec_file_type(b: u8) -> FileType {
    if b == 0 || b == 48 {
        FileType::Regular
    } else if b == 49 {
        FileType::HardLink
    } else if b == 50 {
        FileType::SoftLink
    } else if b == 51 {
        FileType::CharacterSpecial
    } else if b == 52 {
        FileType::BlockSpecial
    } else if b == 53 {
        FileType::Directory
    } else if b == 54 {
        FileType::Fifo
    } else {
        FileType::LongLink
    }
}

pub open spec fn spec_typeflag_known(b: u8) -> bool {
    b == 0 || 48 <= b <= 54 || b == 76
}

/// The six magic bytes `ustar ` every supported header carries.
pub open spec fn spec_magic_ok(b: Seq<u8>) -> bool {
    b.subrange(257, 263) =~= seq![117u8, 115u8, 116u8, 97u8, 114u8, 32u8]
}

/// Whether one 512-byte header block decodes: magic present, string
/// fields ASCII, numeric fields octal, the modification time present, and
/// a typeflag this decoder knows.
pub open spec fn spec_header_valid(b: Seq<u8>) -> bool {
    &&& spec_magic_ok(b)
    &&& strutil::spec_all_ascii(b.subrange(263, 265))
    &&& strutil::spec_all_ascii(b.subrange(0, 100))
    &&& spec_octal_field(b.subrange(100, 107))
    &&& spec_octal_field(b.subrange(108, 115))
    &&& spec_octal_field(b.subrange(116, 123))
    &&& spec_octal_field(b.subrange(124, 135))
    &&& spec_octal_field(b.subrange(136, 147))
    &&& spec_octal_field(b.subrange(148, 154))
    &&& spec_typeflag_known(b[156])
    &&& strutil::spec_all_ascii(b.subrange(157, 257))
    &&& strutil::spec_all_ascii(b.subrange(265, 297))
    &&& strutil::spec_all_ascii(b.subrange(297, 329))
    &&& strutil::spec_all_ascii(b.subrange(329, 337))
    &&& strutil::spec_all_ascii(b.subrange(337, 345))
    &&& strutil::spec_all_ascii(b.subrange(345, 476))
    &&& spec_time_field(b.subrange(476, 487))
    &&& spec_time_field(b.subrange(488, 499))
}

/// A time field is either all NUL (absent) or a plain octal field.
pub open spec fn spec_time_field(s: Seq<u8>) -> bool {
    spec_trim_nuls(s).len() == 0 || spec_octal_field(s)
}

/// The value of a time field, if present.
pub open spec fn spec_time_value(s: Seq<u8>) -> Option<usize> {
    if spec_trim_nuls(s).len() == 0 {
        None
    } else {
        Some(spec_octal_value(s) as usize)
    }
}

/// Whether `h` holds exactly the fields encoded in header block `b`.
pub open spec fn spec_header_matches(b: Seq<u8>, h: TarHeader) -> bool {
    &&& h.name@ == strutil::spec_ascii_chars(spec_trim_nuls(b.subrange(0, 100)))
    &&& h.mode == spec_octal_value(b.subrange(100, 107))
    &&& h.uid == spec_octal_value(b.subrange(108, 115))
    &&& h.gid == spec_octal_value(b.subrange(116, 123))
    &&& h.size == spec_octal_value(b.subrange(124, 135))
    &&& h.mtime == spec_octal_value(b.subrange(136, 147))
    &&& h.chksum == spec_octal_value(b.subrange(148, 154))
    &&& h.typeflag == spec_file_type(b[156])
    &&& h.linkname@ == strutil::spec_ascii_chars(spec_trim_nuls(b.subrange(157, 257)))
    &&& h.uname@ == strutil::spec_ascii_chars(spec_trim_nuls(b.subrange(265, 297)))
    &&& h.gname@ == strutil::spec_ascii_chars(spec_trim_nuls(b.subrange(297, 329)))
    &&& h.devmajor@ == strutil::spec_ascii_chars(spec_trim_nuls(b.subrange(329, 337)))
    &&& h.devminor@ == strutil::spec_ascii_chars(spec_trim_nuls(b.subrange(337, 345)))
    &&& h.prefix@ == strutil::spec_ascii_chars(spec_trim_nuls(b.subrange(345, 476)))
    &&& h.atime == spec_time_value(b.subrange(476, 487))
    &&& h.ctime == spec_time_value(b.subrange(488, 499))
}

/// A block of nothing but NUL bytes.
pub open spec fn spec_all_zero(s: Seq<u8>) -> bool {
    forall|i: int| 0 <= i < s.len() ==> s[i] == 0
}

fn all_zero(chunk: &[u8], start: usize, end: usize) -> (r: bool)
    requires
        start <= end <= chunk@.len(),
    ensures
        r == spec_all_zero(chunk@.subrange(start as int, end as int)),
{
    let mut i: usize = start;
    while i < end
        invariant
            start <= i <= end <= chunk@.len(),
            forall|j: int| start <= j < i ==> chunk@[j] == 0,
        decreases end - i,
    {
        if chunk[i] != 0 {
            proof {
                assert(chunk@.subrange(start as int, end as int)[i - start] != 0);
            }
            return false;
        }
        i = i + 1;
    }
    proof {
        assert forall|j: int| 0 <= j < end - start implies chunk@.subrange(
            start as int,
            end as int,
        )[j] == 0 by {
            assert(chunk@[start + j] == 0);
        }
    }
    true
}

spec fn pow8(n: nat) -> nat
    decreases n,
{
    if n == 0 {
        1
    } else {
        8 * pow8((n - 1) as nat)
    }
}

proof fn lemma_pow8_mono(a: nat, b: nat)
    requires
        a <= b,
    ensures
        pow8(a) <= pow8(b),
    decreases b,
{
    if a < b {
        lemma_pow8_mono(a, (b - 1) as nat);
    }
}

proof fn lemma_pow8_12()
    ensures
        pow8(12) == 0x1000000000,
{
    reveal_with_fuel(pow8, 13);
}

/// Reads an octal numeric field.
fn parse_octal(chunk: &[u8], start: usize, len: usize) -> (r: Option<usize>)
    requires
        start + len <= chunk@.len(),
        len <= 12,
    ensures
        r is Some <==> spec_octal_field(chunk@.subrange(start as int, start as int + len as int)),
        r matches Some(v) ==> v == spec_octal_value(
            chunk@.subrange(start as int, start as int + len as int),
        ),
{
    let ghost field = chunk@.subrange(start as int, start as int + len as int);
    if len == 0 {
        return None;
    }
    let n = chunk.len();
    let mut v: u64 = 0;
    let mut i: usize = 0;
    while i < len
        invariant
            0 <= i <= len,
            len <= 12,
            start + len <= chunk@.len(),
            n == chunk@.len(),
            field == chunk@.subrange(start as int, start as int + len as int),
            forall|j: int| 0 <= j < i ==> spec_is_octal_digit(#[trigger] field[j]),
            v == spec_octal_value(field.subrange(0, i as int)),
            v < pow8(i as nat),
        decreases len - i,
    {
        proof {
            lemma_pow8_mono(i as nat, 12);
            lemma_pow8_12();
        }
        let b = chunk[start + i];
        if b < 48 || b > 55 {
            proof {
                assert(field[i as int] == b);
            }
            return None;
        }
        proof {
            assert(field.subrange(0, i as int + 1).drop_last() =~= field.subrange(0, i as int));
            assert(field.subrange(0, i as int + 1).last() == b);
            assert(pow8(i as nat + 1) == 8 * pow8(i as nat));
        }
        v = v * 8 + ((b - 48) as u64);
        i = i + 1;
    }
    proof {
        assert(field.subrange(0, len as int) =~= field);
    }
    if v > (usize::MAX as u64) {
        return None;
    }
    Some(v as usize)
}

/// Reads a NUL-padded ASCII string field.
fn parse_string(chunk: &[u8], start: usize, len: usize) -> (r: Option<String>)
    requires
        start + len <= chunk@.len(),
    ensures
        r is Some <==> strutil::spec_all_ascii(
            chunk@.subrange(start as int, start as int + len as int),
        ),
        r matches Some(t) ==> t@ == strutil::spec_ascii_chars(
            spec_trim_nuls(chunk@.subrange(start as int, start as int + len as int)),
        ),
{
    let ghost field = chunk@.subrange(start as int, start as int + len as int);
    let n = chunk.len();
    let mut i: usize = 0;
    while i < len
        invariant
            0 <= i <= len,
            start + len <= chunk@.len(),
            n == chunk@.len(),
            field == chunk@.subrange(start as int, start as int + len as int),
            forall|j: int| 0 <= j < i ==> #[trigger] field[j] < 128,
        decreases len - i,
    {
        if chunk[start + i] >= 128 {
            proof {
                assert(field[i as int] == chunk@[start + i]);
            }
            return None;
        }
        proof {
            assert(field[i as int] == chunk@[start + i]);
        }
        i = i + 1;
    }
    let mut k: usize = len;
    proof {
        assert(field.subrange(0, k as int) =~= field);
    }
    while k > 0 && chunk[start + k - 1] == 0
        invariant
            0 <= k <= len,
            start + len <= chunk@.len(),
            n == chunk@.len(),
            field == chunk@.subrange(start as int, start as int + len as int),
            forall|j: int| 0 <= j < len ==> #[trigger] field[j] < 128,
            spec_trim_nuls(field) == spec_trim_nuls(field.subrange(0, k as int)),
        decreases k,
    {
        proof {
            assert(field.subrange(0, k as int).last() == field[k - 1]);
            assert(field[k - 1] == chunk@[start + k - 1]);
            assert(field.subrange(0, k as int).drop_last() =~= field.subrange(0, k - 1));
        }
        k = k - 1;
    }
    proof {
        if k > 0 {
            assert(field.subrange(0, k as int).last() == field[k - 1]);
            assert(field[k - 1] == chunk@[start + k - 1]);
        }
        assert(spec_trim_nuls(field.subrange(0, k as int)) == field.subrange(0, k as int));
        assert(chunk@.subrange(start as int, start as int + k as int) =~= field.subrange(
            0,
            k as int,
        ));
    }
    let trimmed = slice_to_vec(slice_subrange(chunk, start, start + k));
    Some(strutil::string_from_ascii(trimmed))
}

/// Reads a time field: absent when all NUL, else octal.
fn parse_time(chunk: &[u8], start: usize, len: usize) -> (r: Option<Option<usize>>)
    requires
        start + len <= chunk@.len(),
        len <= 12,
    ensures
        r is Some <==> spec_time_field(chunk@.subrange(start as int, start as int + len as int)),
        r matches Some(t) ==> t == spec_time_value(
            chunk@.subrange(start as int, start as int + len as int),
        ),
{
    let ghost field = chunk@.subrange(start as int, start as int + len as int);
    let n = chunk.len();
    if all_zero(chunk, start, start + len) {
        proof {
            lemma_trim_all_zero(field);
        }
        return Some(None);
    }
    proof {
        lemma_trim_nonzero(field);
    }
    match parse_octal(chunk, start, len) {
        Some(v) => Some(Some(v)),
        None => None,
    }
}

/// Trimming an all-NUL field leaves nothing.
proof fn lemma_trim_all_zero(s: Seq<u8>)
    requires
        spec_all_zero(s),
    ensures
        spec_trim_nuls(s).len() == 0,
    decreases s.len(),
{
    if s.len() > 0 {
        assert(s.drop_last() =~= s.subrange(0, s.len() - 1));
        lemma_trim_all_zero(s.drop_last());
    }
}

/// A field with any nonzero byte keeps something after trimming.
proof fn lemma_trim_nonzero(s: Seq<u8>)
    requires
        !spec_all_zero(s),
    ensures
        spec_trim_nuls(s).len() > 0,
    decreases s.len(),
{
    assert(s.len() > 0);
    if s.last() == 0 {
        assert(!spec_all_zero(s.drop_last())) by {
            let i = choose|i: int| 0 <= i < s.len() && s[i] != 0;
            assert(s.drop_last()[i] != 0);
        }
        lemma_trim_nonzero(s.drop_last());
    }
}

/// Decodes one 512-byte header block: `None` for an all-NUL block and for
/// any block this decoder cannot take apart.
pub fn read_header(chunk: &[u8]) -> (r: Option<TarHeader>)
    requires
        chunk@.len() == 512,
    ensures
        r is Some <==> (!spec_all_zero(chunk@) && spec_header_valid(chunk@)),
        r matches Some(h) ==> spec_header_matches(chunk@, h),
{
    if all_zero(chunk, 0, 512) {
        proof {
            assert(chunk@.subrange(0, 512) =~= chunk@);
        }
        return None;
    }
    proof {
        assert(chunk@.subrange(0, 512) =~= chunk@);
    }
    if !(chunk[257] == 117 && chunk[258] == 115 && chunk[259] == 116 && chunk[260] == 97
        && chunk[261] == 114 && chunk[262] == 32) {
        proof {
            assert(!spec_magic_ok(chunk@)) by {
                if spec_magic_ok(chunk@) {
                    let m = chunk@.subrange(257, 263);
                    assert(m[0] == 117 && m[1] == 115 && m[2] == 116 && m[3] == 97 && m[4] == 114
                        && m[5] == 32);
                }
            }
        }
        return None;
    }
    proof {
        assert(spec_magic_ok(chunk@)) by {
            assert(chunk@.subrange(257, 263) =~= seq![117u8, 115u8, 116u8, 97u8, 114u8, 32u8]);
        }
    }
    match parse_string(chunk, 263, 2) {
        Some(_) => {},
        None => {
            return None;
        },
    }
    let name = match parse_string(chunk, 0, 100) {
        Some(v) => v,
        None => {
            return None;
        },
    };
    let mode = match parse_octal(chunk, 100, 7) {
        Some(v) => v,
        None => {
            return None;
        },
    };
    let uid = match parse_octal(chunk, 108, 7) {
        Some(v) => v,
        None => {
            return None;
        },
    };
    let gid = match parse_octal(chunk, 116, 7) {
        Some(v) => v,
        None => {
            return None;
        },
    };
    let size = match parse_octal(chunk, 124, 11) {
        Some(v) => v,
        None => {
            return None;
        },
    };
    let mtime = match parse_octal(chunk, 136, 11) {
        Some(v) => v,
        None => {
            return None;
        },
    };
    let chksum = match parse_octal(chunk, 148, 6) {
        Some(v) => v,
        None => {
            return None;
        },
    };
    let flag = chunk[156];
    if !(flag == 0 || (flag >= 48 && flag <= 54) || flag == 76) {
        return None;
    }
    let typeflag = if flag == 0 || flag == 48 {
        FileType::Regular
    } else if flag == 49 {
        FileType::HardLink
    } else if flag == 50 {
        FileType::SoftLink
    } else if flag == 51 {
        FileType::CharacterSpecial
    } else if flag == 52 {
        FileType::BlockSpecial
    } else if flag == 53 {
        FileType::Directory
    } else if flag == 54 {
        FileType::Fifo
    } else {
        FileType::LongLink
    };
    let linkname = match parse_string(chunk, 157, 100) {
        Some(v) => v,
        None => {
            return None;
        },
    };
    let uname = match parse_string(chunk, 265, 32) {
        Some(v) => v,
        None => {
            return None;
        },
    };
    let gname = match parse_string(chunk, 297, 32) {
        Some(v) => v,
        None => {
            return None;
        },
    };
    let devmajor = match parse_string(chunk, 329, 8) {
        Some(v) => v,
        None => {
            return None;
        },
    };
    let devminor = match parse_string(chunk, 337, 8) {
        Some(v) => v,
        None => {
            return None;
        },
    };
    let prefix = match parse_string(chunk, 345, 131) {
        Some(v) => v,
        None => {
            return None;
        },
    };
    let atime = match parse_time(chunk, 476, 11) {
        Some(v) => v,
        None => {
            return None;
        },
    };
    let ctime = match parse_time(chunk, 488, 11) {
        Some(v) => v,
        None => {
            return None;
        },
    };
    Some(
        TarHeader {
            name,
            mode,
            uid,
            gid,
            size,
            mtime,
            chksum,
            typeflag,
            linkname,
            uname,
            gname,
            devmajor,
            devminor,
            prefix,
            atime,
            ctime,
        },
    )
}


/// The header block offsets of the archive's members: blocks are walked
/// from `pos` until two all-NUL blocks have been seen, each member's data
/// rounded up to whole blocks.  `None` where the walk runs off the end of
/// the data or meets a block the decoder cannot take apart.
pub open spec fn spec_scan(data: Seq<u8>, pos: int, empties: int) -> Option<Seq<int>>
    decreases data.len() - pos,
{
    if empties >= 2 {
        Some(Seq::empty())
    } else if pos < 0 || pos + 512 > data.len() {
        None
    } else {
        let block = data.subrange(pos, pos + 512);
        if spec_all_zero(block) {
            spec_scan(data, pos + 512, empties + 1)
        } else if !spec_header_valid(block) {
            None
        } else {
            let size = spec_octal_value(block.subrange(124, 135)) as int;
            let next = pos + 512 + ((size + 511) / 512) * 512;
            if next > data.len() {
                None
            } else {
                match spec_scan(data, next, empties) {
                    None => None,
                    Some(rest) => Some(seq![pos] + rest),
                }
            }
        }
    }
}

/// Whether `e` is the member whose header block sits at `off`.
pub open spec fn spec_entry_at(data: Seq<u8>, off: int, e: TarEntry) -> bool {
    let block = data.subrange(off, off + 512);
    &&& spec_header_matches(block, e.header)
    &&& e.data@ == data.subrange(
        off + 512,
        off + 512 + spec_octal_value(block.subrange(124, 135)) as int,
    )
}

/// Decodes a whole in-memory archive into its member entries, in block
/// order.  `None` for data that is not a whole number of blocks, runs out
/// before its two closing NUL blocks, or holds a block the decoder cannot
/// take apart.
pub fn find_headers(data: &[u8]) -> (r: Option<Vec<TarEntry>>)
    ensures
        data@.len() % 512 != 0 ==> r is None,
        data@.len() % 512 == 0 ==> {
            &&& (r is None <==> spec_scan(data@, 0, 0) is None)
            &&& r matches Some(es) ==> (spec_scan(data@, 0, 0) matches Some(offs) && es@.len()
                == offs.len() && (forall|k: int|
                0 <= k < es@.len() ==> spec_entry_at(data@, offs[k], #[trigger] es@[k])))
        },
{
    let n = data.len();
    if n % 512 != 0 {
        return None;
    }
    let mut out: Vec<TarEntry> = Vec::new();
    let ghost mut offs_acc: Seq<int> = Seq::empty();
    let mut pos: usize = 0;
    let mut empties: usize = 0;
    loop
        invariant
            n == data@.len(),
            n % 512 == 0,
            pos <= n,
            empties <= 2,
            out@.len() == offs_acc.len(),
            forall|k: int| 0 <= k < out@.len() ==> spec_entry_at(data@, offs_acc[k], #[trigger] out@[k]),
            match spec_scan(data@, pos as int, empties as int) {
                None => spec_scan(data@, 0, 0) is None,
                Some(rest) => spec_scan(data@, 0, 0) == Some(offs_acc + rest),
            },
        decreases n - pos,
    {
        if empties >= 2 {
            proof {
                assert(offs_acc + Seq::<int>::empty() =~= offs_acc);
            }
            return Some(out);
        }
        if n - pos < 512 {
            return None;
        }
        let block = slice_subrange(data, pos, pos + 512);
        let ghost bview = data@.subrange(pos as int, pos as int + 512);
        if all_zero(block, 0, 512) {
            proof {
                assert(block@.subrange(0, 512) =~= bview);
            }
            pos = pos + 512;
            empties = empties + 1;
            continue ;
        }
        proof {
            assert(block@.subrange(0, 512) =~= bview);
        }
        let h = match read_header(block) {
            None => {
                return None;
            },
            Some(h) => h,
        };
        let size = h.size;
        proof {
            assert(bview.subrange(124, 135) =~= block@.subrange(124, 135));
            assert(size == spec_octal_value(bview.subrange(124, 135)));
        }
        let avail = n - pos - 512;
        let blocks = size / 512 + if size % 512 != 0 {
            1usize
        } else {
            0usize
        };
        proof {
            assert(blocks == (size as int + 511) / 512);
        }
        if blocks > avail / 512 {
            proof {
                assert(blocks * 512 > avail) by (nonlinear_arith)
                    requires
                        blocks > avail / 512,
                        avail >= 0,
                ;
            }
            return None;
        }
        proof {
            assert(blocks * 512 <= avail) by (nonlinear_arith)
                requires
                    blocks <= avail / 512,
                    avail >= 0,
            ;
        }
        let skip = blocks * 512;
        proof {
            assert(size <= blocks * 512) by (nonlinear_arith)
                requires
                    blocks == (size as int + 511) / 512,
                    size >= 0,
            ;
            assert(size <= skip);
        }
        let dvec = slice_to_vec(slice_subrange(data, pos + 512, pos + 512 + size));
        let ghost off = pos as int;
        let entry = TarEntry { header: h, data: dvec };
        proof {
            assert(spec_entry_at(data@, off, entry));
        }
        out.push(entry);
        proof {
            offs_acc = offs_acc + seq![off];
            assert((offs_acc.drop_last() + seq![off]) =~= offs_acc);
            let rest2 = spec_scan(data@, pos as int + 512 + skip as int, empties as int);
            match rest2 {
                None => {},
                Some(r2) => {
                    assert(offs_acc.drop_last() + (seq![off] + r2) =~= offs_acc + r2);
                },
            }
        }
        pos = pos + 512 + skip;
    }
}

} // verus!
