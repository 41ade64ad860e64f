use ninep::tar::FileType;
use ninep::tar::find_headers;
use ninep::tar::read_header;

fn put_octal(block: &mut [u8], start: usize, len: usize, value: usize) {
    let digits = format!("{:0width$o}", value, width = len);
    block[start..start + len].copy_from_slice(digits.as_bytes());
}

fn header_block(name: &str, size: usize, typeflag: u8) -> Vec<u8> {
    let mut block = vec![0u8; 512];
    block[..name.len()].copy_from_slice(name.as_bytes());
    put_octal(&mut block, 100, 7, 0o644);
    put_octal(&mut block, 108, 7, 0);
    put_octal(&mut block, 116, 7, 0);
    put_octal(&mut block, 124, 11, size);
    put_octal(&mut block, 136, 11, 1234);
    put_octal(&mut block, 148, 6, 0);
    block[156] = typeflag;
    block[257..263].copy_from_slice(b"ustar ");
    block[265..269].copy_from_slice(b"root");
    block
}

fn archive(members: &[(&str, &[u8], u8)]) -> Vec<u8> {
    let mut data = Vec::new();
    for (name, body, flag) in members {
        data.extend_from_slice(&header_block(name, body.len(), *flag));
        data.extend_from_slice(body);
        while data.len() % 512 != 0 {
            data.push(0);
        }
    }
    data.extend_from_slice(&vec![0u8; 1024]);
    data
}

#[test]
fn decodes_a_single_member() {
    let data = archive(&[("test", b"hello world", b'0')]);
    let entries = find_headers(&data).expect("archive should decode");
    assert_eq!(entries.len(), 1);
    assert_eq!(entries[0].header().name, "test");
    assert_eq!(entries[0].header().size, 11);
    assert_eq!(entries[0].header().mtime, 1234);
    assert_eq!(entries[0].header().uname, "root");
    assert_eq!(entries[0].header().typeflag, FileType::Regular);
    assert_eq!(entries[0].data(), b"hello world");
}

#[test]
fn decodes_members_in_block_order() {
    let data = archive(&[
        ("sub", b"", b'5'),
        ("sub/inner", b"abc", b'0'),
        ("top", b"zzzz", b'0'),
    ]);
    let entries = find_headers(&data).expect("archive should decode");
    assert_eq!(entries.len(), 3);
    assert_eq!(entries[0].header().name, "sub");
    assert_eq!(entries[0].header().typeflag, FileType::Directory);
    assert_eq!(entries[1].header().name, "sub/inner");
    assert_eq!(entries[1].data(), b"abc");
    assert_eq!(entries[2].header().name, "top");
    assert_eq!(entries[2].data(), b"zzzz");
}

#[test]
fn rejects_data_that_is_not_whole_blocks() {
    let mut data = archive(&[("test", b"x", b'0')]);
    data.push(0);
    assert!(find_headers(&data).is_none());
}

#[test]
fn rejects_bad_magic() {
    let mut data = archive(&[("test", b"x", b'0')]);
    data[257] = b'X';
    assert!(find_headers(&data).is_none());
}

#[test]
fn rejects_archive_without_closing_blocks() {
    let mut data = Vec::new();
    data.extend_from_slice(&header_block("test", 0, b'0'));
    assert!(find_headers(&data).is_none());
}

#[test]
fn rejects_non_octal_size_field() {
    let mut data = archive(&[("test", b"x", b'0')]);
    data[124] = b'9';
    assert!(find_headers(&data).is_none());
}

#[test]
fn empty_trailer_only_archive_has_no_members() {
    let data = vec![0u8; 1024];
    let entries = find_headers(&data).expect("trailer-only archive decodes");
    assert_eq!(entries.len(), 0);
}

#[test]
fn read_header_returns_none_for_zero_block() {
    let block = vec![0u8; 512];
    assert!(read_header(&block).is_none());
}

#[test]
fn read_header_decodes_times() {
    let mut block = header_block("f", 0, b'0');
    put_octal(&mut block, 476, 11, 777);
    let h = read_header(&block).expect("block should decode");
    assert_eq!(h.atime, Some(777));
    assert_eq!(h.ctime, None);
    assert_eq!(h.mode, 0o644);
    assert_eq!(h.name, "f");
}
