use ninep::dir::Dir;
use ninep::initrd::InitRD;
use ninep::initrd::InitRDServer;
use ninep::nine_p::DevError;
use ninep::nine_p::FileAccessMode;
use ninep::nine_p::FileMode;
use ninep::nine_p::NinePServer;
use ninep::tar::FileType;
use ninep::tar::TarEntry;
use ninep::tar::TarHeader;

fn entry(name: &str, typeflag: FileType, data: &[u8]) -> TarEntry {
    TarEntry {
        header: TarHeader {
            name: name.to_string(),
            mode: 0o644,
            uid: 0,
            gid: 0,
            size: data.len(),
            mtime: 1234,
            chksum: 0,
            typeflag,
            linkname: String::new(),
            uname: "root".to_string(),
            gname: "wheel".to_string(),
            devmajor: String::new(),
            devminor: String::new(),
            prefix: String::new(),
            atime: Some(99),
            ctime: None,
        },
        data: data.to_vec(),
    }
}

fn test_server() -> InitRDServer {
    let entries = vec![
        entry("test", FileType::Regular, b"hello world"),
        entry("sub", FileType::Directory, b""),
        entry("sub/inner", FileType::Regular, b"abc"),
        entry("sub/deep", FileType::Directory, b""),
    ];
    InitRDServer::new('/', "initrd", InitRD::new(entries))
}

fn read_mode() -> FileMode {
    FileMode::new(FileAccessMode::Read, false, false)
}

#[test]
fn attach_gives_directory_qid_for_root() {
    let mut srv = test_server();
    let qid = srv.attach(1, 0, "user", "").expect("attach should succeed");
    assert!(qid.qid_type().contains(ninep::qidpool::QidType::directory()));
    assert_eq!(qid.path, 0);
}

#[test]
fn attach_rejects_bound_fid_and_nonzero_afid() {
    let mut srv = test_server();
    srv.attach(1, 0, "", "").unwrap();
    assert_eq!(srv.attach(1, 0, "", ""), Err(DevError::FidInUse));
    assert_eq!(srv.attach(2, 7, "", ""), Err(DevError::AuthNotNeeded));
}

#[test]
fn auth_is_never_needed() {
    let mut srv = test_server();
    assert_eq!(srv.auth(1, "user", "spec"), Err(DevError::AuthNotNeeded));
}

// The root scenario: a clone walk binds the new fid to `/`, opening it
// yields the directory qid, and reads drain one encoded record per
// top-level entry before EOF.
#[test]
fn root_listing_scenario() {
    let mut srv = test_server();
    let root_qid = srv.attach(1, 0, "", "").unwrap();
    let walked = srv.walk(1, 2, &[]).expect("clone walk should succeed");
    assert_eq!(walked.len(), 0);

    let (qid, iounit) = srv.open(2, &read_mode()).expect("open of root should succeed");
    assert_eq!(qid, root_qid);
    assert_eq!(iounit, 0);

    let first = srv.read(2, 0, 1000).expect("first record");
    let rec1 = Dir::from_bytes(first.as_slice()).expect("record decodes");
    assert_eq!(rec1.name, "/test");
    assert_eq!(rec1.length, 11);
    assert_eq!(rec1.mtime, 1234);
    assert_eq!(rec1.atime, 99);
    assert_eq!(rec1.uid, "root");
    assert_eq!(rec1.gid, "wheel");
    assert_eq!(rec1.muid, "root");

    let second = srv.read(2, first.len() as u64, 1000).expect("second record");
    let rec2 = Dir::from_bytes(second.as_slice()).expect("record decodes");
    assert_eq!(rec2.name, "/sub");

    let off = (first.len() + second.len()) as u64;
    assert_eq!(srv.read(2, off, 1000), Err(DevError::EOF));
}

#[test]
fn walk_to_missing_name_leaves_new_fid_unbound() {
    let mut srv = test_server();
    srv.attach(1, 0, "", "").unwrap();
    assert_eq!(srv.walk(1, 2, &["missing"]), Err(DevError::NoSuchFile));
    // fid 2 is not bound
    assert_eq!(srv.open(2, &read_mode()), Err(DevError::NoFid));
}

#[test]
fn open_with_truncate_is_always_denied() {
    let mut srv = test_server();
    srv.attach(1, 0, "", "").unwrap();
    let truncating = FileMode::new(FileAccessMode::Read, true, false);
    assert_eq!(srv.open(1, &truncating), Err(DevError::PermissionDenied));
    srv.walk(1, 2, &["test"]).unwrap();
    assert_eq!(srv.open(2, &truncating), Err(DevError::PermissionDenied));
    let removing = FileMode::new(FileAccessMode::Read, false, true);
    assert_eq!(srv.open(2, &removing), Err(DevError::PermissionDenied));
}

#[test]
fn reusing_new_fid_without_clunk_is_fid_in_use() {
    let mut srv = test_server();
    srv.attach(1, 0, "", "").unwrap();
    srv.walk(1, 2, &["test"]).unwrap();
    assert_eq!(srv.walk(1, 2, &["test"]), Err(DevError::FidInUse));
    srv.clunk(2).unwrap();
    assert!(srv.walk(1, 2, &["test"]).is_ok());
}

#[test]
fn walk_returns_one_qid_per_resolved_name() {
    let mut srv = test_server();
    srv.attach(1, 0, "", "").unwrap();
    let qids = srv.walk(1, 2, &["sub", "inner"]).unwrap();
    assert_eq!(qids.len(), 2);
    assert!(qids[0].qid_type().contains(ninep::qidpool::QidType::directory()));
    assert!(!qids[1].qid_type().contains(ninep::qidpool::QidType::directory()));
}

// A deliberate part of the walk contract: resolution stops at the first
// name that turns out not to be a directory, and the resolved prefix is
// still a success.
#[test]
fn walk_stops_at_first_non_directory() {
    let mut srv = test_server();
    srv.attach(1, 0, "", "").unwrap();
    let qids = srv.walk(1, 2, &["test", "whatever", "more"]).unwrap();
    assert_eq!(qids.len(), 1);
    // the new fid is bound to /test, the last resolved path
    let (qid, _) = srv.open(2, &read_mode()).unwrap();
    assert_eq!(qid, qids[0]);
    assert_eq!(srv.read(2, 0, 5).unwrap(), b"hello".to_vec());
}

// Likewise deliberate: a partially resolved walk reports the resolved
// prefix as success, and only a walk that resolves nothing fails.
#[test]
fn walk_partial_success_binds_last_resolved_path() {
    let mut srv = test_server();
    srv.attach(1, 0, "", "").unwrap();
    let qids = srv.walk(1, 2, &["sub", "missing"]).unwrap();
    assert_eq!(qids.len(), 1);
    let (qid, _) = srv.open(2, &read_mode()).unwrap();
    assert_eq!(qid, qids[0]);
}

#[test]
fn dotdot_pops_a_path_segment() {
    let mut srv = test_server();
    srv.attach(1, 0, "", "").unwrap();
    let qids = srv.walk(1, 2, &["sub", "deep", ".."]).unwrap();
    assert_eq!(qids.len(), 3);
    assert_eq!(qids[2], qids[0]);
}

#[test]
fn walk_through_file_is_not_a_dir() {
    let mut srv = test_server();
    srv.attach(1, 0, "", "").unwrap();
    srv.walk(1, 2, &["test"]).unwrap();
    assert_eq!(srv.walk(2, 3, &["x"]), Err(DevError::NotADir));
}

#[test]
fn walk_from_open_fid_is_file_open() {
    let mut srv = test_server();
    srv.attach(1, 0, "", "").unwrap();
    srv.open(1, &read_mode()).unwrap();
    assert_eq!(srv.walk(1, 2, &["test"]), Err(DevError::FileOpen));
}

#[test]
fn reopening_a_fid_is_rejected() {
    let mut srv = test_server();
    srv.attach(1, 0, "", "").unwrap();
    srv.open(1, &read_mode()).unwrap();
    assert_eq!(srv.open(1, &read_mode()), Err(DevError::FileOpen));
}

#[test]
fn directory_open_requires_read_access() {
    let mut srv = test_server();
    srv.attach(1, 0, "", "").unwrap();
    let writing = FileMode::new(FileAccessMode::Write, false, false);
    assert_eq!(srv.open(1, &writing), Err(DevError::PermissionDenied));
    let executing = FileMode::new(FileAccessMode::Execute, false, false);
    assert_eq!(srv.open(1, &executing), Err(DevError::PermissionDenied));
}

#[test]
fn file_open_allows_read_and_execute() {
    let mut srv = test_server();
    srv.attach(1, 0, "", "").unwrap();
    srv.walk(1, 2, &["test"]).unwrap();
    let executing = FileMode::new(FileAccessMode::Execute, false, false);
    assert!(srv.open(2, &executing).is_ok());
    srv.walk(1, 3, &["test"]).unwrap();
    let writing = FileMode::new(FileAccessMode::ReadWrite, false, false);
    assert_eq!(srv.open(3, &writing), Err(DevError::PermissionDenied));
}

#[test]
fn file_reads_are_positional() {
    let mut srv = test_server();
    srv.attach(1, 0, "", "").unwrap();
    srv.walk(1, 2, &["test"]).unwrap();
    srv.open(2, &read_mode()).unwrap();
    assert_eq!(srv.read(2, 0, 5).unwrap(), b"hello".to_vec());
    assert_eq!(srv.read(2, 6, 100).unwrap(), b"world".to_vec());
    assert_eq!(srv.read(2, 0, 1000).unwrap(), b"hello world".to_vec());
    assert_eq!(srv.read(2, 11, 5), Err(DevError::EOF));
    assert_eq!(srv.read(2, 999, 5), Err(DevError::EOF));
}

#[test]
fn reading_an_unopened_fid_is_a_descriptive_error() {
    let mut srv = test_server();
    srv.attach(1, 0, "", "").unwrap();
    srv.walk(1, 2, &["test"]).unwrap();
    match srv.read(2, 0, 10) {
        Err(DevError::Str(msg)) => {
            assert_eq!(msg, "File /test not open for reading");
        },
        other => panic!("expected a descriptive error, got {:?}", other),
    }
}

#[test]
fn reading_an_unknown_fid_is_no_fid() {
    let mut srv = test_server();
    srv.attach(1, 0, "", "").unwrap();
    assert_eq!(srv.read(9, 0, 10), Err(DevError::NoFid));
}

#[test]
fn directory_stream_is_forward_only() {
    let mut srv = test_server();
    srv.attach(1, 0, "", "").unwrap();
    srv.open(1, &read_mode()).unwrap();
    assert_eq!(srv.read(1, 5, 1000), Err(DevError::NoSeek));
}

#[test]
fn short_directory_read_is_small_read_and_skips_the_entry() {
    let mut srv = test_server();
    srv.attach(1, 0, "", "").unwrap();
    srv.open(1, &read_mode()).unwrap();
    assert_eq!(srv.read(1, 0, 3), Err(DevError::SmallRead));
    // the cursor advanced past the first entry anyway
    let next = srv.read(1, 0, 1000).unwrap();
    let rec = Dir::from_bytes(next.as_slice()).unwrap();
    assert_eq!(rec.name, "/sub");
}

#[test]
fn listing_a_subdirectory_yields_its_children() {
    let mut srv = test_server();
    srv.attach(1, 0, "", "").unwrap();
    srv.walk(1, 2, &["sub"]).unwrap();
    srv.open(2, &read_mode()).unwrap();
    let first = srv.read(2, 0, 1000).unwrap();
    let rec = Dir::from_bytes(first.as_slice()).unwrap();
    assert_eq!(rec.name, "/sub/inner");
    assert_eq!(rec.length, 3);
    let second = srv.read(2, first.len() as u64, 1000).unwrap();
    let rec2 = Dir::from_bytes(second.as_slice()).unwrap();
    assert_eq!(rec2.name, "/sub/deep");
    let off = (first.len() + second.len()) as u64;
    assert_eq!(srv.read(2, off, 1000), Err(DevError::EOF));
}

#[test]
fn clunk_always_succeeds_and_unbinds() {
    let mut srv = test_server();
    srv.attach(1, 0, "", "").unwrap();
    assert_eq!(srv.clunk(1), Ok(()));
    assert_eq!(srv.open(1, &read_mode()), Err(DevError::NoFid));
    // clunking an unbound fid is not an error
    assert_eq!(srv.clunk(1), Ok(()));
    assert_eq!(srv.clunk(42), Ok(()));
}

#[test]
fn remove_unbinds_but_is_denied() {
    let mut srv = test_server();
    srv.attach(1, 0, "", "").unwrap();
    assert_eq!(srv.remove(1), Err(DevError::PermissionDenied));
    assert_eq!(srv.open(1, &read_mode()), Err(DevError::NoFid));
}

#[test]
fn write_side_operations_are_denied() {
    let mut srv = test_server();
    srv.attach(1, 0, "", "").unwrap();
    assert_eq!(srv.write(), Err(DevError::PermissionDenied));
    assert_eq!(srv.wstat(), Err(DevError::PermissionDenied));
    assert_eq!(
        srv.create(1, "x", 0, &read_mode()),
        Err(DevError::PermissionDenied)
    );
    assert!(srv.stat().is_err());
}

#[test]
fn server_identity_is_stable() {
    let srv = test_server();
    assert_eq!(srv.name(), '/');
    assert_eq!(srv.description(), "initrd");
}

#[test]
fn error_descriptions_are_exact() {
    assert_eq!(DevError::EOF.description(), "End of file");
    assert_eq!(
        DevError::AuthNotNeeded.description(),
        "Authentication not required"
    );
    assert_eq!(DevError::PermissionDenied.description(), "Permission denied");
    assert_eq!(DevError::FidInUse.description(), "Fid already in use");
    assert_eq!(DevError::NoFid.description(), "Fid does not exit");
    assert_eq!(
        DevError::NoSeek.description(),
        "File does not support seeking"
    );
    assert_eq!(
        DevError::SmallRead.description(),
        "Read size too small for data"
    );
    assert_eq!(
        DevError::NoSuchFile.description(),
        "No such file or directory"
    );
    assert_eq!(DevError::NotADir.description(), "Not a directory");
    assert_eq!(DevError::FileOpen.description(), "File is open");
    assert_eq!(
        DevError::Str("boom".to_string()).description(),
        "boom"
    );
}

#[test]
fn archive_lookup_finds_unique_paths() {
    let srv_entries = vec![
        entry("test", FileType::Regular, b"hello world"),
        entry("sub", FileType::Directory, b""),
        entry("sub/inner", FileType::Regular, b"abc"),
    ];
    let rd = InitRD::new(srv_entries);
    assert_eq!(rd.stat("/test"), Some(0));
    assert_eq!(rd.stat("/sub/inner"), Some(2));
    assert_eq!(rd.stat("/missing"), None);
    assert_eq!(rd.stat("/tes"), None);
    assert_eq!(rd.list_dir("/"), vec![0, 1]);
    assert_eq!(rd.list_dir("/sub"), vec![2]);
    assert_eq!(rd.list_dir("/test"), Vec::<usize>::new());
}

#[test]
fn walking_up_from_the_root_fails() {
    let mut srv = test_server();
    srv.attach(1, 0, "", "").unwrap();
    assert_eq!(srv.walk(1, 2, &[".."]), Err(DevError::NoSuchFile));
    assert_eq!(srv.walk(1, 2, &[""]), Err(DevError::NoSuchFile));
}

#[test]
fn walk_may_rebind_its_own_fid() {
    let mut srv = test_server();
    srv.attach(1, 0, "", "").unwrap();
    // with fid == new_fid no in-use check applies: the fid moves
    let qids = srv.walk(1, 1, &["test"]).unwrap();
    assert_eq!(qids.len(), 1);
    srv.open(1, &read_mode()).unwrap();
    assert_eq!(srv.read(1, 0, 1000).unwrap(), b"hello world".to_vec());
}
