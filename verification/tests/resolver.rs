use ninep::dev::DevDrivers;
use ninep::initrd::InitRD;
use ninep::initrd::InitRDServer;
use ninep::namespace::Namespace;
use ninep::nine_p::DevError;
use ninep::nine_p::FileAccessMode;
use ninep::nine_p::FileMode;
use ninep::nine_p::NinePServer;
use ninep::tar::FileType;
use ninep::tar::TarEntry;
use ninep::tar::TarHeader;

fn entry(name: &str, typeflag: FileType, data: &[u8]) -> TarEntry {
    TarEntry {
        header: TarHeader {
            name: name.to_string(),
            mode: 0o644,
            uid: 0,
            gid: 0,
            size: data.len(),
            mtime: 1,
            chksum: 0,
            typeflag,
            linkname: String::new(),
            uname: String::new(),
            gname: String::new(),
            devmajor: String::new(),
            devminor: String::new(),
            prefix: String::new(),
            atime: None,
            ctime: None,
        },
        data: data.to_vec(),
    }
}

fn registry() -> DevDrivers<InitRDServer> {
    let entries = vec![entry("test", FileType::Regular, b"hello")];
    let server = InitRDServer::new('/', "initrd", InitRD::new(entries));
    let mut devs = DevDrivers::new();
    devs.insert_dev_driver(server);
    devs
}

#[test]
fn registry_finds_registered_devices() {
    let devs = registry();
    assert!(devs.has_dev('/'));
    assert!(!devs.has_dev('x'));
    assert!(devs.get_dev_driver('/').is_some());
    assert!(devs.get_dev_driver('x').is_none());
}

#[test]
fn registering_again_replaces_the_server() {
    let mut devs = registry();
    let other = InitRDServer::new('/', "second", InitRD::new(vec![]));
    devs.insert_dev_driver(other);
    let d = devs.get_dev_driver('/').unwrap();
    assert_eq!(d.server().description(), "second");
}

#[test]
fn open_file_attaches_and_returns_a_fresh_fid() {
    let mut devs = registry();
    let ns = Namespace::new();
    let (dev, fid) = ns.open_file(&mut devs, "#/").expect("resolution should succeed");
    assert_eq!(dev, '/');
    assert_eq!(fid, 1);
    // the fid is attached: walking from it works through the registry
    let nf = devs.get_fid('/');
    let qids = devs.walk('/', fid, nf, &["test"]).unwrap();
    assert_eq!(qids.len(), 1);
    // a second resolution draws the next fid
    let (_, fid2) = ns.open_file(&mut devs, "#/").unwrap();
    assert_eq!(fid2, 3);
}

#[test]
fn open_file_reports_missing_devices() {
    let mut devs = registry();
    let ns = Namespace::new();
    assert_eq!(ns.open_file(&mut devs, "#x"), Err(DevError::NoSuchFile));
    assert_eq!(ns.open_file(&mut devs, "#"), Err(DevError::NoSuchFile));
}

#[test]
fn full_session_through_the_registry() {
    let mut devs = registry();
    let mut ns = Namespace::new();
    ns.bind("/", "#/");
    let (dev, root_fid) = ns.open_file(&mut devs, "#/").unwrap();
    let read = FileMode::new(FileAccessMode::Read, false, false);

    let fid2 = devs.get_fid(dev);
    assert_eq!(devs.walk(dev, root_fid, fid2, &[]).unwrap().len(), 0);
    assert!(devs.open(dev, fid2, &read).is_ok());
    let rec = devs.read(dev, fid2, 0, 1000).unwrap();
    assert!(rec.len() > 0);
    assert_eq!(devs.clunk(dev, fid2), Ok(()));
    devs.clunk_fid(dev, fid2);

    let fid3 = devs.get_fid(dev);
    assert_eq!(fid3, fid2);
    let qids = devs.walk(dev, root_fid, fid3, &["test"]).unwrap();
    assert_eq!(qids.len(), 1);
    assert!(devs.open(dev, fid3, &read).is_ok());
    assert_eq!(devs.read(dev, fid3, 0, 1000).unwrap(), b"hello".to_vec());
    assert_eq!(devs.clunk(dev, fid3), Ok(()));
    devs.clunk_fid(dev, fid3);
}

#[test]
fn open_file_recycles_the_fid_when_attach_fails() {
    let entries = vec![entry("test", FileType::Regular, b"hello")];
    let mut server = InitRDServer::new('/', "initrd", InitRD::new(entries));
    // fid 1 is already bound inside the server, so the first pool fid collides
    server.attach(1, 0, "", "").unwrap();
    let mut devs = DevDrivers::new();
    devs.insert_dev_driver(server);
    let ns = Namespace::new();
    assert_eq!(ns.open_file(&mut devs, "#/"), Err(DevError::FidInUse));
    // the drawn fid went back to the pool: the next resolution draws 1 again
    assert_eq!(ns.open_file(&mut devs, "#/"), Err(DevError::FidInUse));
    devs.clunk('/', 1).unwrap();
    let (_, fid) = ns.open_file(&mut devs, "#/").unwrap();
    assert_eq!(fid, 1);
}
