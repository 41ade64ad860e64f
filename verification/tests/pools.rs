use ninep::dev::FidPool;
use ninep::qidpool::Pool;
use ninep::qidpool::QidType;

#[test]
fn fresh_fids_are_distinct() {
    let mut pool = FidPool::new();
    let a = pool.get_fid();
    let b = pool.get_fid();
    let c = pool.get_fid();
    assert_ne!(a, b);
    assert_ne!(a, c);
    assert_ne!(b, c);
    assert_eq!(a, 1);
    assert_eq!(b, 2);
    assert_eq!(c, 3);
}

#[test]
fn clunking_top_fid_shrinks_high_water() {
    let mut pool = FidPool::new();
    let _ = pool.get_fid();
    let _ = pool.get_fid();
    let top = pool.get_fid();
    assert_eq!(pool.high_water(), 4);
    pool.clunk_fid(top);
    assert_eq!(pool.high_water(), 3);
    pool.clunk_fid(2);
    assert_eq!(pool.high_water(), 2);
}

#[test]
fn clunking_non_top_fid_keeps_counter_and_recycles() {
    let mut pool = FidPool::new();
    let a = pool.get_fid();
    let _ = pool.get_fid();
    let _ = pool.get_fid();
    assert_eq!(pool.high_water(), 4);
    pool.clunk_fid(a);
    assert_eq!(pool.high_water(), 4);
    // the recycled value comes back before the counter grows
    assert_eq!(pool.get_fid(), a);
    assert_eq!(pool.get_fid(), 4);
}

#[test]
fn duplicate_clunk_is_harmless() {
    let mut pool = FidPool::new();
    let a = pool.get_fid();
    let _ = pool.get_fid();
    pool.clunk_fid(a);
    pool.clunk_fid(a);
    assert_eq!(pool.get_fid(), a);
    assert_eq!(pool.get_fid(), 3);
}

#[test]
fn compaction_cascades_through_recycled_values() {
    let mut pool = FidPool::new();
    let _one = pool.get_fid();
    let two = pool.get_fid();
    let three = pool.get_fid();
    pool.clunk_fid(two);
    assert_eq!(pool.high_water(), 4);
    // clunking the top pops both trailing recyclable values
    pool.clunk_fid(three);
    assert_eq!(pool.high_water(), 2);
}

#[test]
fn qid_pool_put_is_idempotent_per_path() {
    let mut pool = Pool::new();
    let q1 = pool.put("/a", QidType::directory());
    let q2 = pool.put("/a", QidType::file());
    assert_eq!(q1, q2);
    assert_eq!(q1.as_bytes(), q2.as_bytes());
}

#[test]
fn qid_pool_paths_strictly_increase() {
    let mut pool = Pool::new();
    let qa = pool.put("/a", QidType::file());
    let qb = pool.put("/b", QidType::file());
    let qc = pool.put("/c", QidType::directory());
    assert!(qa.path < qb.path);
    assert!(qb.path < qc.path);
}

#[test]
fn qid_pool_get_and_del() {
    let mut pool = Pool::new();
    assert!(pool.get("/a").is_none());
    let qa = pool.put("/a", QidType::file());
    assert_eq!(pool.get("/a"), Some(qa));
    pool.del("/a");
    assert!(pool.get("/a").is_none());
    // identity is not recycled: a later put allocates a new counter value
    let qa2 = pool.put("/a", QidType::file());
    assert!(qa2.path > qa.path);
}
