use async_redis_session::backend::MemoryBackend;
use async_redis_session::session::Session;
use async_redis_session::store::RedisSessionStore;
use fred::pool::RedisPool;
use fred::types::RedisConfig;

fn test_store(prefix: Option<&str>) -> RedisSessionStore {
    let pool = RedisPool::new(RedisConfig::default(), None, None, 6).unwrap();
    RedisSessionStore::from_pool(pool, prefix.map(|p| p.to_string()))
}

#[test]
fn creating_a_new_session_with_no_expiry() {
    let store = test_store(Some("async-session-test/"));
    let mut b = MemoryBackend::new();
    let now: u64 = 1_000;
    let mut session = Session::generate();
    session.insert("key", "Hello");

    let cloned = session.clone();
    let cookie_value = store.store_session(&mut b, now, session).unwrap().unwrap();
    let loaded_session = store.load_session(&b, now, cookie_value).unwrap().unwrap();

    assert_eq!(cloned.id(), loaded_session.id());
    assert_eq!("Hello", loaded_session.get("key").unwrap().as_str());
    assert!(!loaded_session.is_expired(now));
    assert!(loaded_session.validate(now).is_some());
}

#[test]
fn updating_a_session() {
    let store = test_store(Some("async-session-test/"));
    let mut b = MemoryBackend::new();
    let now: u64 = 1_000;
    let mut session = Session::generate();

    session.insert("key", "value");
    let cookie_value = store.store_session(&mut b, now, session).unwrap().unwrap();
    let mut session = store.load_session(&b, now, cookie_value.clone()).unwrap().unwrap();

    session.insert("key", "other value");
    assert_eq!(None, store.store_session(&mut b, now, session).unwrap());
    let session = store.load_session(&b, now, cookie_value.clone()).unwrap().unwrap();

    assert_eq!(session.get("key").unwrap().as_str(), "other value");
    assert_eq!(1, store.count(&b, now).unwrap());
}

#[test]
fn updating_a_session_extending_expiry() {
    let store = test_store(Some("async-session-test/"));
    let mut b = MemoryBackend::new();
    let now: u64 = 1_000;
    let mut session = Session::generate();
    session.expire_in(now, 5);
    let original_expires = session.expiry().unwrap();
    let cookie_value = store.store_session(&mut b, now, session).unwrap().unwrap();

    let mut session = store.load_session(&b, now, cookie_value.clone()).unwrap().unwrap();
    let ttl = b
        .ttl_remaining(store.prefix_key(session.id()).as_str(), now)
        .unwrap();
    assert!(ttl > 3 && ttl <= 5);

    assert_eq!(session.expiry().unwrap(), original_expires);
    session.expire_in(now, 10);
    let new_expires = session.expiry().unwrap();
    store.store_session(&mut b, now, session).unwrap();

    let session = store.load_session(&b, now, cookie_value.clone()).unwrap().unwrap();
    let ttl = b
        .ttl_remaining(store.prefix_key(session.id()).as_str(), now)
        .unwrap();
    assert!(ttl > 8 && ttl <= 10);
    assert_eq!(session.expiry().unwrap(), new_expires);

    assert_eq!(1, store.count(&b, now).unwrap());
    let later: u64 = now + 10;
    assert_eq!(0, store.count(&b, later).unwrap());
}

#[test]
fn creating_a_new_session_with_expiry() {
    let store = test_store(Some("async-session-test/"));
    let mut b = MemoryBackend::new();
    let now: u64 = 1_000;
    let mut session = Session::generate();
    session.expire_in(now, 3);
    session.insert("key", "value");
    let cloned = session.clone();

    let cookie_value = store.store_session(&mut b, now, session).unwrap().unwrap();

    let ttl = b
        .ttl_remaining(store.prefix_key(cloned.id()).as_str(), now)
        .unwrap();
    assert!(ttl > 1);

    let loaded_session = store.load_session(&b, now, cookie_value.clone()).unwrap().unwrap();
    assert_eq!(cloned.id(), loaded_session.id());
    assert_eq!("value", loaded_session.get("key").unwrap().as_str());

    assert!(!loaded_session.is_expired(now));

    let later: u64 = now + 3;
    assert!(store.load_session(&b, later, cookie_value).unwrap().is_none());
}

#[test]
fn destroying_a_single_session() {
    let store = test_store(Some("async-session-test/"));
    let mut b = MemoryBackend::new();
    let now: u64 = 1_000;
    for _ in 0..3 {
        store.store_session(&mut b, now, Session::generate()).unwrap();
    }

    let cookie = store.store_session(&mut b, now, Session::generate()).unwrap().unwrap();
    assert_eq!(4, store.count(&b, now).unwrap());
    let session = store.load_session(&b, now, cookie.clone()).unwrap().unwrap();
    store.destroy_session(&mut b, session.clone()).unwrap();
    assert!(store.load_session(&b, now, cookie).unwrap().is_none());
    assert_eq!(3, store.count(&b, now).unwrap());

    // attempting to destroy the session again is not an error
    assert!(store.destroy_session(&mut b, session).is_ok());
}

#[test]
fn clearing_the_whole_store() {
    let store = test_store(Some("async-session-test/"));
    let mut b = MemoryBackend::new();
    let now: u64 = 1_000;
    for _ in 0..3 {
        store.store_session(&mut b, now, Session::generate()).unwrap();
    }

    assert_eq!(3, store.count(&b, now).unwrap());
    store.clear_store(&mut b, now).unwrap();
    assert_eq!(0, store.count(&b, now).unwrap());
}

#[test]
fn counting_and_destroying_three_sessions() {
    let store = test_store(None);
    let mut b = MemoryBackend::new();
    let now: u64 = 50;
    let mut cookies: Vec<String> = Vec::new();
    for _ in 0..3 {
        let cookie = store.store_session(&mut b, now, Session::generate()).unwrap().unwrap();
        cookies.push(cookie);
    }
    assert_eq!(3, store.count(&b, now).unwrap());

    let doomed = store.load_session(&b, now, cookies[0].clone()).unwrap().unwrap();
    store.destroy_session(&mut b, doomed).unwrap();
    assert_eq!(2, store.count(&b, now).unwrap());
    assert!(store.load_session(&b, now, cookies[0].clone()).unwrap().is_none());
}

#[test]
fn prefixed_session_expires_on_schedule() {
    let store = test_store(Some("ns/"));
    let mut b = MemoryBackend::new();
    let now: u64 = 7_000;
    let mut session = Session::generate();
    session.expire_in(now, 3);
    let cookie = store.store_session(&mut b, now, session).unwrap().unwrap();

    let mid: u64 = now + 2;
    assert!(store.load_session(&b, mid, cookie.clone()).unwrap().is_some());

    let later: u64 = now + 4;
    assert!(store.load_session(&b, later, cookie).unwrap().is_none());
    assert_eq!(0, store.count(&b, later).unwrap());
}

#[test]
fn unprefixed_clear_wipes_foreign_keys() {
    let store = test_store(None);
    let mut b = MemoryBackend::new();
    let now: u64 = 10;
    b.set("unrelated".to_string(), "data".to_string(), None, now);
    store.store_session(&mut b, now, Session::generate()).unwrap();
    assert_eq!(2, store.count(&b, now).unwrap());

    store.clear_store(&mut b, now).unwrap();
    assert_eq!(0, store.count(&b, now).unwrap());
    assert_eq!(None, b.get("unrelated", now));
}

#[test]
fn prefixed_clear_leaves_foreign_keys() {
    let store = test_store(Some("a/"));
    let mut b = MemoryBackend::new();
    let now: u64 = 10;
    b.set("b/other".to_string(), "data".to_string(), None, now);
    store.store_session(&mut b, now, Session::generate()).unwrap();

    store.clear_store(&mut b, now).unwrap();
    assert_eq!(0, store.count(&b, now).unwrap());
    assert!(b.get("b/other", now).is_some());
}

#[test]
fn two_prefixes_do_not_collide() {
    let left = test_store(Some("left/"));
    let right = test_store(Some("right/"));
    let mut b = MemoryBackend::new();
    let now: u64 = 10;
    left.store_session(&mut b, now, Session::generate()).unwrap();
    left.store_session(&mut b, now, Session::generate()).unwrap();
    right.store_session(&mut b, now, Session::generate()).unwrap();

    assert_eq!(2, left.count(&b, now).unwrap());
    assert_eq!(1, right.count(&b, now).unwrap());

    left.clear_store(&mut b, now).unwrap();
    assert_eq!(0, left.count(&b, now).unwrap());
    assert_eq!(1, right.count(&b, now).unwrap());
}
