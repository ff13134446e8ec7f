use async_redis_session::backend::MemoryBackend;
use async_redis_session::codec::{parse_session, serialize_session};
use async_redis_session::cookie::session_id_for_cookie;
use async_redis_session::digits::fmt_u64;
use async_redis_session::session::Session;
use async_redis_session::store::RedisSessionStore;
use async_redis_session::StoreError;
use fred::pool::RedisPool;
use fred::types::RedisConfig;

fn test_store(prefix: Option<&str>) -> RedisSessionStore {
    let pool = RedisPool::new(RedisConfig::default(), None, None, 6).unwrap();
    RedisSessionStore::from_pool(pool, prefix.map(|p| p.to_string()))
}

#[test]
fn decimal_rendering_is_exact() {
    assert_eq!("0", fmt_u64(0).as_str());
    assert_eq!("905", fmt_u64(905).as_str());
    assert_eq!("18446744073709551615", fmt_u64(u64::MAX).as_str());
}

#[test]
fn serialized_form_is_length_prefixed() {
    let data = vec![("k".to_string(), "v".to_string())];
    let s = Session::from_parts("ab".to_string(), Some(7), data);
    assert_eq!("2:ab1:71:k1:v", serialize_session(&s).as_str());
}

#[test]
fn serialized_form_without_expiry_has_empty_field() {
    let s = Session::from_parts("ab".to_string(), None, Vec::new());
    assert_eq!("2:ab0:", serialize_session(&s).as_str());
}

#[test]
fn serialization_round_trips() {
    let data = vec![
        ("alpha".to_string(), "one:two".to_string()),
        ("beta".to_string(), "3:4:5".to_string()),
    ];
    let s = Session::from_parts("some-id".to_string(), Some(123_456), data);
    let wire = serialize_session(&s);
    let back = parse_session(wire.as_str()).unwrap();
    assert_eq!("some-id", back.id());
    assert_eq!(Some(123_456), back.expiry());
    assert_eq!("one:two", back.get("alpha").unwrap().as_str());
    assert_eq!("3:4:5", back.get("beta").unwrap().as_str());
}

#[test]
fn corrupt_values_do_not_parse() {
    assert!(parse_session("").is_none());
    assert!(parse_session("nonsense").is_none());
    assert!(parse_session("2:ab").is_none());
    assert!(parse_session("2:ab1:x").is_none());
    assert!(parse_session("2:ab0:3:k").is_none());
}

#[test]
fn invalid_cookie_is_rejected() {
    let store = test_store(None);
    let b = MemoryBackend::new();
    let now: u64 = 5;
    let r = store.load_session(&b, now, "!!! not base64 !!!".to_string());
    assert_eq!(Err(StoreError::InvalidCookie), r.map(|_| ()));
}

#[test]
fn corrupt_stored_value_is_a_hard_error() {
    let store = test_store(Some("p/"));
    let mut b = MemoryBackend::new();
    let now: u64 = 5;
    let session = Session::generate();
    let id = session.id().to_string();
    let cookie = store.store_session(&mut b, now, session).unwrap().unwrap();
    b.set(store.prefix_key(id.as_str()), "junk".to_string(), None, now);
    let r = store.load_session(&b, now, cookie);
    assert_eq!(Err(StoreError::CorruptSessionData), r.map(|_| ()));
}

#[test]
fn cookie_decodes_to_the_session_id() {
    let session = Session::generate();
    let id = session.id().to_string();
    let cookie = session.into_cookie_value().unwrap();
    assert_ne!(id, cookie);
    assert_eq!(id, session_id_for_cookie(cookie.as_str()).unwrap());
}

#[test]
fn prefix_key_prepends_the_namespace() {
    let prefixed = test_store(Some("p/"));
    let bare = test_store(None);
    assert_eq!("p/id", prefixed.prefix_key("id").as_str());
    assert_eq!("id", bare.prefix_key("id").as_str());
}

#[test]
fn insert_replaces_and_get_reads_back() {
    let mut s = Session::generate();
    s.insert("a", "1");
    s.insert("b", "2");
    s.insert("a", "3");
    assert_eq!("3", s.get("a").unwrap().as_str());
    assert_eq!("2", s.get("b").unwrap().as_str());
    assert!(s.get("c").is_none());
}

#[test]
fn backend_ttl_is_exact_and_replaced() {
    let mut b = MemoryBackend::new();
    let now: u64 = 100;
    b.set("k".to_string(), "v".to_string(), Some(30), now);
    assert_eq!(Some(30), b.ttl_remaining("k", now));
    assert_eq!(Some(10), b.ttl_remaining("k", now + 20));
    b.set("k".to_string(), "v".to_string(), Some(7), now);
    assert_eq!(Some(7), b.ttl_remaining("k", now));
    assert_eq!(None, b.ttl_remaining("k", now + 7));
}
