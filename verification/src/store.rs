//! The session store adapter: how a session maps to a backend key and
//! value, how its expiration becomes a backend time-to-live, and how the
//! optional key prefix scopes the whole-store operations. The adapter's
//! behaviour is stated and proved against the backend model of
//! `crate::backend`; a deployment drives a networked client with the same
//! logic, handing each operation the current unix time.
use crate::backend::{backend_wf, entry_live, find_entry, key_matches, lemma_find_entry_contains,
    lemma_mk_empty, lemma_mk_members, lemma_remove_key, lemma_remove_key_absent, live_count,
    live_value, matching_live_keys, remove_key, str_views, ttl_of, EntryV, MemoryBackend};
use crate::codec::{encode, lemma_codec_roundtrip, parse_session, parse_session_chars,
    serialize_session};
use crate::cookie::{cookie_session_id, session_id_for_cookie};
use crate::session::{Session, SessionView};
use crate::StoreError;
use vstd::prelude::*;

verus! {

/// fred's pooled client handle, held for the caller that drives the real
/// backend. Opaque here: every command through it is asynchronous network
/// I/O, which is driven outside this library.
#[verifier::external_type_specification]
#[verifier::external_body]
pub struct ExRedisPool(fred::pool::RedisPool);

/// The physical backend key for a session identifier.
pub open spec fn physical_key(prefix: Option<Seq<char>>, id: Seq<char>) -> Seq<char> {
    match prefix {
        None => id,
        Some(p) => p + id,
    }
}

/// The deadline a store at instant `now` installs for a session.
pub open spec fn stored_deadline(s: SessionView, now: u64) -> Option<u64> {
    match s.expires_in_at(now) {
        Some(t) => Some((now + t) as u64),
        None => None,
    }
}

/// The backend after a session is stored at instant `now`: the session's
/// physical key overwritten with its serialized state, and the backend
/// deadline set from the same expiry the serialized state carries.
pub open spec fn store_effect(
    prefix: Option<Seq<char>>,
    b: Seq<EntryV>,
    now: u64,
    s: SessionView,
) -> Seq<EntryV> {
    remove_key(b, physical_key(prefix, s.id)).push(
        EntryV {
            key: physical_key(prefix, s.id),
            value: encode(s),
            deadline: stored_deadline(s, now),
        },
    )
}

/// What a load under `cookie` yields at instant `now`: an undecodable
/// cookie is rejected, an absent or expired key is a normal absence, and
/// a present value that does not parse is corrupt, never absent.
pub open spec fn load_result(
    prefix: Option<Seq<char>>,
    b: Seq<EntryV>,
    now: u64,
    cookie: Seq<char>,
) -> Result<Option<SessionView>, StoreError> {
    match cookie_session_id(cookie) {
        None => Err(StoreError::InvalidCookie),
        Some(id) => match live_value(b, physical_key(prefix, id), now) {
            None => Ok(None),
            Some(v) => match parse_session_chars(v) {
                None => Err(StoreError::CorruptSessionData),
                Some(s) => Ok(Some(s)),
            },
        },
    }
}

/// What `count` reports at instant `now`: the whole-namespace size with
/// no prefix, else the number of live keys under the prefix.
pub open spec fn count_spec(prefix: Option<Seq<char>>, b: Seq<EntryV>, now: u64) -> nat {
    match prefix {
        None => live_count(b, now),
        Some(p) => matching_live_keys(b, p, now).len(),
    }
}

/// The session store: a pooled backend handle and an immutable optional
/// key prefix. The adapter itself holds no other state.
pub struct RedisSessionStore {
    pool: fred::pool::RedisPool,
    prefix: Option<String>,
}

impl RedisSessionStore {
    /// The configured prefix.
    pub closed spec fn prefix_view(&self) -> Option<Seq<char>> {
        match self.prefix {
            Some(p) => Some(p@),
            None => None,
        }
    }

    /// The stem every scanned key must begin with: the prefix, or nothing.
    pub open spec fn scan_stem(&self) -> Seq<char> {
        match self.prefix_view() {
            Some(p) => p,
            None => Seq::empty(),
        }
    }

    /// Builds a store over a pooled backend handle with an optional key
    /// prefix, fixed for the store's lifetime.
    pub fn from_pool(pool: fred::pool::RedisPool, prefix: Option<String>) -> (r: Self)
        ensures
            r.prefix_view() == match prefix {
                Some(p) => Some(p@),
                None => None::<Seq<char>>,
            },
    {
        Self { pool, prefix }
    }

    /// The configured prefix, for callers and diagnostics.
    pub fn prefix(&self) -> (r: Option<&String>)
        ensures
            match (r, self.prefix_view()) {
                (Some(p), Some(v)) => p@ == v,
                (None, None) => true,
                _ => false,
            },
    {
        self.prefix.as_ref()
    }

    /// The pooled handle, for the caller that drives the real backend.
    pub fn pool(&self) -> &fred::pool::RedisPool {
        &self.pool
    }

    /// The physical key for `key` under this store's prefix.
    pub fn prefix_key(&self, key: &str) -> (r: String)
        ensures
            r@ == physical_key(self.prefix_view(), key@),
    {
        match &self.prefix {
            None => key.to_owned(),
            Some(p) => {
                let mut s = p.clone();
                s.append(key);
                s
            },
        }
    }

    /// The enumeration engine: drives the backend's paginated key scan to
    /// completion and accumulates every matched key, or reports absence
    /// where nothing matched. The result is a non-atomic snapshot: it is
    /// exact against the model, while a shared live backend may change
    /// between pages. Identifiers are taken as opaque tokens: a live
    /// scan's pattern is the prefix followed by a wildcard, with no
    /// escaping of pattern metacharacters inside identifiers.
    pub fn ids(&self, b: &MemoryBackend, now: u64) -> (r: Option<Vec<String>>)
        ensures
            match r {
                Some(v) => str_views(v@) == matching_live_keys(b@, self.scan_stem(), now)
                    && v@.len() > 0,
                None => matching_live_keys(b@, self.scan_stem(), now).len() == 0,
            },
    {
        let stem: &str = match &self.prefix {
            None => "",
            Some(p) => p.as_str(),
        };
        proof {
            reveal_strlit("");
            assert(stem@ == self.scan_stem());
        }
        let total = b.entry_span();
        let mut acc: Vec<String> = Vec::new();
        let mut cursor: usize = 0;
        let mut done = false;
        proof {
            assert(str_views(acc@) =~= Seq::<Seq<char>>::empty());
            assert(b@.take(0) =~= Seq::<EntryV>::empty());
        }
        while !done
            invariant
                cursor <= b@.len(),
                total == b@.len(),
                stem@ == self.scan_stem(),
                done ==> cursor == b@.len(),
                str_views(acc@) == matching_live_keys(b@.take(cursor as int), stem@, now),
            decreases b@.len() - cursor + if done {
                0int
            } else {
                1int
            },
        {
            let page = b.scan_page(cursor, 16, stem, now);
            let mut keys = page.0;
            let ghost accv = str_views(acc@);
            let ghost pagev = str_views(keys@);
            acc.append(&mut keys);
            proof {
                assert(str_views(acc@) =~= accv + pagev);
            }
            cursor = page.1;
            done = page.2;
        }
        proof {
            assert(b@.take(b@.len() as int) =~= b@);
        }
        if acc.len() == 0 {
            proof {
                assert(matching_live_keys(b@, self.scan_stem(), now).len() == str_views(
                    acc@,
                ).len());
            }
            None
        } else {
            Some(acc)
        }
    }

    /// Loads the session a cookie value refers to: absent where the key
    /// is missing or expired, `InvalidCookie` where the cookie does not
    /// decode, `CorruptSessionData` where a present value does not parse.
    pub fn load_session(&self, b: &MemoryBackend, now: u64, cookie_value: String) -> (r: Result<
        Option<Session>,
        StoreError,
    >)
        ensures
            match (r, load_result(self.prefix_view(), b@, now, cookie_value@)) {
                (Ok(Some(s)), Ok(Some(v))) => s@ == v,
                (Ok(None), Ok(None)) => true,
                (Err(e1), Err(e2)) => e1 == e2,
                _ => false,
            },
    {
        let id = match session_id_for_cookie(cookie_value.as_str()) {
            Ok(id) => id,
            Err(e) => {
                return Err(e);
            },
        };
        let key = self.prefix_key(id.as_str());
        match b.get(key.as_str(), now) {
            None => Ok(None),
            Some(v) => match parse_session(v.as_str()) {
                Some(s) => Ok(Some(s)),
                None => Err(StoreError::CorruptSessionData),
            },
        }
    }

    /// Stores a session: unconditional overwrite of its physical key with
    /// the serialized state, the backend deadline set from the session's
    /// own expiry. Returns the cookie value the session still carries, if
    /// any.
    pub fn store_session(&self, b: &mut MemoryBackend, now: u64, session: Session) -> (r: Result<
        Option<String>,
        StoreError,
    >)
        requires
            backend_wf(old(b)@),
        ensures
            final(b)@ == store_effect(self.prefix_view(), old(b)@, now, session@),
            backend_wf(final(b)@),
            match r {
                Ok(c) => match (c, session@.cookie_value) {
                    (Some(cs), Some(cv)) => cs@ == cv,
                    (None, None) => true,
                    _ => false,
                },
                Err(_) => false,
            },
    {
        let key = self.prefix_key(session.id());
        let value = serialize_session(&session);
        let ttl = session.expires_in(now);
        proof {
            if session@.expires_in_at(now) is Some {
                assert(now + session@.expires_in_at(now)->Some_0 <= u64::MAX);
            }
        }
        b.set(key, value, ttl, now);
        proof {
            assert(final(b)@ =~= store_effect(self.prefix_view(), old(b)@, now, session@));
        }
        Ok(session.into_cookie_value())
    }

    /// Deletes the session's physical key. Always succeeds: deleting an
    /// absent key is success, which is what makes destroy idempotent.
    pub fn destroy_session(&self, b: &mut MemoryBackend, session: Session) -> (r: Result<
        (),
        StoreError,
    >)
        requires
            backend_wf(old(b)@),
        ensures
            final(b)@ == remove_key(old(b)@, physical_key(self.prefix_view(), session@.id)),
            backend_wf(final(b)@),
            r is Ok,
    {
        let key = self.prefix_key(session.id());
        b.del(key.as_str());
        Ok(())
    }

    /// Clears the store. With no prefix this flushes the backend's whole
    /// keyspace — every key, not only session keys. With a prefix it
    /// enumerates the namespace and deletes exactly the matched set,
    /// leaving every key outside the scanned set untouched.
    pub fn clear_store(&self, b: &mut MemoryBackend, now: u64) -> (r: Result<(), StoreError>)
        requires
            backend_wf(old(b)@),
        ensures
            r is Ok,
            backend_wf(final(b)@),
            self.prefix_view() is None ==> final(b)@ == Seq::<EntryV>::empty(),
            self.prefix_view() matches Some(p) ==> {
                &&& forall|i: int|
                    0 <= i < final(b)@.len() ==> !(key_matches(
                        (#[trigger] final(b)@[i]).key,
                        p,
                    ) && entry_live(final(b)@[i], now))
                &&& forall|k: Seq<char>|
                    !matching_live_keys(old(b)@, p, now).contains(k)
                        ==> #[trigger] find_entry(final(b)@, k) == find_entry(old(b)@, k)
            },
    {
        let prefixed = match &self.prefix {
            None => false,
            Some(_) => true,
        };
        if !prefixed {
            b.flushall();
            return Ok(());
        }
        let ghost p = self.prefix_view()->Some_0;
        match self.ids(b, now) {
            None => {
                proof {
                    lemma_mk_empty_rev(b@, p, now);
                }
                Ok(())
            },
            Some(keys) => {
                b.del_many(&keys);
                proof {
                    let pre = old(b)@;
                    let post = final(b)@;
                    lemma_mk_members(pre, p, now);
                    assert forall|i: int| 0 <= i < post.len() implies !(key_matches(
                        (#[trigger] post[i]).key,
                        p,
                    ) && entry_live(post[i], now)) by {
                        if key_matches(post[i].key, p) && entry_live(post[i], now) {
                            assert(pre.contains(post[i]));
                            let m = choose|m: int| 0 <= m < pre.len() && pre[m] == post[i];
                            lemma_mk_has_member(pre, p, now, m);
                            assert(str_views(keys@).contains(post[i].key));
                        }
                    }
                }
                Ok(())
            },
        }
    }

    /// How many sessions this store sees at instant `now`: the backend's
    /// whole-namespace key count with no prefix (which may include keys
    /// that are not sessions), else the number of live keys under the
    /// prefix, scan-based and non-atomic.
    pub fn count(&self, b: &MemoryBackend, now: u64) -> (r: Result<usize, StoreError>)
        ensures
            r is Ok,
            r->Ok_0 == count_spec(self.prefix_view(), b@, now),
    {
        let prefixed = match &self.prefix {
            None => false,
            Some(_) => true,
        };
        if !prefixed {
            Ok(b.dbsize(now))
        } else {
            match self.ids(b, now) {
                None => Ok(0),
                Some(v) => Ok(v.len()),
            }
        }
    }
}

/// An entry that a live scan of its namespace must report.
proof fn lemma_mk_has_member(s: Seq<EntryV>, stem: Seq<char>, now: u64, i: int)
    requires
        0 <= i < s.len(),
        key_matches(s[i].key, stem),
        entry_live(s[i], now),
    ensures
        matching_live_keys(s, stem, now).contains(s[i].key),
    decreases s.len(),
{
    if i == s.len() - 1 {
        assert(s.last() == s[i]);
        let m = matching_live_keys(s, stem, now);
        let mp = matching_live_keys(s.drop_last(), stem, now);
        assert(m == mp + seq![s[i].key]);
        assert(m[m.len() - 1] == s[i].key);
    } else {
        assert(s.drop_last()[i] == s[i]);
        lemma_mk_has_member(s.drop_last(), stem, now, i);
        let mp = matching_live_keys(s.drop_last(), stem, now);
        let j = choose|j: int| 0 <= j < mp.len() && mp[j] == s[i].key;
        assert(matching_live_keys(s, stem, now)[j] == s[i].key);
    }
}

/// A namespace whose scan reports nothing has no live entry.
proof fn lemma_mk_empty_rev(s: Seq<EntryV>, stem: Seq<char>, now: u64)
    requires
        matching_live_keys(s, stem, now).len() == 0,
    ensures
        forall|i: int|
            0 <= i < s.len() ==> !(key_matches((#[trigger] s[i]).key, stem) && entry_live(
                s[i],
                now,
            )),
{
    assert forall|i: int| 0 <= i < s.len() implies !(key_matches(
        (#[trigger] s[i]).key,
        stem,
    ) && entry_live(s[i], now)) by {
        if key_matches(s[i].key, stem) && entry_live(s[i], now) {
            lemma_mk_has_member(s, stem, now, i);
        }
    }
}

/// After a store, the session's physical key holds exactly the new
/// serialized state with the new deadline, and every other key is
/// untouched.
pub proof fn lemma_store_effect(prefix: Option<Seq<char>>, b: Seq<EntryV>, now: u64, s: SessionView)
    requires
        backend_wf(b),
    ensures
        backend_wf(store_effect(prefix, b, now, s)),
        find_entry(store_effect(prefix, b, now, s), physical_key(prefix, s.id)) == Some(
            EntryV {
                key: physical_key(prefix, s.id),
                value: encode(s),
                deadline: stored_deadline(s, now),
            },
        ),
        forall|k2: Seq<char>|
            k2 != physical_key(prefix, s.id) ==> #[trigger] find_entry(
                store_effect(prefix, b, now, s),
                k2,
            ) == find_entry(b, k2),
{
    let key = physical_key(prefix, s.id);
    let e = EntryV { key, value: encode(s), deadline: stored_deadline(s, now) };
    lemma_remove_key(b, key);
    let rm = remove_key(b, key);
    let b2 = rm.push(e);
    assert(store_effect(prefix, b, now, s) == b2);
    assert forall|i: int, j: int| 0 <= i < j < b2.len() implies (#[trigger] b2[i]).key != (
    #[trigger] b2[j]).key by {
        if j == b2.len() - 1 {
            assert(b2[i] == rm[i]);
            assert(rm[i].key != key);
        } else {
            assert(b2[i] == rm[i]);
            assert(b2[j] == rm[j]);
        }
    }
    lemma_find_entry_push(rm, e);
}

/// Pushing an entry under a fresh key makes it the one found under that
/// key and leaves every other lookup as it was.
proof fn lemma_find_entry_push(s: Seq<EntryV>, e: EntryV)
    requires
        find_entry(s, e.key) is None,
    ensures
        find_entry(s.push(e), e.key) == Some(e),
        forall|k2: Seq<char>|
            k2 != e.key ==> #[trigger] find_entry(s.push(e), k2) == find_entry(s, k2),
    decreases s.len(),
{
    let sp = s.push(e);
    if s.len() == 0 {
        assert(sp.first() == e);
        assert forall|k2: Seq<char>| k2 != e.key implies #[trigger] find_entry(sp, k2)
            == find_entry(s, k2) by {
            assert(sp.drop_first() =~= Seq::<EntryV>::empty());
            assert(find_entry(sp.drop_first(), k2) is None);
        }
    } else {
        assert(sp.first() == s.first());
        assert(sp.drop_first() =~= s.drop_first().push(e));
        assert(find_entry(s, e.key) == find_entry(s.drop_first(), e.key));
        lemma_find_entry_push(s.drop_first(), e);
        assert(find_entry(sp.drop_first(), e.key) == find_entry(s.drop_first().push(e), e.key));
        assert forall|k2: Seq<char>| k2 != e.key implies #[trigger] find_entry(sp, k2)
            == find_entry(s, k2) by {
            if s.first().key != k2 {
                assert(find_entry(sp.drop_first(), k2) == find_entry(
                    s.drop_first().push(e),
                    k2,
                ));
            }
        }
    }
}

/// Storing a session with no expiration and loading it back under its own
/// cookie reconstructs it exactly — same identifier, same data entries
/// (so the same data mapping) — with no pending cookie value, and it is
/// not expired at any later instant.
pub proof fn lemma_store_then_load(
    prefix: Option<Seq<char>>,
    b: Seq<EntryV>,
    now: u64,
    later: u64,
    s: SessionView,
    cookie: Seq<char>,
)
    requires
        backend_wf(b),
        cookie_session_id(cookie) == Some(s.id),
        s.expiry is None,
    ensures
        load_result(prefix, store_effect(prefix, b, now, s), later, cookie) == Ok::<
            Option<SessionView>,
            StoreError,
        >(Some(s.without_cookie())),
        !s.without_cookie().is_expired_at(later),
{
    lemma_store_effect(prefix, b, now, s);
    lemma_codec_roundtrip(s);
    assert(stored_deadline(s, now) is None);
}

/// Immediately after a store of a session that expires in `d` seconds,
/// the backend reports a remaining time-to-live of exactly `d`, which is
/// positive. Applied to a backend that already holds the identifier, it
/// says the new time-to-live replaces the old one.
pub proof fn lemma_store_ttl(prefix: Option<Seq<char>>, b: Seq<EntryV>, now: u64, s: SessionView)
    requires
        backend_wf(b),
        s.expires_in_at(now) is Some,
    ensures
        ttl_of(store_effect(prefix, b, now, s), physical_key(prefix, s.id), now)
            == s.expires_in_at(now),
        s.expires_in_at(now)->Some_0 > 0,
{
    lemma_store_effect(prefix, b, now, s);
}

/// Storing the same identifier twice leaves the time-to-live of the
/// second store, not the first.
pub proof fn lemma_restore_ttl(
    prefix: Option<Seq<char>>,
    b: Seq<EntryV>,
    now1: u64,
    now2: u64,
    s1: SessionView,
    s2: SessionView,
)
    requires
        backend_wf(b),
        s1.id == s2.id,
        s2.expires_in_at(now2) is Some,
    ensures
        ttl_of(
            store_effect(prefix, store_effect(prefix, b, now1, s1), now2, s2),
            physical_key(prefix, s2.id),
            now2,
        ) == s2.expires_in_at(now2),
{
    lemma_store_effect(prefix, b, now1, s1);
    lemma_store_ttl(prefix, store_effect(prefix, b, now1, s1), now2, s2);
}

/// Once a stored session's expiry has elapsed, loading it yields absence
/// and a prefixed scan no longer reports its key.
pub proof fn lemma_expiry_elapsed(
    prefix: Option<Seq<char>>,
    b: Seq<EntryV>,
    now: u64,
    later: u64,
    s: SessionView,
    cookie: Seq<char>,
    stem: Seq<char>,
)
    requires
        backend_wf(b),
        cookie_session_id(cookie) == Some(s.id),
        s.expiry matches Some(e) && now < e && e <= later,
    ensures
        load_result(prefix, store_effect(prefix, b, now, s), later, cookie) == Ok::<
            Option<SessionView>,
            StoreError,
        >(None),
        !matching_live_keys(store_effect(prefix, b, now, s), stem, later).contains(
            physical_key(prefix, s.id),
        ),
{
    let key = physical_key(prefix, s.id);
    let b2 = store_effect(prefix, b, now, s);
    lemma_store_effect(prefix, b, now, s);
    let e = s.expiry->Some_0;
    assert(stored_deadline(s, now) == Some(e));
    assert(!entry_live(find_entry(b2, key)->Some_0, later));
    if matching_live_keys(b2, stem, later).contains(key) {
        lemma_mk_members(b2, stem, later);
        let i = choose|i: int|
            0 <= i < b2.len() && (#[trigger] b2[i]).key == key && key_matches(b2[i].key, stem)
                && entry_live(b2[i], later);
        lemma_find_entry_contains(b2, b2[i]);
    }
}

/// Destroy is idempotent: the second removal of the same key changes
/// nothing, and `destroy_session` succeeds unconditionally either time.
pub proof fn lemma_destroy_idempotent(b: Seq<EntryV>, k: Seq<char>)
    requires
        backend_wf(b),
    ensures
        remove_key(remove_key(b, k), k) == remove_key(b, k),
{
    lemma_remove_key(b, k);
    lemma_remove_key_absent(remove_key(b, k), k);
}

/// After `clear_store`, `count` reports zero, in either prefix mode. The
/// requires-clauses are exactly what `clear_store` ensures of the backend
/// it leaves behind.
pub proof fn lemma_count_after_clear(prefix: Option<Seq<char>>, cleared: Seq<EntryV>, now: u64)
    requires
        match prefix {
            None => cleared == Seq::<EntryV>::empty(),
            Some(p) => forall|i: int|
                0 <= i < cleared.len() ==> !(key_matches((#[trigger] cleared[i]).key, p)
                    && entry_live(cleared[i], now)),
        },
    ensures
        count_spec(prefix, cleared, now) == 0,
{
    match prefix {
        None => {
            assert(live_count(cleared, now) == 0);
        },
        Some(p) => {
            lemma_mk_empty(cleared, p, now);
        },
    }
}

} // verus!
