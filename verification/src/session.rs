//! The session entity as this store sees it: an identifier, a mapping of
//! named values, an optional expiration instant, and the client-facing
//! cookie value. Instants are unix timestamps in whole seconds, supplied
//! explicitly by the caller: nothing here reads a clock.
use vstd::prelude::*;

verus! {

/// Mathematical model of a session.
pub ghost struct SessionView {
    pub id: Seq<char>,
    /// Unix timestamp (seconds) at which the session expires, if any.
    pub expiry: Option<u64>,
    /// Named values, in insertion order.
    pub data: Seq<(Seq<char>, Seq<char>)>,
    /// Cookie value still to be handed to the client, if any.
    pub cookie_value: Option<Seq<char>>,
}

impl SessionView {
    /// The value stored under `key`, if any (keys are unique in a
    /// well-formed session, so the first match is the match).
    pub open spec fn data_value(self, key: Seq<char>) -> Option<Seq<char>> {
        Self::lookup(self.data, key)
    }

    pub open spec fn lookup(d: Seq<(Seq<char>, Seq<char>)>, key: Seq<char>) -> Option<Seq<char>>
        decreases d.len(),
    {
        if d.len() == 0 {
            None
        } else if d.first().0 == key {
            Some(d.first().1)
        } else {
            Self::lookup(d.drop_first(), key)
        }
    }

    /// Data keys are pairwise distinct.
    pub open spec fn wf(self) -> bool {
        forall|i: int, j: int|
            0 <= i < j < self.data.len() ==> (#[trigger] self.data[i]).0 != (
            #[trigger] self.data[j]).0
    }

    /// The same session with no pending cookie value: what a stored value
    /// reconstructs to.
    pub open spec fn without_cookie(self) -> SessionView {
        SessionView { cookie_value: None, ..self }
    }

    /// Whether the session is past its expiry at instant `now`.
    pub open spec fn is_expired_at(self, now: u64) -> bool {
        match self.expiry {
            Some(e) => e <= now,
            None => false,
        }
    }

    /// Remaining lifetime at instant `now`: what the store hands the
    /// backend as the key's time-to-live.
    pub open spec fn expires_in_at(self, now: u64) -> Option<u64> {
        match self.expiry {
            Some(e) => if now < e {
                Some((e - now) as u64)
            } else {
                None
            },
            None => None,
        }
    }
}

/// A session record.
#[derive(Clone)]
pub struct Session {
    id: String,
    expiry: Option<u64>,
    data: Vec<(String, String)>,
    cookie_value: Option<String>,
}

impl View for Session {
    type V = SessionView;

    closed spec fn view(&self) -> SessionView {
        SessionView {
            id: self.id@,
            expiry: self.expiry,
            data: Seq::new(self.data@.len(), |i: int| (self.data@[i].0@, self.data@[i].1@)),
            cookie_value: match self.cookie_value {
                Some(c) => Some(c@),
                None => None,
            },
        }
    }
}

impl Session {
    /// Builds a session from its parts. The cookie value of a rebuilt
    /// session is absent: a cookie is only issued where the identifier is
    /// newly generated.
    pub fn from_parts(id: String, expiry: Option<u64>, data: Vec<(String, String)>) -> (s:
        Session)
        ensures
            s@.id == id@,
            s@.expiry == expiry,
            s@.data.len() == data@.len(),
            forall|i: int|
                0 <= i < data@.len() ==> #[trigger] s@.data[i] == (data@[i].0@, data@[i].1@),
            s@.cookie_value is None,
    {
        Session { id, expiry, data, cookie_value: None }
    }

    /// A fresh session: a newly drawn identifier with its matching cookie
    /// value, no data, no expiry.
    pub fn generate() -> (s: Session)
        ensures
            s@.wf(),
            s@.data.len() == 0,
            s@.expiry is None,
            s@.cookie_value matches Some(c) && crate::cookie::cookie_session_id(c) == Some(s@.id),
    {
        let tokens = crate::cookie::generate_tokens();
        let s = Session { id: tokens.0, expiry: None, data: Vec::new(), cookie_value: Some(
            tokens.1,
        ) };
        proof {
            assert(s@.data =~= Seq::<(Seq<char>, Seq<char>)>::empty());
        }
        s
    }

    /// The session identifier.
    pub fn id(&self) -> (r: &str)
        ensures
            r@ == self@.id,
    {
        self.id.as_str()
    }

    /// The expiry instant, if one is set.
    pub fn expiry(&self) -> (r: Option<u64>)
        ensures
            r == self@.expiry,
    {
        self.expiry
    }

    /// Sets the session to expire `secs` seconds after `now`, replacing any
    /// earlier expiry.
    pub fn expire_in(&mut self, now: u64, secs: u64)
        requires
            now + secs <= u64::MAX,
        ensures
            final(self)@ == (SessionView { expiry: Some((now + secs) as u64), ..old(self)@ }),
    {
        self.expiry = Some(now + secs);
    }

    /// Whether the session is past its expiry at instant `now`.
    pub fn is_expired(&self, now: u64) -> (r: bool)
        ensures
            r == self@.is_expired_at(now),
    {
        match self.expiry {
            Some(e) => e <= now,
            None => false,
        }
    }

    /// Remaining lifetime at instant `now`, if the session expires and has
    /// not yet done so.
    pub fn expires_in(&self, now: u64) -> (r: Option<u64>)
        ensures
            r == self@.expires_in_at(now),
    {
        match self.expiry {
            Some(e) => if now < e {
                Some(e - now)
            } else {
                None
            },
            None => None,
        }
    }

    /// The session if it has not expired at `now`, else nothing.
    pub fn validate(self, now: u64) -> (r: Option<Session>)
        ensures
            match r {
                Some(s) => !self@.is_expired_at(now) && s@ == self@,
                None => self@.is_expired_at(now),
            },
    {
        match self.expiry {
            Some(e) => if e <= now {
                None
            } else {
                Some(self)
            },
            None => Some(self),
        }
    }

    /// Hands out the cookie value, consuming the session. Absent where the
    /// session was rebuilt from a stored value rather than newly generated.
    pub fn into_cookie_value(self) -> (r: Option<String>)
        ensures
            match (r, self@.cookie_value) {
                (Some(c), Some(v)) => c@ == v,
                (None, None) => true,
                _ => false,
            },
    {
        self.cookie_value
    }

    /// Stores `value` under `key`, replacing any earlier value for the same
    /// key and keeping every other entry.
    pub fn insert(&mut self, key: &str, value: &str)
        requires
            old(self)@.wf(),
        ensures
            final(self)@.wf(),
            final(self)@.id == old(self)@.id,
            final(self)@.expiry == old(self)@.expiry,
            final(self)@.cookie_value == old(self)@.cookie_value,
            forall|k: Seq<char>|
                #[trigger] final(self)@.data_value(k) == if k == key@ {
                    Some(value@)
                } else {
                    old(self)@.data_value(k)
                },
    {
        let ghost pre = self@;
        let mut i: usize = 0;
        while i < self.data.len()
            invariant
                i <= self.data.len(),
                self@ == pre,
                pre == old(self)@,
                pre.wf(),
                forall|j: int| 0 <= j < i ==> (#[trigger] pre.data[j]).0 != key@,
            decreases self.data.len() - i,
        {
            let hit = equal_str(self.data[i].0.as_str(), key);
            if hit {
                let pair = (key.to_owned(), value.to_owned());
                self.data.set(i, pair);
                proof {
                    assert(self@.data =~= pre.data.update(i as int, (key@, value@)));
                    lemma_lookup_update(pre.data, i as int, key@, value@);
                    assert(self@.id == pre.id);
                    assert(self@.expiry == pre.expiry);
                    assert(self@.cookie_value == pre.cookie_value);
                    assert forall|p: int, q: int|
                        0 <= p < q < self@.data.len() implies (#[trigger] self@.data[p]).0 != (
                    #[trigger] self@.data[q]).0 by {
                        assert(pre.data[i as int].0 == key@);
                        assert(pre.data[p].0 != pre.data[q].0);
                    }
                    assert(self@.wf());
                }
                return ;
            }
            i += 1;
        }
        let pair = (key.to_owned(), value.to_owned());
        self.data.push(pair);
        proof {
            assert(self@.data =~= pre.data.push((key@, value@)));
            lemma_lookup_push_fresh(pre.data, key@, value@);
        }
    }

    /// The data entries, in insertion order.
    pub fn data_entries(&self) -> (r: &Vec<(String, String)>)
        ensures
            r@.len() == self@.data.len(),
            forall|i: int|
                0 <= i < r@.len() ==> #[trigger] self@.data[i] == (r@[i].0@, r@[i].1@),
    {
        &self.data
    }

    /// The value stored under `key`, if any.
    pub fn get(&self, key: &str) -> (r: Option<&String>)
        ensures
            match r {
                Some(v) => self@.data_value(key@) == Some(v@),
                None => self@.data_value(key@) is None,
            },
    {
        let mut i: usize = 0;
        proof {
            assert(self@.data.skip(0) =~= self@.data);
            assert(SessionView::lookup(self@.data.skip(0), key@) == SessionView::lookup(
                self@.data,
                key@,
            ));
        }
        while i < self.data.len()
            invariant
                i <= self.data.len(),
                SessionView::lookup(self@.data.skip(i as int), key@) == SessionView::lookup(
                    self@.data,
                    key@,
                ),
            decreases self.data.len() - i,
        {
            let hit = equal_str(self.data[i].0.as_str(), key);
            proof {
                assert(self@.data.skip(i as int).first() == self@.data[i as int]);
                assert(self@.data.skip(i as int).drop_first() =~= self@.data.skip(i + 1));
                assert(SessionView::lookup(self@.data.skip(i as int).drop_first(), key@)
                    == SessionView::lookup(self@.data.skip(i + 1), key@));
            }
            if hit {
                return Some(&self.data[i].1);
            }
            i += 1;
        }
        proof {
            assert(self@.data.skip(self.data@.len() as int).len() == 0);
        }
        None
    }
}

/// Whether two string slices hold the same characters.
pub fn equal_str(a: &str, b: &str) -> (r: bool)
    ensures
        r <==> a@ == b@,
{
    let x: String = a.to_owned();
    let y: String = b.to_owned();
    x.eq(&y)
}

proof fn lemma_lookup_update(d: Seq<(Seq<char>, Seq<char>)>, i: int, key: Seq<char>, value: Seq<
    char,
>)
    requires
        0 <= i < d.len(),
        d[i].0 == key,
        forall|p: int, q: int| 0 <= p < q < d.len() ==> (#[trigger] d[p]).0 != (#[trigger] d[q]).0,
        forall|j: int| 0 <= j < i ==> (#[trigger] d[j]).0 != key,
    ensures
        forall|k: Seq<char>|
            #[trigger] SessionView::lookup(d.update(i, (key, value)), k) == if k == key {
                Some(value)
            } else {
                SessionView::lookup(d, k)
            },
    decreases d.len(),
{
    let du = d.update(i, (key, value));
    if i == 0 {
        assert forall|k: Seq<char>|
            #[trigger] SessionView::lookup(du, k) == if k == key {
                Some(value)
            } else {
                SessionView::lookup(d, k)
            } by {
            assert(du.first() == (key, value));
            if k == key {
            } else {
                assert(du.drop_first() =~= d.drop_first());
                assert(SessionView::lookup(du.drop_first(), k) == SessionView::lookup(
                    d.drop_first(),
                    k,
                ));
            }
        }
    } else {
        let dt = d.drop_first();
        assert(forall|p: int, q: int|
            0 <= p < q < dt.len() ==> (#[trigger] dt[p]).0 != (#[trigger] dt[q]).0);
        lemma_lookup_update(dt, i - 1, key, value);
        assert forall|k: Seq<char>|
            #[trigger] SessionView::lookup(du, k) == if k == key {
                Some(value)
            } else {
                SessionView::lookup(d, k)
            } by {
            assert(du.first() == d.first());
            assert(du.drop_first() =~= dt.update(i - 1, (key, value)));
            assert(SessionView::lookup(du.drop_first(), k) == SessionView::lookup(
                dt.update(i - 1, (key, value)),
                k,
            ));
            if k == key {
                assert(d.first().0 != key);
            }
        }
    }
}

proof fn lemma_lookup_push_fresh(d: Seq<(Seq<char>, Seq<char>)>, key: Seq<char>, value: Seq<char>)
    requires
        forall|j: int| 0 <= j < d.len() ==> (#[trigger] d[j]).0 != key,
    ensures
        forall|k: Seq<char>|
            #[trigger] SessionView::lookup(d.push((key, value)), k) == if k == key {
                Some(value)
            } else {
                SessionView::lookup(d, k)
            },
    decreases d.len(),
{
    let dp = d.push((key, value));
    if d.len() == 0 {
        assert forall|k: Seq<char>|
            #[trigger] SessionView::lookup(dp, k) == if k == key {
                Some(value)
            } else {
                SessionView::lookup(d, k)
            } by {
            assert(dp.first() == (key, value));
            assert(dp.drop_first() =~= Seq::<(Seq<char>, Seq<char>)>::empty());
            assert(SessionView::lookup(dp.drop_first(), k) == None::<Seq<char>>);
            assert(SessionView::lookup(d, k) == None::<Seq<char>>);
        }
    } else {
        lemma_lookup_push_fresh(d.drop_first(), key, value);
        assert forall|k: Seq<char>|
            #[trigger] SessionView::lookup(dp, k) == if k == key {
                Some(value)
            } else {
                SessionView::lookup(d, k)
            } by {
            assert(dp.first() == d.first());
            assert(dp.drop_first() =~= d.drop_first().push((key, value)));
            assert(SessionView::lookup(dp.drop_first(), k) == SessionView::lookup(
                d.drop_first().push((key, value)),
                k,
            ));
        }
    }
}

} // verus!
