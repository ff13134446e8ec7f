//! An executable model of the key-value backend the adapter drives: keyed
//! string values, each with an optional expiry deadline, read and written
//! against an explicit clock. It offers exactly the primitives the
//! adapter's wire contract needs — get, set with optional time-to-live,
//! delete, whole-namespace size and flush, and a paginated key scan — and
//! is what the store's laws and tests run against; a live deployment
//! wires the same adapter logic to a networked client instead.
use vstd::prelude::*;

verus! {

/// Model of one stored entry.
pub ghost struct EntryV {
    pub key: Seq<char>,
    pub value: Seq<char>,
    /// Instant at which the entry stops being visible, if any.
    pub deadline: Option<u64>,
}

/// Whether the entry is still visible at instant `now`.
pub open spec fn entry_live(e: EntryV, now: u64) -> bool {
    match e.deadline {
        None => true,
        Some(d) => now < d,
    }
}

/// Entry keys are pairwise distinct.
pub open spec fn backend_wf(s: Seq<EntryV>) -> bool {
    forall|i: int, j: int|
        0 <= i < j < s.len() ==> (#[trigger] s[i]).key != (#[trigger] s[j]).key
}

/// The entry stored under `k`, if any, live or not.
pub open spec fn find_entry(s: Seq<EntryV>, k: Seq<char>) -> Option<EntryV>
    decreases s.len(),
{
    if s.len() == 0 {
        None
    } else if s.first().key == k {
        Some(s.first())
    } else {
        find_entry(s.drop_first(), k)
    }
}

/// The value visible under `k` at instant `now`.
pub open spec fn live_value(s: Seq<EntryV>, k: Seq<char>, now: u64) -> Option<Seq<char>> {
    match find_entry(s, k) {
        Some(e) => if entry_live(e, now) {
            Some(e.value)
        } else {
            None
        },
        None => None,
    }
}

/// The remaining time-to-live of `k` at instant `now`: present only for a
/// live entry that has a deadline.
pub open spec fn ttl_of(s: Seq<EntryV>, k: Seq<char>, now: u64) -> Option<u64> {
    match find_entry(s, k) {
        Some(e) => if entry_live(e, now) {
            match e.deadline {
                Some(d) => Some((d - now) as u64),
                None => None,
            }
        } else {
            None
        },
        None => None,
    }
}

/// The entries with `k` taken out.
pub open spec fn remove_key(s: Seq<EntryV>, k: Seq<char>) -> Seq<EntryV>
    decreases s.len(),
{
    if s.len() == 0 {
        Seq::empty()
    } else {
        let rest = remove_key(s.drop_first(), k);
        if s.first().key == k {
            rest
        } else {
            seq![s.first()] + rest
        }
    }
}

/// How many entries are live at instant `now`.
pub open spec fn live_count(s: Seq<EntryV>, now: u64) -> nat
    decreases s.len(),
{
    if s.len() == 0 {
        0
    } else {
        live_count(s.drop_last(), now) + if entry_live(s.last(), now) {
            1nat
        } else {
            0nat
        }
    }
}

/// Whether `k` falls in the namespace that `stem` scopes.
pub open spec fn key_matches(k: Seq<char>, stem: Seq<char>) -> bool {
    stem.is_prefix_of(k)
}

/// The keys of the entries that are live at `now` and fall in `stem`'s
/// namespace, in storage order.
pub open spec fn matching_live_keys(s: Seq<EntryV>, stem: Seq<char>, now: u64) -> Seq<Seq<char>>
    decreases s.len(),
{
    if s.len() == 0 {
        Seq::empty()
    } else {
        matching_live_keys(s.drop_last(), stem, now) + if key_matches(s.last().key, stem)
            && entry_live(s.last(), now) {
            seq![s.last().key]
        } else {
            Seq::empty()
        }
    }
}

/// The views of a sequence of strings.
pub open spec fn str_views(v: Seq<String>) -> Seq<Seq<char>> {
    Seq::new(v.len(), |i: int| v[i]@)
}

struct StoreEntry {
    key: String,
    value: String,
    deadline: Option<u64>,
}

/// The backend model: a table of entries, keys unique.
pub struct MemoryBackend {
    entries: Vec<StoreEntry>,
}

impl View for MemoryBackend {
    type V = Seq<EntryV>;

    closed spec fn view(&self) -> Seq<EntryV> {
        Seq::new(
            self.entries@.len(),
            |i: int|
                EntryV {
                    key: self.entries@[i].key@,
                    value: self.entries@[i].value@,
                    deadline: self.entries@[i].deadline,
                },
        )
    }
}

impl MemoryBackend {
    /// An empty backend.
    pub fn new() -> (r: MemoryBackend)
        ensures
            r@ == Seq::<EntryV>::empty(),
            backend_wf(r@),
    {
        let r = MemoryBackend { entries: Vec::new() };
        proof {
            assert(r@ =~= Seq::<EntryV>::empty());
        }
        r
    }

    /// How many entries the table holds, live or not: the span a full
    /// scan walks.
    pub fn entry_span(&self) -> (r: usize)
        ensures
            r == self@.len(),
    {
        self.entries.len()
    }

    /// The position of `key`'s entry, and that no earlier entry holds it.
    fn find_index(&self, key: &str) -> (r: Option<usize>)
        ensures
            match r {
                Some(i) => i < self@.len() && self@[i as int].key == key@ && forall|j: int|
                    0 <= j < i ==> (#[trigger] self@[j]).key != key@,
                None => forall|j: int| 0 <= j < self@.len() ==> (#[trigger] self@[j]).key != key@,
            },
    {
        let mut i: usize = 0;
        while i < self.entries.len()
            invariant
                i <= self.entries.len(),
                self@.len() == self.entries@.len(),
                forall|j: int| 0 <= j < i ==> (#[trigger] self@[j]).key != key@,
            decreases self.entries.len() - i,
        {
            let hit = crate::session::equal_str(self.entries[i].key.as_str(), key);
            if hit {
                return Some(i);
            }
            i += 1;
        }
        None
    }

    /// Reads the value visible under `key` at instant `now`.
    pub fn get(&self, key: &str, now: u64) -> (r: Option<String>)
        ensures
            match r {
                Some(v) => live_value(self@, key@, now) == Some(v@),
                None => live_value(self@, key@, now) is None,
            },
    {
        match self.find_index(key) {
            None => {
                proof {
                    lemma_find_entry_none(self@, key@);
                }
                None
            },
            Some(i) => {
                proof {
                    lemma_find_entry_at(self@, key@, i as int);
                }
                let live = match self.entries[i].deadline {
                    Some(d) => now < d,
                    None => true,
                };
                if live {
                    Some(self.entries[i].value.clone())
                } else {
                    None
                }
            },
        }
    }

    /// The remaining time-to-live of `key` at instant `now`.
    pub fn ttl_remaining(&self, key: &str, now: u64) -> (r: Option<u64>)
        ensures
            r == ttl_of(self@, key@, now),
    {
        match self.find_index(key) {
            None => {
                proof {
                    lemma_find_entry_none(self@, key@);
                }
                None
            },
            Some(i) => {
                proof {
                    lemma_find_entry_at(self@, key@, i as int);
                }
                match self.entries[i].deadline {
                    Some(d) => if now < d {
                        Some(d - now)
                    } else {
                        None
                    },
                    None => None,
                }
            },
        }
    }

    /// Deletes `key`'s entry if it is there: deleting an absent key is not
    /// a fault.
    pub fn del(&mut self, key: &str)
        requires
            backend_wf(old(self)@),
        ensures
            final(self)@ == remove_key(old(self)@, key@),
            backend_wf(final(self)@),
    {
        let ghost pre = self@;
        proof {
            lemma_remove_key(pre, key@);
        }
        match self.find_index(key) {
            None => {
                proof {
                    lemma_remove_key_absent(pre, key@);
                }
            },
            Some(i) => {
                self.entries.remove(i);
                proof {
                    assert(self@ =~= pre.remove(i as int));
                    lemma_remove_key_at(pre, key@, i as int);
                }
            },
        }
    }

    /// Writes `value` under `key`, replacing any earlier entry, with the
    /// deadline `now + t` where a time-to-live `t` is given and none
    /// otherwise.
    pub fn set(&mut self, key: String, value: String, ttl: Option<u64>, now: u64)
        requires
            backend_wf(old(self)@),
            ttl matches Some(t) ==> now + t <= u64::MAX,
        ensures
            final(self)@ == remove_key(old(self)@, key@).push(
                EntryV {
                    key: key@,
                    value: value@,
                    deadline: match ttl {
                        Some(t) => Some((now + t) as u64),
                        None => None,
                    },
                },
            ),
            backend_wf(final(self)@),
    {
        let ghost pre = self@;
        self.del(key.as_str());
        let ghost removed = self@;
        let deadline: Option<u64> = match ttl {
            Some(t) => Some(now + t),
            None => None,
        };
        self.entries.push(StoreEntry { key, value, deadline });
        proof {
            let e = self@.last();
            assert(self@ =~= removed.push(e));
            lemma_remove_key(pre, e.key);
            assert forall|i: int, j: int|
                0 <= i < j < self@.len() implies (#[trigger] self@[i]).key != (
            #[trigger] self@[j]).key by {
                if j == self@.len() - 1 {
                    assert(self@[i] == removed[i]);
                    assert(removed[i].key != e.key);
                } else {
                    assert(self@[i] == removed[i]);
                    assert(self@[j] == removed[j]);
                }
            }
        }
    }

    /// How many entries are live at instant `now`.
    pub fn dbsize(&self, now: u64) -> (r: usize)
        ensures
            r == live_count(self@, now),
    {
        let mut i: usize = 0;
        let mut n: usize = 0;
        while i < self.entries.len()
            invariant
                i <= self.entries.len(),
                self@.len() == self.entries@.len(),
                n <= i,
                n == live_count(self@.take(i as int), now),
            decreases self.entries.len() - i,
        {
            let live = match self.entries[i].deadline {
                Some(d) => now < d,
                None => true,
            };
            proof {
                assert(self@.take(i + 1).drop_last() =~= self@.take(i as int));
                assert(self@.take(i + 1).last() == self@[i as int]);
            }
            if live {
                n += 1;
            }
            i += 1;
        }
        proof {
            assert(self@.take(self@.len() as int) =~= self@);
        }
        n
    }

    /// Removes every entry: the whole keyspace, not only this store's.
    pub fn flushall(&mut self)
        ensures
            final(self)@ == Seq::<EntryV>::empty(),
            backend_wf(final(self)@),
    {
        self.entries.clear();
        proof {
            assert(self@ =~= Seq::<EntryV>::empty());
        }
    }

    /// Deletes every listed key: the multi-key delete that a prefixed
    /// clear issues over the scanned key set.
    pub fn del_many(&mut self, keys: &Vec<String>)
        requires
            backend_wf(old(self)@),
        ensures
            backend_wf(final(self)@),
            forall|i: int|
                0 <= i < final(self)@.len() ==> old(self)@.contains(#[trigger] final(self)@[i])
                    && !str_views(keys@).contains(final(self)@[i].key),
            forall|k: Seq<char>|
                !str_views(keys@).contains(k) ==> #[trigger] find_entry(final(self)@, k)
                    == find_entry(old(self)@, k),
    {
        let ghost pre = self@;
        let mut j: usize = 0;
        while j < keys.len()
            invariant
                j <= keys.len(),
                backend_wf(self@),
                forall|i: int|
                    0 <= i < self@.len() ==> pre.contains(#[trigger] self@[i]) && forall|jj: int|
                        0 <= jj < j ==> self@[i].key != str_views(keys@)[jj],
                forall|k: Seq<char>|
                    (forall|jj: int| 0 <= jj < j ==> k != str_views(keys@)[jj])
                        ==> #[trigger] find_entry(self@, k) == find_entry(pre, k),
            decreases keys.len() - j,
        {
            let ghost mid = self@;
            let ghost kj = str_views(keys@)[j as int];
            proof {
                lemma_remove_key(mid, kj);
            }
            self.del(keys[j].as_str());
            proof {
                assert(self@ == remove_key(mid, kj));
                assert forall|i: int| 0 <= i < self@.len() implies pre.contains(
                    #[trigger] self@[i],
                ) && forall|jj: int| 0 <= jj < j + 1 ==> self@[i].key != str_views(keys@)[jj] by {
                    assert(mid.contains(self@[i]));
                    let m = choose|m: int| 0 <= m < mid.len() && mid[m] == self@[i];
                    assert(pre.contains(mid[m]));
                    assert(self@[i].key != kj);
                }
                assert forall|k: Seq<char>|
                    (forall|jj: int| 0 <= jj < j + 1 ==> k != str_views(keys@)[jj]) implies #[trigger] find_entry(
                    self@,
                    k,
                ) == find_entry(pre, k) by {
                    assert(k != kj);
                    assert(find_entry(self@, k) == find_entry(mid, k));
                }
            }
            j += 1;
        }
        proof {
            assert forall|i: int| 0 <= i < self@.len() implies pre.contains(#[trigger] self@[i])
                && !str_views(keys@).contains(self@[i].key) by {
                if str_views(keys@).contains(self@[i].key) {
                    let jj = choose|jj: int|
                        0 <= jj < keys@.len() && str_views(keys@)[jj] == self@[i].key;
                    assert(false);
                }
            }
            assert forall|k: Seq<char>| !str_views(keys@).contains(k) implies #[trigger] find_entry(
                self@,
                k,
            ) == find_entry(pre, k) by {
                assert forall|jj: int| 0 <= jj < keys@.len() implies k != str_views(keys@)[jj] by {
                    if k == str_views(keys@)[jj] {
                        assert(str_views(keys@).contains(k));
                    }
                }
            }
        }
    }

    /// One page of the key scan: the matching live keys among the entries
    /// from `cursor` on, at most `page` entries looked at, with the next
    /// cursor and whether the scan is done.
    pub fn scan_page(&self, cursor: usize, page: usize, stem: &str, now: u64) -> (r: (
        Vec<String>,
        usize,
        bool,
    ))
        requires
            cursor <= self@.len(),
            page >= 1,
        ensures
            cursor < r.1 <= self@.len() || (cursor == r.1 == self@.len()),
            r.2 <==> r.1 == self@.len(),
            matching_live_keys(self@.take(r.1 as int), stem@, now) == matching_live_keys(
                self@.take(cursor as int),
                stem@,
                now,
            ) + str_views(r.0@),
    {
        let mut out: Vec<String> = Vec::new();
        let mut i: usize = cursor;
        let stop = if page < self.entries.len() - cursor {
            cursor + page
        } else {
            self.entries.len()
        };
        proof {
            assert(str_views(out@) =~= Seq::<Seq<char>>::empty());
            assert(matching_live_keys(self@.take(cursor as int), stem@, now) + str_views(out@)
                =~= matching_live_keys(self@.take(cursor as int), stem@, now));
        }
        while i < stop
            invariant
                cursor <= i <= stop <= self@.len(),
                self@.len() == self.entries@.len(),
                matching_live_keys(self@.take(i as int), stem@, now) == matching_live_keys(
                    self@.take(cursor as int),
                    stem@,
                    now,
                ) + str_views(out@),
            decreases stop - i,
        {
            let live = match self.entries[i].deadline {
                Some(d) => now < d,
                None => true,
            };
            let matches = starts_with(self.entries[i].key.as_str(), stem);
            let ghost prev = str_views(out@);
            proof {
                assert(self@.take(i + 1).drop_last() =~= self@.take(i as int));
                assert(self@.take(i + 1).last() == self@[i as int]);
            }
            if live && matches {
                out.push(self.entries[i].key.clone());
                proof {
                    assert(str_views(out@) =~= prev + seq![self@[i as int].key]);
                    vstd::seq_lib::lemma_concat_associative(
                        matching_live_keys(self@.take(cursor as int), stem@, now),
                        prev,
                        seq![self@[i as int].key],
                    );
                }
            } else {
                proof {
                    assert(matching_live_keys(self@.take(i + 1), stem@, now) =~= matching_live_keys(
                        self@.take(i as int),
                        stem@,
                        now,
                    ));
                }
            }
            i += 1;
        }
        let done = i == self.entries.len();
        (out, i, done)
    }
}

/// Whether `s` begins with `stem`.
pub fn starts_with(s: &str, stem: &str) -> (r: bool)
    ensures
        r == key_matches(s@, stem@),
{
    let n = stem.unicode_len();
    let m = s.unicode_len();
    if n > m {
        proof {
            assert(!stem@.is_prefix_of(s@));
        }
        return false;
    }
    let head = s.substring_char(0, n);
    let r = crate::session::equal_str(head, stem);
    proof {
        assert(head@ == s@.subrange(0, n as int));
        if head@ == stem@ {
            assert(stem@ =~= s@.take(n as int));
        }
        if stem@.is_prefix_of(s@) {
            assert(head@ =~= stem@);
        }
    }
    r
}

/// Where a scan of `s` finds the entry under `k`.
proof fn lemma_find_entry_at(s: Seq<EntryV>, k: Seq<char>, i: int)
    requires
        0 <= i < s.len(),
        s[i].key == k,
        forall|j: int| 0 <= j < i ==> (#[trigger] s[j]).key != k,
    ensures
        find_entry(s, k) == Some(s[i]),
    decreases i,
{
    if i == 0 {
    } else {
        lemma_find_entry_at(s.drop_first(), k, i - 1);
    }
}

/// A scan that saw no `k` finds nothing under it.
proof fn lemma_find_entry_none(s: Seq<EntryV>, k: Seq<char>)
    requires
        forall|j: int| 0 <= j < s.len() ==> (#[trigger] s[j]).key != k,
    ensures
        find_entry(s, k) is None,
    decreases s.len(),
{
    if s.len() != 0 {
        lemma_find_entry_none(s.drop_first(), k);
    }
}

/// What is found under `k` is an entry of `s` with key `k`.
pub proof fn lemma_find_entry_some(s: Seq<EntryV>, k: Seq<char>)
    ensures
        match find_entry(s, k) {
            Some(e) => s.contains(e) && e.key == k,
            None => forall|j: int| 0 <= j < s.len() ==> (#[trigger] s[j]).key != k,
        },
    decreases s.len(),
{
    if s.len() != 0 {
        lemma_find_entry_some(s.drop_first(), k);
        if s.first().key == k {
            assert(s[0] == s.first());
            assert(s.contains(s.first()));
        } else {
            match find_entry(s.drop_first(), k) {
                Some(e) => {
                    assert(s.drop_first().contains(e));
                    let j = choose|j: int|
                        0 <= j < s.drop_first().len() && s.drop_first()[j] == e;
                    assert(s[j + 1] == e);
                    assert(s.contains(e));
                },
                None => {
                    assert forall|j: int| 0 <= j < s.len() implies (#[trigger] s[j]).key != k by {
                        if j > 0 {
                            assert(s[j] == s.drop_first()[j - 1]);
                        }
                    }
                },
            }
        }
    }
}

/// Taking a key out keeps the table well formed, keeps every other key's
/// entry, and leaves nothing under the removed key.
pub proof fn lemma_remove_key(s: Seq<EntryV>, k: Seq<char>)
    requires
        backend_wf(s),
    ensures
        backend_wf(remove_key(s, k)),
        find_entry(remove_key(s, k), k) is None,
        forall|k2: Seq<char>|
            k2 != k ==> #[trigger] find_entry(remove_key(s, k), k2) == find_entry(s, k2),
        forall|i: int|
            0 <= i < remove_key(s, k).len() ==> s.contains(#[trigger] remove_key(s, k)[i])
                && remove_key(s, k)[i].key != k,
        remove_key(s, k).len() <= s.len(),
    decreases s.len(),
{
    if s.len() == 0 {
    } else {
        let st = s.drop_first();
        assert(backend_wf(st));
        lemma_remove_key(st, k);
        let rest = remove_key(st, k);
        assert forall|i: int| 0 <= i < rest.len() implies s.contains(#[trigger] rest[i])
            && rest[i].key != k by {
            let j = choose|j: int| 0 <= j < st.len() && st[j] == rest[i];
            assert(s[j + 1] == rest[i]);
        }
        if s.first().key == k {
            assert(remove_key(s, k) == rest);
            assert forall|k2: Seq<char>| k2 != k implies #[trigger] find_entry(
                remove_key(s, k),
                k2,
            ) == find_entry(s, k2) by {
                assert(find_entry(s, k2) == find_entry(st, k2));
            }
        } else {
            let r = seq![s.first()] + rest;
            assert(remove_key(s, k) == r);
            assert(r.first() == s.first());
            assert(r.drop_first() =~= rest);
            assert forall|i: int, j: int| 0 <= i < j < r.len() implies (#[trigger] r[i]).key != (
            #[trigger] r[j]).key by {
                if i == 0 {
                    assert(s.contains(rest[j - 1]));
                    let m = choose|m: int| 0 <= m < s.len() && s[m] == rest[j - 1];
                    if m == 0 {
                        assert(backend_wf(rest));
                    } else {
                        assert(s[0].key != s[m].key);
                    }
                } else {
                    assert(rest[i - 1].key != rest[j - 1].key);
                }
            }
            assert(find_entry(r, k) == find_entry(rest, k));
            assert forall|k2: Seq<char>| k2 != k implies #[trigger] find_entry(r, k2)
                == find_entry(s, k2) by {
                if s.first().key == k2 {
                } else {
                    assert(find_entry(r, k2) == find_entry(rest, k2));
                    assert(find_entry(s, k2) == find_entry(st, k2));
                }
            }
            assert forall|i: int| 0 <= i < r.len() implies s.contains(#[trigger] r[i])
                && r[i].key != k by {
                if i == 0 {
                    assert(s[0] == r[0]);
                } else {
                    assert(r[i] == rest[i - 1]);
                }
            }
        }
    }
}

/// Removing an absent key changes nothing.
pub proof fn lemma_remove_key_absent(s: Seq<EntryV>, k: Seq<char>)
    requires
        forall|j: int| 0 <= j < s.len() ==> (#[trigger] s[j]).key != k,
    ensures
        remove_key(s, k) =~= s,
    decreases s.len(),
{
    if s.len() != 0 {
        lemma_remove_key_absent(s.drop_first(), k);
        assert(remove_key(s, k) =~= seq![s.first()] + s.drop_first());
    }
}

/// With keys unique, removal takes out exactly the one entry found.
proof fn lemma_remove_key_at(s: Seq<EntryV>, k: Seq<char>, i: int)
    requires
        backend_wf(s),
        0 <= i < s.len(),
        s[i].key == k,
        forall|j: int| 0 <= j < i ==> (#[trigger] s[j]).key != k,
    ensures
        remove_key(s, k) =~= s.remove(i),
    decreases i,
{
    if i == 0 {
        assert forall|j: int| 0 <= j < s.drop_first().len() implies (#[trigger] s.drop_first()[j]).key
            != k by {
            assert(s.drop_first()[j] == s[j + 1]);
        }
        lemma_remove_key_absent(s.drop_first(), k);
        assert(remove_key(s, k) =~= s.drop_first());
        assert(s.remove(0) =~= s.drop_first());
    } else {
        assert(backend_wf(s.drop_first()));
        assert forall|j: int| 0 <= j < i - 1 implies (#[trigger] s.drop_first()[j]).key != k by {
            assert(s.drop_first()[j] == s[j + 1]);
        }
        assert(s.drop_first()[i - 1] == s[i]);
        lemma_remove_key_at(s.drop_first(), k, i - 1);
        assert(remove_key(s, k) =~= seq![s.first()] + s.drop_first().remove(i - 1));
        assert(s.remove(i) =~= seq![s.first()] + s.drop_first().remove(i - 1));
    }
}

/// Whether `key` is among `keys`.
fn contains_str(keys: &Vec<String>, key: &str) -> (r: bool)
    ensures
        r == str_views(keys@).contains(key@),
{
    let mut i: usize = 0;
    while i < keys.len()
        invariant
            i <= keys.len(),
            forall|j: int| 0 <= j < i ==> str_views(keys@)[j] != key@,
        decreases keys.len() - i,
    {
        let hit = crate::session::equal_str(keys[i].as_str(), key);
        if hit {
            proof {
                assert(str_views(keys@)[i as int] == key@);
            }
            return true;
        }
        i += 1;
    }
    proof {
        if str_views(keys@).contains(key@) {
            let j = choose|j: int| 0 <= j < keys@.len() && str_views(keys@)[j] == key@;
            assert(false);
        }
    }
    false
}

/// With keys unique, an entry of the table is exactly what a lookup of
/// its key finds.
pub proof fn lemma_find_entry_contains(s: Seq<EntryV>, e: EntryV)
    requires
        backend_wf(s),
        s.contains(e),
    ensures
        find_entry(s, e.key) == Some(e),
{
    let i = choose|i: int| 0 <= i < s.len() && s[i] == e;
    assert forall|j: int| 0 <= j < i implies (#[trigger] s[j]).key != e.key by {
        assert(s[j].key != s[i].key);
    }
    lemma_find_entry_at(s, e.key, i);
}

/// Every key the scan reports belongs to a live entry in the namespace.
pub proof fn lemma_mk_members(s: Seq<EntryV>, stem: Seq<char>, now: u64)
    ensures
        forall|x: Seq<char>|
            #[trigger] matching_live_keys(s, stem, now).contains(x) ==> exists|i: int|
                0 <= i < s.len() && (#[trigger] s[i]).key == x && key_matches(s[i].key, stem)
                    && entry_live(s[i], now),
    decreases s.len(),
{
    if s.len() != 0 {
        lemma_mk_members(s.drop_last(), stem, now);
        let m = matching_live_keys(s, stem, now);
        let mp = matching_live_keys(s.drop_last(), stem, now);
        assert forall|x: Seq<char>| #[trigger] m.contains(x) implies exists|i: int|
            0 <= i < s.len() && (#[trigger] s[i]).key == x && key_matches(s[i].key, stem)
                && entry_live(s[i], now) by {
            let j = choose|j: int| 0 <= j < m.len() && m[j] == x;
            if j < mp.len() {
                assert(mp.contains(x));
                let i = choose|i: int|
                    0 <= i < s.drop_last().len() && (#[trigger] s.drop_last()[i]).key == x
                        && key_matches(s.drop_last()[i].key, stem) && entry_live(
                        s.drop_last()[i],
                        now,
                    );
                assert(s[i] == s.drop_last()[i]);
                assert(s[i].key == x && key_matches(s[i].key, stem) && entry_live(s[i], now));
            } else {
                assert(x == s.last().key);
                assert(s[s.len() - 1] == s.last());
            }
        }
    }
}

/// A namespace with no live entry scans to nothing.
pub proof fn lemma_mk_empty(s: Seq<EntryV>, stem: Seq<char>, now: u64)
    requires
        forall|i: int|
            0 <= i < s.len() ==> !(key_matches((#[trigger] s[i]).key, stem) && entry_live(
                s[i],
                now,
            )),
    ensures
        matching_live_keys(s, stem, now).len() == 0,
    decreases s.len(),
{
    if s.len() != 0 {
        assert forall|i: int| 0 <= i < s.drop_last().len() implies !(key_matches(
            (#[trigger] s.drop_last()[i]).key,
            stem,
        ) && entry_live(s.drop_last()[i], now)) by {
            assert(s.drop_last()[i] == s[i]);
        }
        lemma_mk_empty(s.drop_last(), stem, now);
        assert(s[s.len() - 1] == s.last());
    }
}

} // verus!
