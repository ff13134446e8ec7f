//! The transport form of a session: the exact string stored as the backend
//! value. Fields are length-prefixed (`<decimal char count>:<chars>`), in
//! the order identifier, expiry, then each data key and value. The expiry
//! field holds the decimal expiry instant, or is empty when none is set.
//! The cookie value is never part of the stored form.
use crate::digits::{all_digits, dec_digits, digit_at, digit_val, digits_val, fmt_u64, is_digit,
    lemma_dec_digits_val, lemma_digits_val_bounds};
use crate::session::{Session, SessionView};
use vstd::prelude::*;

verus! {

/// A length-prefixed field.
pub open spec fn lp(s: Seq<char>) -> Seq<char> {
    dec_digits(s.len()) + seq![':'] + s
}

/// The expiry field's characters.
pub open spec fn expiry_chars(e: Option<u64>) -> Seq<char> {
    match e {
        None => Seq::empty(),
        Some(t) => dec_digits(t as nat),
    }
}

/// The characters of the data entries, each key and value length-prefixed.
pub open spec fn pairs_chars(d: Seq<(Seq<char>, Seq<char>)>) -> Seq<char>
    decreases d.len(),
{
    if d.len() == 0 {
        Seq::empty()
    } else {
        lp(d.first().0) + lp(d.first().1) + pairs_chars(d.drop_first())
    }
}

/// The stored form of a session.
pub open spec fn encode(v: SessionView) -> Seq<char> {
    lp(v.id) + lp(expiry_chars(v.expiry)) + pairs_chars(v.data)
}

/// Splits a sequence into its maximal leading digit run and the rest.
pub open spec fn split_digits(v: Seq<char>) -> (Seq<char>, Seq<char>)
    decreases v.len(),
{
    if v.len() == 0 || !is_digit(v.first()) {
        (Seq::empty(), v)
    } else {
        let p = split_digits(v.drop_first());
        (seq![v.first()] + p.0, p.1)
    }
}

/// Reads one length-prefixed field: the field's characters and the rest.
pub open spec fn parse_field(v: Seq<char>) -> Option<(Seq<char>, Seq<char>)> {
    let sd = split_digits(v);
    if sd.0.len() == 0 {
        None
    } else if sd.1.len() == 0 || sd.1.first() != ':' {
        None
    } else {
        let n = digits_val(sd.0);
        let body = sd.1.drop_first();
        if body.len() < n {
            None
        } else {
            Some((body.take(n), body.skip(n)))
        }
    }
}

/// Reads the data entries: the whole rest of the stored form, keys and
/// values alternating.
pub open spec fn parse_pairs(v: Seq<char>) -> Option<Seq<(Seq<char>, Seq<char>)>>
    decreases v.len(),
    via parse_pairs_decreases
{
    if v.len() == 0 {
        Some(Seq::empty())
    } else {
        match parse_field(v) {
            None => None,
            Some((k, r1)) => match parse_field(r1) {
                None => None,
                Some((val, r2)) => match parse_pairs(r2) {
                    None => None,
                    Some(rest) => Some(seq![(k, val)] + rest),
                },
            },
        }
    }
}

#[via_fn]
proof fn parse_pairs_decreases(v: Seq<char>) {
    if v.len() != 0 {
        if let Some((k, r1)) = parse_field(v) {
            lemma_parse_field_shrinks(v);
            if let Some((val, r2)) = parse_field(r1) {
                lemma_parse_field_shrinks(r1);
            }
        }
    }
}

/// Reads a whole stored value back into a session view. The expiry field
/// must be empty or a decimal instant that fits; anything else, or any
/// framing fault, is a corrupt value.
pub open spec fn parse_session_chars(v: Seq<char>) -> Option<SessionView> {
    match parse_field(v) {
        None => None,
        Some((id, r1)) => match parse_field(r1) {
            None => None,
            Some((ec, r2)) => {
                if ec.len() != 0 && !(all_digits(ec) && digits_val(ec) <= u64::MAX) {
                    None
                } else {
                    let expiry = if ec.len() == 0 {
                        None
                    } else {
                        Some(digits_val(ec) as u64)
                    };
                    match parse_pairs(r2) {
                        None => None,
                        Some(d) => Some(
                            SessionView { id, expiry, data: d, cookie_value: None },
                        ),
                    }
                }
            },
        },
    }
}

/// `split_digits` gives back a partition of its input: a digit run, then a
/// rest that does not begin with a digit.
pub proof fn lemma_split_digits(v: Seq<char>)
    ensures
        split_digits(v).0 + split_digits(v).1 =~= v,
        all_digits(split_digits(v).0),
        split_digits(v).1.len() > 0 ==> !is_digit(split_digits(v).1.first()),
        split_digits(v).0.len() + split_digits(v).1.len() == v.len(),
    decreases v.len(),
{
    if v.len() == 0 || !is_digit(v.first()) {
    } else {
        lemma_split_digits(v.drop_first());
        let p = split_digits(v.drop_first());
        assert(split_digits(v) == (seq![v.first()] + p.0, p.1));
        vstd::seq_lib::lemma_concat_associative(seq![v.first()], p.0, p.1);
        assert(seq![v.first()] + (p.0 + p.1) =~= v);
        assert(seq![v.first()] + p.0 + p.1 =~= v);
        assert(all_digits(seq![v.first()] + p.0));
    }
}

/// On an input laid out as a digit run followed by a non-digit rest,
/// `split_digits` finds exactly that partition.
pub proof fn lemma_split_digits_exact(d: Seq<char>, r: Seq<char>)
    requires
        all_digits(d),
        r.len() == 0 || !is_digit(r.first()),
    ensures
        split_digits(d + r) == (d, r),
    decreases d.len(),
{
    let v = d + r;
    if d.len() == 0 {
        assert(v =~= r);
        assert(split_digits(r) == (Seq::<char>::empty(), r)) by {
            if r.len() != 0 {
                assert(!is_digit(r.first()));
            }
        }
        assert(split_digits(v).0 =~= d);
    } else {
        assert(is_digit(d.first()));
        assert(v.first() == d.first());
        assert(v.len() != 0 && is_digit(v.first()));
        lemma_split_digits_exact(d.drop_first(), r);
        assert(v.drop_first() =~= d.drop_first() + r);
        let p = split_digits(v.drop_first());
        assert(p == (d.drop_first(), r));
        assert(seq![v.first()] + p.0 =~= d);
    }
}

/// A successfully read field leaves a strictly shorter rest.
pub proof fn lemma_parse_field_shrinks(v: Seq<char>)
    requires
        parse_field(v) is Some,
    ensures
        parse_field(v)->Some_0.1.len() < v.len(),
        parse_field(v)->Some_0.0.len() < v.len(),
{
    lemma_split_digits(v);
    let sd = split_digits(v);
    lemma_digits_val_bounds(sd.0);
}

/// Reading a length-prefixed field from its own rendering gives the field
/// and the rest back exactly.
pub proof fn lemma_parse_field_roundtrip(s: Seq<char>, rest: Seq<char>)
    ensures
        parse_field(lp(s) + rest) == Some((s, rest)),
{
    let v = lp(s) + rest;
    let tail = seq![':'] + s + rest;
    lemma_dec_digits_val(s.len());
    assert(v =~= dec_digits(s.len()) + tail);
    assert(!is_digit(tail.first()));
    lemma_split_digits_exact(dec_digits(s.len()), tail);
    let sd = split_digits(v);
    assert(sd == (dec_digits(s.len()), tail));
    assert(sd.0.len() >= 1);
    assert(sd.1.first() == ':');
    let n = digits_val(sd.0);
    assert(n == s.len());
    let body = sd.1.drop_first();
    assert(body =~= s + rest);
    assert(body.take(n) =~= s);
    assert(body.skip(n) =~= rest);
}

/// Reading the data entries from their own rendering gives them back
/// exactly.
pub proof fn lemma_parse_pairs_roundtrip(d: Seq<(Seq<char>, Seq<char>)>)
    ensures
        parse_pairs(pairs_chars(d)) == Some(d),
    decreases d.len(),
{
    if d.len() == 0 {
        assert(pairs_chars(d).len() == 0);
        assert(parse_pairs(pairs_chars(d)) == Some(Seq::<(Seq<char>, Seq<char>)>::empty()));
        assert(d =~= Seq::<(Seq<char>, Seq<char>)>::empty());
    } else {
        let k = d.first().0;
        let val = d.first().1;
        let dt = d.drop_first();
        lemma_parse_pairs_roundtrip(dt);
        let v = pairs_chars(d);
        assert(v =~= lp(k) + (lp(val) + pairs_chars(dt)));
        lemma_parse_field_roundtrip(k, lp(val) + pairs_chars(dt));
        lemma_parse_field_roundtrip(val, pairs_chars(dt));
        assert(v.len() != 0) by {
            lemma_dec_digits_val(k.len());
            assert(lp(k).len() >= 2);
        }
        assert(seq![(k, val)] + dt =~= d);
    }
}

/// Reading a stored value written by `encode` reconstructs the session
/// exactly, except that the rebuilt session carries no cookie value.
pub proof fn lemma_codec_roundtrip(v: SessionView)
    ensures
        parse_session_chars(encode(v)) == Some(v.without_cookie()),
{
    let ec = expiry_chars(v.expiry);
    let e = encode(v);
    assert(e =~= lp(v.id) + (lp(ec) + pairs_chars(v.data)));
    lemma_parse_field_roundtrip(v.id, lp(ec) + pairs_chars(v.data));
    lemma_parse_field_roundtrip(ec, pairs_chars(v.data));
    lemma_parse_pairs_roundtrip(v.data);
    match v.expiry {
        None => {
            assert(ec.len() == 0);
        },
        Some(t) => {
            lemma_dec_digits_val(t as nat);
            assert(ec.len() != 0);
            assert(all_digits(ec) && digits_val(ec) == t as nat);
        },
    }
}

/// Writes the stored form of a session.
pub fn serialize_session(s: &Session) -> (r: String)
    ensures
        r@ == encode(s@),
{
    let mut out = lp_string(s.id());
    let ex: String = match s.expiry() {
        None => String::new(),
        Some(t) => fmt_u64(t),
    };
    let exf = lp_string(ex.as_str());
    out.append(exf.as_str());
    let pairs = s.data_entries();
    let ghost dv = s@.data;
    let mut i: usize = 0;
    proof {
        assert(out@ =~= lp(s@.id) + lp(expiry_chars(s@.expiry)));
    }
    while i < pairs.len()
        invariant
            i <= pairs.len(),
            dv.len() == pairs@.len(),
            forall|j: int| 0 <= j < dv.len() ==> #[trigger] dv[j] == (pairs@[j].0@, pairs@[j].1@),
            out@ =~= lp(s@.id) + lp(expiry_chars(s@.expiry)) + pairs_chars(dv.take(i as int)),
        decreases pairs.len() - i,
    {
        let kf = lp_string(pairs[i].0.as_str());
        out.append(kf.as_str());
        let vf = lp_string(pairs[i].1.as_str());
        out.append(vf.as_str());
        proof {
            lemma_pairs_chars_snoc(dv, i as int);
        }
        i += 1;
    }
    proof {
        assert(dv.take(dv.len() as int) =~= dv);
    }
    out
}

/// `pairs_chars` of one more entry appends that entry's two fields.
proof fn lemma_pairs_chars_snoc(d: Seq<(Seq<char>, Seq<char>)>, i: int)
    requires
        0 <= i < d.len(),
    ensures
        pairs_chars(d.take(i + 1)) =~= pairs_chars(d.take(i)) + lp(d[i].0) + lp(d[i].1),
    decreases i,
{
    if i == 0 {
        let t = d.take(1);
        assert(t.first() == d[0]);
        assert(t.drop_first() =~= Seq::<(Seq<char>, Seq<char>)>::empty());
        assert(pairs_chars(t.drop_first()) == pairs_chars(
            Seq::<(Seq<char>, Seq<char>)>::empty(),
        ));
        assert(pairs_chars(d.take(0)).len() == 0);
        assert(pairs_chars(t) =~= lp(d[0].0) + lp(d[0].1));
    } else {
        let dt = d.drop_first();
        lemma_pairs_chars_snoc(dt, i - 1);
        let a = d.take(i + 1);
        let b = d.take(i);
        assert(a.first() == d.first());
        assert(b.first() == d.first());
        assert(a.drop_first() =~= dt.take(i));
        assert(b.drop_first() =~= dt.take(i - 1));
        assert(dt[i - 1] == d[i]);
        let ghost aa = lp(d.first().0) + lp(d.first().1);
        assert(pairs_chars(a.drop_first()) == pairs_chars(dt.take(i)));
        assert(pairs_chars(b.drop_first()) == pairs_chars(dt.take(i - 1)));
        assert(pairs_chars(a) == aa + pairs_chars(dt.take(i)));
        assert(pairs_chars(b) == aa + pairs_chars(dt.take(i - 1)));
        let ghost bb = pairs_chars(dt.take(i - 1));
        let ghost cc = lp(d[i].0);
        let ghost dd = lp(d[i].1);
        assert(pairs_chars(dt.take(i)) == bb + cc + dd);
        assert(pairs_chars(a) == aa + ((bb + cc) + dd));
        vstd::seq_lib::lemma_concat_associative(aa, bb + cc, dd);
        vstd::seq_lib::lemma_concat_associative(aa, bb, cc);
        assert(pairs_chars(a) =~= ((aa + bb) + cc) + dd);
    }
}

/// Writes one length-prefixed field.
fn lp_string(s: &str) -> (r: String)
    ensures
        r@ == lp(s@),
{
    let n = s.unicode_len();
    let mut out = fmt_u64(n as u64);
    out.append(":");
    out.append(s);
    proof {
        reveal_strlit(":");
        assert(out@ =~= lp(s@));
    }
    out
}

/// Whether the character at position `i` exists and is a decimal digit.
fn is_digit_at(v: &str, i: usize, n_chars: usize) -> (r: bool)
    requires
        n_chars == v@.len(),
    ensures
        r == (i < n_chars && is_digit(v@[i as int])),
{
    if i < n_chars {
        match digit_at(v, i) {
            Some(_) => true,
            None => false,
        }
    } else {
        false
    }
}

/// Reads one length-prefixed field of `v` from character position `pos`:
/// the field and the position just past it.
fn parse_field_at(v: &str, pos: usize, n_chars: usize) -> (r: Option<(String, usize)>)
    requires
        pos <= n_chars,
        n_chars == v@.len(),
    ensures
        match r {
            Some(p) => {
                &&& pos < p.1 <= n_chars
                &&& parse_field(v@.skip(pos as int)) == Some((p.0@, v@.skip(p.1 as int)))
            },
            None => parse_field(v@.skip(pos as int)) is None,
        },
{
    let ghost w = v@.skip(pos as int);
    let ghost sd = split_digits(w);
    proof {
        lemma_split_digits(w);
        lemma_digits_val_bounds(sd.0);
    }
    let mut i: usize = pos;
    let mut acc: usize = 0;
    let mut big: bool = false;
    while is_digit_at(v, i, n_chars)
        invariant
            n_chars == v@.len(),
            pos <= i <= n_chars,
            w == v@.skip(pos as int),
            sd == split_digits(w),
            sd.0 + sd.1 == w,
            all_digits(sd.0),
            sd.1.len() > 0 ==> !is_digit(sd.1.first()),
            sd.0.len() + sd.1.len() == w.len(),
            i - pos <= sd.0.len(),
            !big ==> acc == digits_val(sd.0.take(i - pos)),
            big ==> digits_val(sd.0.take(i - pos)) > usize::MAX,
        decreases n_chars - i,
    {
        proof {
            assert(w[i - pos] == v@[i as int]);
            if i - pos == sd.0.len() {
                assert(sd.1.first() == w[i - pos]);
                assert(false);
            }
            assert(sd.0[i - pos] == w[i - pos]);
        }
        let d: u64 = match digit_at(v, i) {
            Some(d) => d,
            None => 0,
        };
        let ghost taken = sd.0.take(i - pos);
        let ghost taken1 = sd.0.take(i + 1 - pos);
        proof {
            assert(taken1.drop_last() =~= taken);
            assert(taken1.last() == sd.0[i - pos]);
            assert(digits_val(taken1) == digits_val(taken) * 10 + digit_val(w[i - pos]));
            lemma_digits_val_bounds(taken);
        }
        if !big {
            let step = acc.checked_mul(10);
            match step {
                Some(t) => {
                    match t.checked_add(d as usize) {
                        Some(t2) => {
                            acc = t2;
                        },
                        None => {
                            big = true;
                        },
                    }
                },
                None => {
                    big = true;
                },
            }
        }
        i += 1;
    }
    proof {
        if i == n_chars {
            assert(sd.0.len() <= w.len() == n_chars - pos);
            assert(i - pos == sd.0.len());
        } else {
            assert(!is_digit(v@[i as int]));
            if i - pos < sd.0.len() {
                assert(sd.0[i - pos] == w[i - pos]);
                assert(is_digit(sd.0[i - pos]));
                assert(false);
            }
        }
        assert(sd.0.take(i - pos) =~= sd.0);
    }
    if i == pos {
        return None;
    }
    if big {
        proof {
            assert(digits_val(sd.0) > usize::MAX >= n_chars);
        }
        return None;
    }
    if i == n_chars {
        proof {
            assert(sd.1.len() == 0);
        }
        return None;
    }
    let c = v.get_char(i);
    proof {
        assert(sd.1.first() == w[i - pos]);
        assert(w[i - pos] == v@[i as int]);
    }
    if c != ':' {
        return None;
    }
    let ghost body = sd.1.drop_first();
    proof {
        assert(body.len() == n_chars - i - 1);
    }
    let n = acc;
    if n > n_chars - i - 1 {
        return None;
    }
    let f = v.substring_char(i + 1, i + 1 + n);
    let newpos = i + 1 + n;
    proof {
        assert forall|j: int| 0 <= j < body.len() implies body[j] == v@[i + 1 + j] by {
            assert(body[j] == sd.1[j + 1]);
            assert(sd.1[j + 1] == w[sd.0.len() + j + 1]);
            assert(w[sd.0.len() + j + 1] == v@[pos + sd.0.len() + j + 1]);
        }
        assert(f@ =~= body.take(n as int));
        assert(v@.skip(newpos as int) =~= body.skip(n as int));
    }
    Some((f.to_owned(), newpos))
}

/// Reads a decimal number, rejecting anything non-numeric or too large.
fn parse_decimal_u64(f: &str) -> (r: Option<u64>)
    ensures
        match r {
            Some(t) => all_digits(f@) && digits_val(f@) == t,
            None => !(all_digits(f@) && digits_val(f@) <= u64::MAX),
        },
{
    let n_chars = f.unicode_len();
    let mut i: usize = 0;
    let mut acc: u64 = 0;
    let mut big: bool = false;
    while i < n_chars
        invariant
            n_chars == f@.len(),
            i <= n_chars,
            forall|j: int| 0 <= j < i ==> is_digit(#[trigger] f@[j]),
            !big ==> acc == digits_val(f@.take(i as int)),
            big ==> digits_val(f@.take(i as int)) > u64::MAX,
        decreases n_chars - i,
    {
        let d: u64 = match digit_at(f, i) {
            Some(d) => d,
            None => {
                return None;
            },
        };
        let ghost taken = f@.take(i as int);
        let ghost taken1 = f@.take(i + 1);
        proof {
            assert(taken1.drop_last() =~= taken);
            assert(taken1.last() == f@[i as int]);
            assert(digits_val(taken1) == digits_val(taken) * 10 + digit_val(f@[i as int]));
            assert(all_digits(taken));
            lemma_digits_val_bounds(taken);
        }
        if !big {
            let step = acc.checked_mul(10);
            match step {
                Some(t) => {
                    match t.checked_add(d) {
                        Some(t2) => {
                            acc = t2;
                        },
                        None => {
                            big = true;
                        },
                    }
                },
                None => {
                    big = true;
                },
            }
        }
        i += 1;
    }
    proof {
        assert(f@.take(n_chars as int) =~= f@);
    }
    if big {
        None
    } else {
        Some(acc)
    }
}

/// Reads a stored value back into a session. A value that does not parse
/// is corrupt: the caller turns this into a hard error, never into an
/// absent session.
pub fn parse_session(v: &str) -> (r: Option<Session>)
    ensures
        match r {
            Some(s) => parse_session_chars(v@) == Some(s@),
            None => parse_session_chars(v@) is None,
        },
{
    let n_chars = v.unicode_len();
    proof {
        assert(v@.skip(0) =~= v@);
    }
    let id_r = parse_field_at(v, 0, n_chars);
    let (id, p1) = match id_r {
        Some(p) => p,
        None => {
            return None;
        },
    };
    let ec_r = parse_field_at(v, p1, n_chars);
    let (ec, p2) = match ec_r {
        Some(p) => p,
        None => {
            return None;
        },
    };
    let ghost idv = id@;
    let ghost ecv = ec@;
    let expiry: Option<u64>;
    if ec.as_str().unicode_len() == 0 {
        expiry = None;
    } else {
        match parse_decimal_u64(ec.as_str()) {
            Some(t) => {
                expiry = Some(t);
            },
            None => {
                return None;
            },
        }
    }
    let ghost rem0 = v@.skip(p2 as int);
    let mut data: Vec<(String, String)> = Vec::new();
    let ghost datav = Seq::<(Seq<char>, Seq<char>)>::empty();
    let mut pos = p2;
    proof {
        assert(datav + parse_pairs(rem0)->Some_0 =~= parse_pairs(rem0)->Some_0);
    }
    while pos < n_chars
        invariant
            n_chars == v@.len(),
            pos <= n_chars,
            rem0 == v@.skip(p2 as int),
            p2 <= n_chars,
            data@.len() == datav.len(),
            forall|j: int|
                0 <= j < datav.len() ==> #[trigger] datav[j] == (data@[j].0@, data@[j].1@),
            parse_field(v@) == Some((idv, v@.skip(p1 as int))),
            parse_field(v@.skip(p1 as int)) == Some((ecv, rem0)),
            ecv.len() == 0 ==> expiry is None,
            ecv.len() != 0 ==> all_digits(ecv) && digits_val(ecv) <= u64::MAX && expiry == Some(
                digits_val(ecv) as u64,
            ),
            match parse_pairs(v@.skip(pos as int)) {
                Some(rest) => parse_pairs(rem0) == Some(datav + rest),
                None => parse_pairs(rem0) is None,
            },
        decreases n_chars - pos,
    {
        let ghost posw = v@.skip(pos as int);
        proof {
            assert(posw.len() == n_chars - pos);
        }
        let kr = parse_field_at(v, pos, n_chars);
        let (k, kp) = match kr {
            Some(p) => p,
            None => {
                return None;
            },
        };
        let vr = parse_field_at(v, kp, n_chars);
        let (val, vp) = match vr {
            Some(p) => p,
            None => {
                return None;
            },
        };
        let ghost kv = (k@, val@);
        proof {
            let rest_old = parse_pairs(posw);
            let rest_new = parse_pairs(v@.skip(vp as int));
            assert(rest_old == match rest_new {
                Some(rest) => Some(seq![kv] + rest),
                None => None::<Seq<(Seq<char>, Seq<char>)>>,
            });
            if rest_new is Some {
                vstd::seq_lib::lemma_concat_associative(
                    datav,
                    seq![kv],
                    rest_new->Some_0,
                );
                assert(datav + seq![kv] =~= datav.push(kv));
            }
        }
        data.push((k, val));
        proof {
            datav = datav.push(kv);
        }
        pos = vp;
    }
    proof {
        assert(v@.skip(pos as int).len() == 0);
        assert(parse_pairs(v@.skip(pos as int)) == Some(Seq::<(Seq<char>, Seq<char>)>::empty()));
        assert(datav + Seq::<(Seq<char>, Seq<char>)>::empty() =~= datav);
    }
    let s = Session::from_parts(id, expiry, data);
    proof {
        assert(s@.data =~= datav);
    }
    Some(s)
}

} // verus!
