//! Character-sequence groundwork for the codec: ASCII whitespace, outer
//! trimming, splitting at `/` and at whitespace runs, joining with a
//! separator, decimal rendering of indices, and the two small bridges to
//! `std` string routines that Verus does not model itself.

use vstd::prelude::*;
use vstd::string::StrSliceExecFns;

verus! {

/// ASCII whitespace: the separator alphabet between coded characters.
pub open spec fn is_ws(c: char) -> bool {
    c == ' ' || c == '\t' || c == '\n' || c == '\r' || c == '\u{c}'
}

pub(crate) fn is_ws_char(c: char) -> (b: bool)
    ensures
        b == is_ws(c),
{
    c == ' ' || c == '\t' || c == '\n' || c == '\r' || c == '\u{c}'
}

/// The sequence with its leading whitespace removed.
pub open spec fn trim_front(s: Seq<char>) -> Seq<char>
    decreases s.len(),
{
    if s.len() > 0 && is_ws(s[0]) {
        trim_front(s.drop_first())
    } else {
        s
    }
}

/// The sequence with its trailing whitespace removed.
pub open spec fn trim_back(s: Seq<char>) -> Seq<char>
    decreases s.len(),
{
    if s.len() > 0 && is_ws(s.last()) {
        trim_back(s.drop_last())
    } else {
        s
    }
}

/// The sequence with whitespace removed from both ends.
pub open spec fn trim(s: Seq<char>) -> Seq<char> {
    trim_back(trim_front(s))
}

/// Splitting at every `/`, keeping empty pieces; never empty itself.
pub open spec fn split_slash(s: Seq<char>) -> Seq<Seq<char>>
    decreases s.len(),
{
    if s.len() == 0 {
        seq![Seq::<char>::empty()]
    } else if s[0] == '/' {
        seq![Seq::<char>::empty()] + split_slash(s.drop_first())
    } else {
        let rest = split_slash(s.drop_first());
        rest.update(0, seq![s[0]] + rest[0])
    }
}

/// Splitting at runs of whitespace, dropping empty pieces.
pub open spec fn split_ws(s: Seq<char>) -> Seq<Seq<char>>
    decreases s.len(),
{
    if s.len() == 0 {
        Seq::<Seq<char>>::empty()
    } else if is_ws(s[0]) {
        split_ws(s.drop_first())
    } else if s.len() > 1 && !is_ws(s[1]) {
        let rest = split_ws(s.drop_first());
        rest.update(0, seq![s[0]] + rest[0])
    } else {
        seq![seq![s[0]]] + split_ws(s.drop_first())
    }
}

/// The pieces laid out again with `sep` between neighbours.
pub open spec fn join(parts: Seq<Seq<char>>, sep: Seq<char>) -> Seq<char>
    decreases parts.len(),
{
    if parts.len() == 0 {
        Seq::<char>::empty()
    } else if parts.len() == 1 {
        parts[0]
    } else {
        parts[0] + sep + join(parts.drop_first(), sep)
    }
}

/// The index of the first element that fails `ok` (the length if none does).
pub open spec fn first_fail<A>(xs: Seq<A>, ok: spec_fn(A) -> bool) -> int
    decreases xs.len(),
{
    if xs.len() == 0 {
        0
    } else if !ok(xs[0]) {
        0
    } else {
        1 + first_fail(xs.drop_first(), ok)
    }
}

pub(crate) proof fn lemma_first_fail<A>(xs: Seq<A>, ok: spec_fn(A) -> bool, i: int)
    requires
        0 <= i < xs.len(),
        !ok(xs[i]),
        forall|k: int| 0 <= k < i ==> ok(#[trigger] xs[k]),
    ensures
        first_fail(xs, ok) == i,
    decreases i,
{
    if i > 0 {
        assert(ok(xs[0]));
        assert(xs.drop_first()[i - 1] == xs[i]);
        assert(forall|k: int| 0 <= k < i - 1 ==> ok(#[trigger] xs.drop_first()[k]));
        lemma_first_fail(xs.drop_first(), ok, i - 1);
    }
}

pub(crate) proof fn lemma_split_slash_len(s: Seq<char>)
    ensures
        split_slash(s).len() >= 1,
    decreases s.len(),
{
    if s.len() > 0 {
        lemma_split_slash_len(s.drop_first());
    }
}

pub(crate) proof fn lemma_split_slash_no_slash(s: Seq<char>)
    requires
        forall|k: int| 0 <= k < s.len() ==> #[trigger] s[k] != '/',
    ensures
        split_slash(s) == seq![s],
    decreases s.len(),
{
    if s.len() == 0 {
        assert(s =~= Seq::<char>::empty());
        assert(split_slash(s) =~= seq![s]);
    } else {
        assert(s[0] != '/');
        lemma_split_slash_no_slash(s.drop_first());
        lemma_split_slash_len(s.drop_first());
        let rest = split_slash(s.drop_first());
        assert(split_slash(s) == rest.update(0, seq![s[0]] + rest[0]));
        assert(seq![s[0]] + s.drop_first() =~= s);
        assert(split_slash(s).len() == 1);
        assert(split_slash(s)[0] == s);
        assert(split_slash(s) =~= seq![s]);
    }
}

pub(crate) proof fn lemma_split_slash_append(a: Seq<char>, b: Seq<char>)
    requires
        forall|k: int| 0 <= k < a.len() ==> #[trigger] a[k] != '/',
    ensures
        split_slash(a + seq!['/'] + b) == seq![a] + split_slash(b),
    decreases a.len(),
{
    let s = a + seq!['/'] + b;
    if a.len() == 0 {
        assert(s[0] == '/');
        assert(s.drop_first() =~= b);
        assert(a =~= Seq::<char>::empty());
        assert(split_slash(s) =~= seq![a] + split_slash(b));
    } else {
        lemma_split_slash_append(a.drop_first(), b);
        assert(s[0] == a[0]);
        assert(s[0] != '/');
        assert(s.drop_first() =~= a.drop_first() + seq!['/'] + b);
        lemma_split_slash_len(b);
        let rest = split_slash(s.drop_first());
        assert(rest == seq![a.drop_first()] + split_slash(b));
        assert(rest[0] == a.drop_first());
        assert(split_slash(s) == rest.update(0, seq![s[0]] + rest[0]));
        assert(seq![a[0]] + a.drop_first() =~= a);
        assert(split_slash(s) =~= seq![a] + split_slash(b));
    }
}

pub(crate) proof fn lemma_split_ws_len(s: Seq<char>)
    requires
        s.len() > 0,
        !is_ws(s[0]),
    ensures
        split_ws(s).len() >= 1,
    decreases s.len(),
{
    if s.len() > 1 && !is_ws(s[1]) {
        assert(s.drop_first()[0] == s[1]);
        lemma_split_ws_len(s.drop_first());
    }
}

/// A whitespace-free, non-empty piece followed by nothing or by whitespace
/// splits off as one whole token.
pub(crate) proof fn lemma_split_ws_token(t: Seq<char>, r: Seq<char>)
    requires
        t.len() > 0,
        forall|k: int| 0 <= k < t.len() ==> !is_ws(#[trigger] t[k]),
        r.len() == 0 || is_ws(r[0]),
    ensures
        split_ws(t + r) == seq![t] + split_ws(r),
    decreases t.len(),
{
    let s = t + r;
    assert(s[0] == t[0]);
    if t.len() == 1 {
        if r.len() == 0 {
            assert(s =~= seq![t[0]]);
            assert(seq![s[0]] =~= t);
            assert(split_ws(s.drop_first()) =~= Seq::<Seq<char>>::empty());
            assert(split_ws(r) =~= Seq::<Seq<char>>::empty());
            assert(split_ws(s) =~= seq![t] + split_ws(r));
        } else {
            assert(s.len() > 1 && is_ws(s[1]));
            assert(s.drop_first() =~= r);
            assert(seq![s[0]] =~= t);
            assert(split_ws(s) =~= seq![t] + split_ws(r));
        }
    } else {
        assert(s[1] == t[1]);
        assert(s.len() > 1 && !is_ws(s[1]));
        assert(s.drop_first() =~= t.drop_first() + r);
        lemma_split_ws_token(t.drop_first(), r);
        let rest = split_ws(s.drop_first());
        assert(rest == seq![t.drop_first()] + split_ws(r));
        assert(rest[0] == t.drop_first());
        assert(split_ws(s) == rest.update(0, seq![s[0]] + rest[0]));
        assert(seq![s[0]] + t.drop_first() =~= t);
        assert(split_ws(s) =~= seq![t] + split_ws(r));
    }
}

/// Appending a non-`/` character extends the last piece of the split.
pub(crate) proof fn lemma_split_slash_push(s: Seq<char>, c: char)
    requires
        c != '/',
    ensures
        split_slash(s.push(c)) == split_slash(s).update(
            split_slash(s).len() - 1,
            split_slash(s).last().push(c),
        ),
    decreases s.len(),
{
    lemma_split_slash_len(s);
    let r = split_slash(s);
    let rp = split_slash(s.push(c));
    if s.len() == 0 {
        assert(s.push(c) =~= seq![c]);
        assert(s.push(c)[0] == c);
        assert(s.push(c).drop_first() =~= Seq::<char>::empty());
        assert(split_slash(Seq::<char>::empty()) == seq![Seq::<char>::empty()]);
        assert(rp =~= r.update(r.len() - 1, r.last().push(c)));
    } else {
        assert(s.push(c)[0] == s[0]);
        assert(s.push(c).drop_first() =~= s.drop_first().push(c));
        lemma_split_slash_push(s.drop_first(), c);
        lemma_split_slash_len(s.drop_first());
        let q = split_slash(s.drop_first());
        let qp = split_slash(s.drop_first().push(c));
        if s[0] == '/' {
            assert(rp == seq![Seq::<char>::empty()] + qp);
            assert(rp =~= r.update(r.len() - 1, r.last().push(c)));
        } else {
            assert(rp == qp.update(0, seq![s[0]] + qp[0]));
            if q.len() == 1 {
                assert(qp[0] == q[0].push(c));
                assert(seq![s[0]] + q[0].push(c) =~= (seq![s[0]] + q[0]).push(c));
                assert(rp =~= r.update(r.len() - 1, r.last().push(c)));
            } else {
                assert(qp[0] == q[0]);
                assert(rp =~= r.update(r.len() - 1, r.last().push(c)));
            }
        }
    }
}

/// Appending trailing whitespace leaves the token split unchanged.
pub(crate) proof fn lemma_split_ws_push_ws(s: Seq<char>, w: char)
    requires
        is_ws(w),
    ensures
        split_ws(s.push(w)) == split_ws(s),
    decreases s.len(),
{
    if s.len() == 0 {
        assert(s.push(w) =~= seq![w]);
        assert(s.push(w).drop_first() =~= Seq::<char>::empty());
        assert(split_ws(Seq::<char>::empty()) =~= Seq::<Seq<char>>::empty());
        assert(split_ws(s.push(w)) =~= split_ws(s));
    } else {
        assert(s.push(w)[0] == s[0]);
        assert(s.push(w).drop_first() =~= s.drop_first().push(w));
        lemma_split_ws_push_ws(s.drop_first(), w);
        if is_ws(s[0]) {
        } else if s.len() > 1 {
            assert(s.push(w)[1] == s[1]);
            if !is_ws(s[1]) {
                lemma_split_ws_len(s.drop_first());
            }
        } else {
            assert(s.push(w)[1] == w);
            assert(s.drop_first() =~= Seq::<char>::empty());
            assert(split_ws(s.push(w)) =~= split_ws(s));
        }
    }
}

/// Every token of the whitespace split is non-empty, whitespace-free, and
/// made of characters of the input.
pub(crate) proof fn lemma_split_ws_chars(s: Seq<char>)
    ensures
        forall|j: int, k: int|
            0 <= j < split_ws(s).len() && 0 <= k < (#[trigger] split_ws(s)[j]).len() ==> {
                &&& !is_ws(#[trigger] split_ws(s)[j][k])
                &&& s.contains(split_ws(s)[j][k])
            },
        forall|j: int| 0 <= j < split_ws(s).len() ==> (#[trigger] split_ws(s)[j]).len() > 0,
    decreases s.len(),
{
    if s.len() == 0 {
    } else {
        lemma_split_ws_chars(s.drop_first());
        assert(forall|x: int|
            0 <= x < s.drop_first().len() ==> s.contains(#[trigger] s.drop_first()[x]));
        if is_ws(s[0]) {
        } else if s.len() > 1 && !is_ws(s[1]) {
            let rest = split_ws(s.drop_first());
            lemma_split_ws_len(s.drop_first());
            let r = split_ws(s);
            assert(r == rest.update(0, seq![s[0]] + rest[0]));
            assert(forall|k: int|
                0 <= k < (seq![s[0]] + rest[0]).len() ==> !is_ws(#[trigger] (seq![s[0]]
                    + rest[0])[k]) && s.contains((seq![s[0]] + rest[0])[k]));
        } else {
            assert(s.contains(s[0]));
        }
    }
}

/// For text in single-space form — whitespace only as single spaces with
/// non-space neighbours — splitting at whitespace and joining with single
/// spaces gives the text back, and trimming changes nothing.
pub(crate) proof fn lemma_join_split_ws_id(t: Seq<char>)
    requires
        forall|k: int| 0 <= k < t.len() && is_ws(#[trigger] t[k]) ==> t[k] == ' ',
        forall|k: int|
            0 <= k < t.len() && #[trigger] t[k] == ' ' ==> 0 < k < t.len() - 1 && t[k - 1] != ' '
                && t[k + 1] != ' ',
    ensures
        join(split_ws(t), seq![' ']) == t,
        trim(t) == t,
    decreases t.len(),
{
    if t.len() == 0 {
        assert(join(split_ws(t), seq![' ']) =~= t);
        assert(trim(t) == t);
    } else {
        assert(!is_ws(t[0]));
        assert(!is_ws(t.last()));
        assert(trim_front(t) == t);
        assert(trim_back(t) == t);
        if t.len() == 1 {
            assert(t.drop_first() =~= Seq::<char>::empty());
            assert(split_ws(Seq::<char>::empty()) =~= Seq::<Seq<char>>::empty());
            assert(split_ws(t) =~= seq![seq![t[0]]]);
            assert(join(split_ws(t), seq![' ']) =~= t);
        } else if !is_ws(t[1]) {
            let u = t.drop_first();
            assert(forall|k: int| 0 <= k < u.len() && is_ws(#[trigger] u[k]) ==> u[k] == ' ');
            assert(forall|k: int|
                0 <= k < u.len() && #[trigger] u[k] == ' ' ==> 0 < k < u.len() - 1 && u[k - 1]
                    != ' ' && u[k + 1] != ' ') by {
                assert(forall|k: int|
                    0 <= k < u.len() ==> #[trigger] u[k] == t[k + 1] && (0 <= k + 1 < t.len()));
            }
            lemma_join_split_ws_id(u);
            lemma_split_ws_len(u);
            let rest = split_ws(u);
            assert(split_ws(t) == rest.update(0, seq![t[0]] + rest[0]));
            if rest.len() == 1 {
                assert(join(split_ws(t), seq![' ']) == seq![t[0]] + rest[0]);
                assert(join(rest, seq![' ']) == rest[0]);
                assert(seq![t[0]] + rest[0] =~= t);
            } else {
                assert(split_ws(t).len() == rest.len());
                assert(split_ws(t)[0] == seq![t[0]] + rest[0]);
                assert(split_ws(t).drop_first() =~= rest.drop_first());
                assert(join(split_ws(t), seq![' ']) == split_ws(t)[0] + seq![' '] + join(
                    split_ws(t).drop_first(),
                    seq![' '],
                ));
                assert(join(rest, seq![' ']) == rest[0] + seq![' '] + join(
                    rest.drop_first(),
                    seq![' '],
                ));
                assert((seq![t[0]] + rest[0]) + seq![' '] + join(rest.drop_first(), seq![' '])
                    =~= seq![t[0]] + (rest[0] + seq![' '] + join(rest.drop_first(), seq![' '])));
                assert(seq![t[0]] + u =~= t);
            }
        } else {
            assert(t[1] == ' ');
            assert(t.len() >= 3);
            assert(t[2] != ' ');
            assert(!is_ws(t[2]));
            let u = t.drop_first().drop_first();
            assert(u =~= t.subrange(2, t.len() as int));
            assert(forall|k: int|
                0 <= k < u.len() ==> #[trigger] u[k] == t[k + 2] && (0 <= k + 2 < t.len()));
            assert(forall|k: int| 0 <= k < u.len() && is_ws(#[trigger] u[k]) ==> u[k] == ' ');
            assert(forall|k: int|
                0 <= k < u.len() && #[trigger] u[k] == ' ' ==> 0 < k < u.len() - 1 && u[k - 1]
                    != ' ' && u[k + 1] != ' ');
            lemma_join_split_ws_id(u);
            assert(u.len() > 0 && !is_ws(u[0]));
            lemma_split_ws_len(u);
            assert(split_ws(t) == seq![seq![t[0]]] + split_ws(t.drop_first()));
            assert(t.drop_first()[0] == ' ');
            assert(split_ws(t.drop_first()) == split_ws(u));
            let rest = split_ws(u);
            let whole = seq![seq![t[0]]] + rest;
            assert(whole.len() >= 2);
            assert(whole[0] == seq![t[0]]);
            assert(whole.drop_first() =~= rest);
            assert(join(whole, seq![' ']) == seq![t[0]] + seq![' '] + join(rest, seq![' ']));
            assert(seq![t[0]] + seq![' '] + u =~= t);
        }
    }
}

pub(crate) proof fn lemma_join_push(parts: Seq<Seq<char>>, sep: Seq<char>, p: Seq<char>)
    ensures
        join(parts.push(p), sep) == if parts.len() == 0 {
            p
        } else {
            join(parts, sep) + sep + p
        },
    decreases parts.len(),
{
    if parts.len() == 0 {
        assert(parts.push(p) =~= seq![p]);
    } else if parts.len() == 1 {
        assert(parts.push(p).drop_first() =~= seq![p]);
        assert(join(seq![p], sep) == p);
        assert(parts.push(p)[0] == parts[0]);
        assert(join(parts.push(p), sep) == parts[0] + sep + p);
    } else {
        assert(parts.push(p).drop_first() =~= parts.drop_first().push(p));
        lemma_join_push(parts.drop_first(), sep, p);
        assert(join(parts.push(p), sep) =~= join(parts, sep) + sep + p);
    }
}

/// The characters of a string, in order, as a vector.
pub(crate) fn chars_of(s: &str) -> (v: Vec<char>)
    ensures
        v@ == s@,
{
    let n: usize = s.unicode_len();
    let mut v: Vec<char> = Vec::new();
    let mut i: usize = 0;
    while i < n
        invariant
            i <= n,
            n == s@.len(),
            v@ == s@.take(i as int),
        decreases n - i,
    {
        let c = s.get_char(i);
        v.push(c);
        assert(s@.take(i as int).push(s@[i as int]) =~= s@.take(i as int + 1));
        i = i + 1;
    }
    assert(s@.take(n as int) =~= s@);
    v
}

/// The bounds of the whitespace-trimmed middle of `v`.
pub(crate) fn trim_bounds(v: &Vec<char>) -> (r: (usize, usize))
    ensures
        r.0 <= r.1 <= v@.len(),
        trim(v@) == v@.subrange(r.0 as int, r.1 as int),
{
    let n: usize = v.len();
    let mut lo: usize = 0;
    assert(v@.subrange(0, n as int) =~= v@);
    while lo < n && is_ws_char(v[lo])
        invariant
            lo <= n,
            trim_front(v@) == trim_front(v@.subrange(lo as int, n as int)),
        decreases n - lo,
    {
        assert(v@.subrange(lo as int, n as int).drop_first() =~= v@.subrange(
            lo as int + 1,
            n as int,
        ));
        lo = lo + 1;
    }
    assert(trim_front(v@) == v@.subrange(lo as int, n as int));
    let mut hi: usize = n;
    while hi > lo && is_ws_char(v[hi - 1])
        invariant
            lo <= hi <= n,
            trim_back(v@.subrange(lo as int, n as int)) == trim_back(
                v@.subrange(lo as int, hi as int),
            ),
        decreases hi,
    {
        assert(v@.subrange(lo as int, hi as int).drop_last() =~= v@.subrange(
            lo as int,
            hi as int - 1,
        ));
        hi = hi - 1;
    }
    assert(trim_back(v@.subrange(lo as int, hi as int)) == v@.subrange(lo as int, hi as int));
    (lo, hi)
}

/// The pieces of `v[lo..hi]` between the `/` characters, in order.
pub(crate) fn split_slash_exec(v: &Vec<char>, lo: usize, hi: usize) -> (frags: Vec<Vec<char>>)
    requires
        lo <= hi <= v@.len(),
    ensures
        frags@.map_values(|f: Vec<char>| f@) == split_slash(v@.subrange(lo as int, hi as int)),
{
    let ghost t = v@.subrange(lo as int, hi as int);
    let mut frags: Vec<Vec<char>> = Vec::new();
    let mut cur: Vec<char> = Vec::new();
    let mut i: usize = lo;
    proof {
        assert(cur@ + v@.subrange(lo as int, hi as int) =~= t);
        assert(frags@.map_values(|f: Vec<char>| f@) =~= Seq::<Seq<char>>::empty());
    }
    while i < hi
        invariant
            lo <= i <= hi,
            forall|k: int| 0 <= k < cur@.len() ==> #[trigger] cur@[k] != '/',
            split_slash(t) == frags@.map_values(|f: Vec<char>| f@) + split_slash(
                cur@ + v@.subrange(i as int, hi as int),
            ),
        decreases hi - i,
    {
        let c = v[i];
        proof {
            assert(v@.subrange(i as int, hi as int) =~= seq![v@[i as int]] + v@.subrange(
                i as int + 1,
                hi as int,
            ));
        }
        if c == '/' {
            proof {
                lemma_split_slash_append(cur@, v@.subrange(i as int + 1, hi as int));
                assert(cur@ + v@.subrange(i as int, hi as int) =~= cur@ + seq!['/']
                    + v@.subrange(i as int + 1, hi as int));
            }
            let ghost fv = frags@;
            let ghost cv = cur@;
            frags.push(cur);
            cur = Vec::new();
            proof {
                assert(frags@.map_values(|f: Vec<char>| f@) =~= fv.map_values(
                    |f: Vec<char>| f@,
                ).push(cv));
                assert(fv.map_values(|f: Vec<char>| f@) + (seq![cv] + split_slash(
                    v@.subrange(i as int + 1, hi as int),
                )) =~= frags@.map_values(|f: Vec<char>| f@) + split_slash(
                    v@.subrange(i as int + 1, hi as int),
                ));
                assert(cur@ + v@.subrange(i as int + 1, hi as int) =~= v@.subrange(
                    i as int + 1,
                    hi as int,
                ));
            }
        } else {
            let ghost cv = cur@;
            cur.push(c);
            proof {
                assert(cv + v@.subrange(i as int, hi as int) =~= cur@ + v@.subrange(
                    i as int + 1,
                    hi as int,
                ));
            }
        }
        i = i + 1;
    }
    proof {
        assert(cur@ + v@.subrange(i as int, hi as int) =~= cur@);
        lemma_split_slash_no_slash(cur@);
    }
    let ghost fv = frags@;
    let ghost cv = cur@;
    frags.push(cur);
    proof {
        assert(frags@.map_values(|f: Vec<char>| f@) =~= fv.map_values(|f: Vec<char>| f@).push(cv));
        assert(fv.map_values(|f: Vec<char>| f@) + seq![cv] =~= frags@.map_values(
            |f: Vec<char>| f@,
        ));
    }
    frags
}

/// The whitespace-separated tokens of `v`, in order; never empty tokens.
pub(crate) fn split_ws_exec(v: &Vec<char>) -> (toks: Vec<Vec<char>>)
    ensures
        toks@.map_values(|t: Vec<char>| t@) == split_ws(v@),
{
    let n: usize = v.len();
    let mut toks: Vec<Vec<char>> = Vec::new();
    let mut cur: Vec<char> = Vec::new();
    let mut i: usize = 0;
    proof {
        assert(cur@ + v@.subrange(0, n as int) =~= v@);
        assert(toks@.map_values(|t: Vec<char>| t@) =~= Seq::<Seq<char>>::empty());
    }
    while i < n
        invariant
            i <= n,
            forall|k: int| 0 <= k < cur@.len() ==> !is_ws(#[trigger] cur@[k]),
            split_ws(v@) == toks@.map_values(|t: Vec<char>| t@) + split_ws(
                cur@ + v@.subrange(i as int, n as int),
            ),
        decreases n - i,
    {
        let c = v[i];
        proof {
            assert(v@.subrange(i as int, n as int) =~= seq![v@[i as int]] + v@.subrange(
                i as int + 1,
                n as int,
            ));
        }
        if is_ws_char(c) {
            proof {
                assert(v@.subrange(i as int, n as int).drop_first() =~= v@.subrange(
                    i as int + 1,
                    n as int,
                ));
                assert(split_ws(v@.subrange(i as int, n as int)) == split_ws(
                    v@.subrange(i as int + 1, n as int),
                ));
            }
            if cur.len() > 0 {
                proof {
                    lemma_split_ws_token(cur@, v@.subrange(i as int, n as int));
                }
                let ghost tv = toks@;
                let ghost cv = cur@;
                toks.push(cur);
                cur = Vec::new();
                proof {
                    assert(toks@.map_values(|t: Vec<char>| t@) =~= tv.map_values(
                        |t: Vec<char>| t@,
                    ).push(cv));
                    assert(tv.map_values(|t: Vec<char>| t@) + (seq![cv] + split_ws(
                        v@.subrange(i as int + 1, n as int),
                    )) =~= toks@.map_values(|t: Vec<char>| t@) + split_ws(
                        v@.subrange(i as int + 1, n as int),
                    ));
                    assert(cur@ + v@.subrange(i as int + 1, n as int) =~= v@.subrange(
                        i as int + 1,
                        n as int,
                    ));
                }
            } else {
                proof {
                    assert(cur@ + v@.subrange(i as int, n as int) =~= v@.subrange(
                        i as int,
                        n as int,
                    ));
                    assert(cur@ + v@.subrange(i as int + 1, n as int) =~= v@.subrange(
                        i as int + 1,
                        n as int,
                    ));
                }
            }
        } else {
            let ghost cv = cur@;
            cur.push(c);
            proof {
                assert(cv + v@.subrange(i as int, n as int) =~= cur@ + v@.subrange(
                    i as int + 1,
                    n as int,
                ));
            }
        }
        i = i + 1;
    }
    proof {
        assert(cur@ + v@.subrange(i as int, n as int) =~= cur@);
    }
    if cur.len() > 0 {
        proof {
            lemma_split_ws_token(cur@, Seq::<char>::empty());
            assert(cur@ + Seq::<char>::empty() =~= cur@);
            assert(split_ws(Seq::<char>::empty()) =~= Seq::<Seq<char>>::empty());
        }
        let ghost tv = toks@;
        let ghost cv = cur@;
        toks.push(cur);
        proof {
            assert(toks@.map_values(|t: Vec<char>| t@) =~= tv.map_values(
                |t: Vec<char>| t@,
            ).push(cv));
            assert(tv.map_values(|t: Vec<char>| t@) + seq![cv] =~= toks@.map_values(
                |t: Vec<char>| t@,
            ));
        }
    } else {
        proof {
            assert(split_ws(cur@) =~= Seq::<Seq<char>>::empty());
            assert(toks@.map_values(|t: Vec<char>| t@) + Seq::<Seq<char>>::empty()
                =~= toks@.map_values(|t: Vec<char>| t@));
        }
    }
    toks
}

/// The characters `v[lo..hi]` as a string.
pub(crate) fn string_of_range(v: &Vec<char>, lo: usize, hi: usize) -> (s: String)
    requires
        lo <= hi <= v@.len(),
    ensures
        s@ == v@.subrange(lo as int, hi as int),
{
    let mut s = String::new();
    let mut i: usize = lo;
    proof {
        assert(s@ =~= v@.subrange(lo as int, lo as int));
    }
    while i < hi
        invariant
            lo <= i <= hi,
            s@ == v@.subrange(lo as int, i as int),
        decreases hi - i,
    {
        push_char(&mut s, v[i]);
        proof {
            assert(v@.subrange(lo as int, i as int) + seq![v@[i as int]] =~= v@.subrange(
                lo as int,
                i as int + 1,
            ));
        }
        i = i + 1;
    }
    s
}

/// The decimal digit `d` as a character.
pub open spec fn spec_digit(d: nat) -> char {
    if d == 0 {
        '0'
    } else if d == 1 {
        '1'
    } else if d == 2 {
        '2'
    } else if d == 3 {
        '3'
    } else if d == 4 {
        '4'
    } else if d == 5 {
        '5'
    } else if d == 6 {
        '6'
    } else if d == 7 {
        '7'
    } else if d == 8 {
        '8'
    } else {
        '9'
    }
}

/// The decimal numeral of `n`, most significant digit first.
pub open spec fn dec_rep(n: nat) -> Seq<char>
    decreases n,
{
    if n < 10 {
        seq![spec_digit(n)]
    } else {
        dec_rep(n / 10) + seq![spec_digit(n % 10)]
    }
}

fn digit_char(d: usize) -> (c: char)
    requires
        d < 10,
    ensures
        c == spec_digit(d as nat),
{
    match d {
        0 => '0',
        1 => '1',
        2 => '2',
        3 => '3',
        4 => '4',
        5 => '5',
        6 => '6',
        7 => '7',
        8 => '8',
        _ => '9',
    }
}

/// Appends the decimal numeral of `n` to `s`.
pub(crate) fn push_decimal(s: &mut String, n: usize)
    ensures
        final(s)@ == old(s)@ + dec_rep(n as nat),
    decreases n,
{
    if n < 10 {
        push_char(s, digit_char(n));
    } else {
        push_decimal(s, n / 10);
        push_char(s, digit_char(n % 10));
        assert(old(s)@ + dec_rep((n / 10) as nat) + seq![spec_digit((n % 10) as nat)] =~= old(
            s,
        )@ + dec_rep(n as nat));
    }
}

/// Relies on `String::push`: it appends the given character to the end of
/// the string.
#[verifier::external_body]
pub(crate) fn push_char(s: &mut String, c: char)
    ensures
        final(s)@ == old(s)@ + seq![c],
{
    s.push(c);
}

/// What `str::to_lowercase` returns: a pure function of the characters alone.
pub uninterp spec fn lower_of(s: Seq<char>) -> Seq<char>;

/// Relies on `str::to_lowercase`: Unicode-aware lowercasing whose result
/// depends only on the characters of the input, and an empty string stays
/// empty.
#[verifier::external_body]
pub(crate) fn lowercase(s: &str) -> (r: String)
    ensures
        r@ == lower_of(s@),
        s@.len() == 0 ==> r@.len() == 0,
{
    s.to_lowercase()
}

} // verus!
