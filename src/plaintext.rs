use crate::cookies::{cookies_from_pairs, pairs_view, CookieView, Cookies};
use vstd::prelude::*;
use vstd::string::StrSliceExecFns;

verus! {

/// The pieces of `s` between `;` separators, in order; there is always at
/// least one, possibly empty.
pub open spec fn pieces(s: Seq<char>) -> Seq<Seq<char>>
    decreases s.len(),
{
    if s.len() == 0 {
        seq![Seq::empty()]
    } else {
        let p = pieces(s.drop_last());
        if s.last() == ';' {
            p.push(Seq::empty())
        } else {
            p.update(p.len() - 1, p.last().push(s.last()))
        }
    }
}

/// `p` without its leading spaces.
pub open spec fn trim_leading_spaces(p: Seq<char>) -> Seq<char>
    decreases p.len(),
{
    if p.len() > 0 && p[0] == ' ' {
        trim_leading_spaces(p.skip(1))
    } else {
        p
    }
}

/// `k` is the position of the first `=` in `t`.
pub open spec fn is_first_eq(t: Seq<char>, k: int) -> bool {
    0 <= k < t.len() && t[k] == '=' && forall|j: int| 0 <= j < k ==> t[j] != '='
}

/// The `(name, value)` of one piece: its leading spaces dropped, split at the
/// first `=`; `None` where the piece holds no `=`.
pub open spec fn piece_pair(p: Seq<char>) -> Option<(Seq<char>, Seq<char>)> {
    let t = trim_leading_spaces(p);
    if exists|k: int| is_first_eq(t, k) {
        let k = choose|k: int| is_first_eq(t, k);
        Some((t.take(k), t.skip(k + 1)))
    } else {
        None
    }
}

/// The pairs of the pieces that hold a `=`, in order.
pub open spec fn pairs_of_pieces(ps: Seq<Seq<char>>) -> Seq<(Seq<char>, Seq<char>)>
    decreases ps.len(),
{
    if ps.len() == 0 {
        Seq::empty()
    } else {
        let prev = pairs_of_pieces(ps.drop_last());
        match piece_pair(ps.last()) {
            Some(pr) => prev.push(pr),
            None => prev,
        }
    }
}

/// The cookies that a plaintext override such as `a=1; b=2` gives for `host`.
pub open spec fn override_cookies(raw: Seq<char>, host: Seq<char>) -> Seq<CookieView> {
    pairs_of_pieces(pieces(raw)).map_values(
        |pr: (Seq<char>, Seq<char>)| CookieView { name: pr.0, value: pr.1, domain: host },
    )
}

/// The pieces of `s` that `ranges` mark, in order.
pub open spec fn ranged(s: Seq<char>, ranges: Seq<(usize, usize)>) -> Seq<Seq<char>> {
    ranges.map_values(|r: (usize, usize)| s.subrange(r.0 as int, r.1 as int))
}

/// Splits `raw` at its `;` separators, as ranges of character positions.
fn split_pieces(raw: &str) -> (r: Vec<(usize, usize)>)
    ensures
        ranged(raw@, r@) == pieces(raw@),
        forall|j: int| 0 <= j < r@.len() ==> #[trigger] r@[j].0 <= r@[j].1 <= raw@.len(),
{
    let n = raw.unicode_len();
    let mut done: Vec<(usize, usize)> = Vec::new();
    let mut cur: usize = 0;
    let mut i: usize = 0;
    assert(raw@.take(0) =~= Seq::<char>::empty());
    assert(ranged(raw@, done@).push(raw@.subrange(0, 0)) =~= pieces(raw@.take(0)));
    while i < n
        invariant
            n == raw@.len(),
            cur <= i <= n,
            forall|j: int| 0 <= j < done@.len() ==> #[trigger] done@[j].0 <= done@[j].1 <= i,
            ranged(raw@, done@).push(raw@.subrange(cur as int, i as int)) == pieces(raw@.take(i as int)),
        decreases n - i,
    {
        let c = raw.get_char(i);
        assert(raw@.take(i + 1).drop_last() =~= raw@.take(i as int));
        assert(raw@.take(i + 1).last() == c);
        let ghost before = ranged(raw@, done@);
        let ghost old_done = done@;
        if c == ';' {
            done.push((cur, i));
            assert forall|j: int| 0 <= j < done@.len() implies #[trigger] done@[j].0 <= done@[j].1 <= i + 1 by {
                if j < old_done.len() {
                    assert(done@[j] == old_done[j]);
                }
            }
            cur = i + 1;
            assert(ranged(raw@, done@) =~= before.push(raw@.subrange(done@.last().0 as int, i as int)));
            assert(raw@.subrange(cur as int, i + 1) =~= Seq::<char>::empty());
        } else {
            assert(ranged(raw@, done@) =~= before);
            assert(raw@.subrange(cur as int, i + 1) =~= raw@.subrange(cur as int, i as int).push(c));
        }
        assert(ranged(raw@, done@).push(raw@.subrange(cur as int, i + 1)) =~= pieces(raw@.take(i + 1)));
        i = i + 1;
    }
    assert(raw@.take(i as int) =~= raw@);
    let ghost before = ranged(raw@, done@);
    done.push((cur, n));
    assert(ranged(raw@, done@) =~= before.push(raw@.subrange(cur as int, n as int)));
    done
}

/// The pair of the piece of `raw` from `from` to `to`, as `piece_pair` states
/// it.
fn split_piece(raw: &str, from: usize, to: usize) -> (r: Option<(String, String)>)
    requires
        from <= to <= raw@.len(),
    ensures
        r matches Some(pr) ==> piece_pair(raw@.subrange(from as int, to as int)) == Some((pr.0@, pr.1@)),
        r is None ==> piece_pair(raw@.subrange(from as int, to as int)) is None,
{
    let ghost p = raw@.subrange(from as int, to as int);
    let mut start: usize = from;
    assert(p.skip(0) =~= p);
    while start < to && raw.get_char(start) == ' '
        invariant
            from <= start <= to,
            to <= raw@.len(),
            p == raw@.subrange(from as int, to as int),
            trim_leading_spaces(p) == trim_leading_spaces(p.skip(start - from)),
        decreases to - start,
    {
        assert(p.skip(start - from).skip(1) =~= p.skip(start - from + 1));
        start = start + 1;
    }
    let ghost t = p.skip(start - from);
    assert(trim_leading_spaces(t) == t);
    let mut k: usize = start;
    while k < to && raw.get_char(k) != '='
        invariant
            from <= start <= k <= to,
            to <= raw@.len(),
            p == raw@.subrange(from as int, to as int),
            t == p.skip(start - from),
            forall|j: int| 0 <= j < k - start ==> t[j] != '=',
        decreases to - k,
    {
        assert(p[k - from] == raw@[k as int]);
        assert(t[k - start] == p[k - from]);
        k = k + 1;
    }
    if k == to {
        assert forall|m: int| !is_first_eq(t, m) by {
            if 0 <= m < t.len() {
                assert(t[m] != '=');
            }
        }
        None
    } else {
        let ghost e = k - start;
        assert(p[k - from] == raw@[k as int]);
        assert(t[e] == p[k - from]);
        assert(is_first_eq(t, e));
        let ghost c = choose|m: int| is_first_eq(t, m);
        assert(c == e) by {
            if c < e {
                assert(t[c] != '=');
            } else if e < c {
                assert(t[e] != '=');
            }
        }
        let name = raw.substring_char(start, k).to_owned();
        let value = raw.substring_char(k + 1, to).to_owned();
        assert(name@ =~= t.take(e));
        assert(value@ =~= t.skip(e + 1));
        Some((name, value))
    }
}

/// Parses a plaintext override such as `a=1; b=2` into the cookies of
/// `host_key`: pieces are separated by `;`, lose their leading spaces and
/// are split at their first `=`; a piece without `=` is skipped. Nothing is
/// decrypted.
pub fn parse_cookies(raw: &str, host_key: &str) -> (r: Cookies)
    ensures
        r@ == override_cookies(raw@, host_key@),
{
    let ranges = split_pieces(raw);
    let ghost pv = ranged(raw@, ranges@);
    let mut pairs: Vec<(String, String)> = Vec::new();
    let mut i: usize = 0;
    assert(pv.take(0) =~= Seq::<Seq<char>>::empty());
    assert(pairs@.map_values(|q: (String, String)| (q.0@, q.1@)) =~= pairs_of_pieces(pv.take(0)));
    while i < ranges.len()
        invariant
            i <= ranges@.len(),
            pv == ranged(raw@, ranges@),
            pv == pieces(raw@),
            forall|j: int| 0 <= j < ranges@.len() ==> #[trigger] ranges@[j].0 <= ranges@[j].1 <= raw@.len(),
            pairs@.map_values(|q: (String, String)| (q.0@, q.1@)) == pairs_of_pieces(pv.take(i as int)),
        decreases ranges@.len() - i,
    {
        let (from, to) = ranges[i];
        assert(pv.take(i + 1).drop_last() =~= pv.take(i as int));
        assert(pv.take(i + 1).last() == raw@.subrange(from as int, to as int));
        let ghost before = pairs@.map_values(|q: (String, String)| (q.0@, q.1@));
        match split_piece(raw, from, to) {
            Some(pr) => {
                let ghost v = (pr.0@, pr.1@);
                pairs.push(pr);
                assert(pairs@.map_values(|q: (String, String)| (q.0@, q.1@)) =~= before.push(v));
            },
            None => {},
        }
        i = i + 1;
    }
    assert(pv.take(i as int) =~= pv);
    let ghost pairs_seq = pairs@;
    let r = cookies_from_pairs(pairs, host_key);
    assert(pairs_view(pairs_seq, host_key@) =~= override_cookies(raw@, host_key@)) by {
        assert(pairs_seq.map_values(|q: (String, String)| (q.0@, q.1@)) == pairs_of_pieces(pieces(raw@)));
        assert forall|j: int| 0 <= j < pairs_seq.len() implies
            pairs_view(pairs_seq, host_key@)[j] == override_cookies(raw@, host_key@)[j] by {
            assert(pairs_seq.map_values(|q: (String, String)| (q.0@, q.1@))[j] == (pairs_seq[j].0@, pairs_seq[j].1@));
        }
    }
    r
}

} // verus!
