use vstd::prelude::*;
use vstd::string::*;

verus! {

/// Index of the last `/` in `p`, or `-1` if none occurs.
pub open spec fn last_slash_idx(p: Seq<char>) -> int
    decreases p.len(),
{
    if p.len() == 0 {
        -1
    } else if p.last() == '/' {
        p.len() - 1
    } else {
        last_slash_idx(p.drop_last())
    }
}

/// The final name component of a canonical path: everything after the last
/// `/`, or the whole path if it has none. `None` when that would be empty
/// (the filesystem root, or the empty path).
pub open spec fn file_name_spec(p: Seq<char>) -> Option<Seq<char>> {
    let k = last_slash_idx(p);
    if k + 1 == p.len() {
        None
    } else {
        Some(p.subrange(k + 1, p.len() as int))
    }
}

/// `last_slash_idx` finds a `/` and nothing after it is a `/`.
pub proof fn lemma_last_slash_idx(p: Seq<char>)
    ensures
        -1 <= last_slash_idx(p) < p.len(),
        last_slash_idx(p) >= 0 ==> p[last_slash_idx(p)] == '/',
        forall|j: int| last_slash_idx(p) < j < p.len() ==> p[j] != '/',
    decreases p.len(),
{
    if p.len() > 0 && p.last() != '/' {
        lemma_last_slash_idx(p.drop_last());
        assert(forall|j: int|
            0 <= j < p.len() - 1 ==> p[j] == p.drop_last()[j]);
    }
}

/// The name component of a canonical path, or `None` when it has none
/// (e.g. the filesystem root).
pub fn file_name(p: &String) -> (r: Option<String>)
    ensures
        match r {
            Some(n) => file_name_spec(p@) == Some(n@),
            None => file_name_spec(p@) is None,
        },
{
    let s: &str = p.as_str();
    let n = s.unicode_len();
    let mut i: usize = 0;
    let mut last: Option<usize> = None;
    while i < n
        invariant
            n == p@.len(),
            s@ == p@,
            i <= n,
            match last {
                None => forall|j: int| 0 <= j < i ==> p@[j] != '/',
                Some(k) => k < i && p@[k as int] == '/'
                    && forall|j: int| k < j < i ==> p@[j] != '/',
            },
        decreases n - i,
    {
        if s.get_char(i) == '/' {
            last = Some(i);
        }
        i += 1;
    }
    proof {
        lemma_last_slash_idx(p@);
        let k = last_slash_idx(p@);
        match last {
            None => {
                assert(k == -1) by {
                    if k >= 0 {
                        assert(p@[k] != '/');
                    }
                }
            },
            Some(m) => {
                assert(k == m) by {
                    if k < m as int {
                        assert(p@[m as int] != '/');
                    }
                    if k > m as int {
                        assert(p@[k] != '/');
                    }
                }
            },
        }
    }
    let start: usize = match last {
        Some(k) => k + 1,
        None => 0,
    };
    if start == n {
        None
    } else {
        let sub: &str = s.substring_char(start, n);
        Some(String::from_str(sub))
    }
}

/// `dir` and `name` glued with a single `/`, as in joining a child name
/// onto a canonical, non-root directory path.
pub fn join(dir: &String, name: &String) -> (r: String)
    ensures
        r@ == dir@ + seq!['/'] + name@,
{
    let mut s = String::from_str(dir.as_str());
    s.append("/");
    s.append(name.as_str());
    proof {
        reveal_strlit("/");
        assert(("/")@ =~= seq!['/']);
        assert(s@ =~= dir@ + seq!['/'] + name@);
    }
    s
}

/// Whether `p` lies at or under the directory `pre`, where `pre` is a
/// canonical path that is not the filesystem root: either the two are
/// equal, or `p` continues `pre` with a `/`.
pub open spec fn is_path_prefix(p: Seq<char>, pre: Seq<char>) -> bool {
    ||| p == pre
    ||| (p.len() > pre.len() && p.subrange(0, pre.len() as int) == pre
        && p[pre.len() as int] == '/')
}

/// Component-wise path-prefix test (`pre` canonical, not the root).
pub fn path_starts_with(p: &String, pre: &String) -> (r: bool)
    ensures
        r == is_path_prefix(p@, pre@),
{
    let ps: &str = p.as_str();
    let qs: &str = pre.as_str();
    let n = ps.unicode_len();
    let m = qs.unicode_len();
    if n < m {
        proof {
            assert(!(p@ =~= pre@));
        }
        return false;
    }
    let mut j: usize = 0;
    while j < m
        invariant
            ps@ == p@,
            qs@ == pre@,
            n == p@.len(),
            m == pre@.len(),
            m <= n,
            j <= m,
            forall|t: int| 0 <= t < j ==> p@[t] == pre@[t],
        decreases m - j,
    {
        if ps.get_char(j) != qs.get_char(j) {
            proof {
                assert(p@[j as int] != pre@[j as int]);
                assert(p@ != pre@) by {
                    if p@ =~= pre@ {
                        assert(p@[j as int] == pre@[j as int]);
                    }
                }
                if p@.len() > pre@.len() && p@.subrange(0, pre@.len() as int) == pre@ {
                    assert(p@.subrange(0, pre@.len() as int)[j as int] == pre@[j as int]);
                }
            }
            return false;
        }
        j += 1;
    }
    if n == m {
        proof {
            assert(p@ =~= pre@);
        }
        true
    } else {
        let c = ps.get_char(m);
        proof {
            assert(p@.subrange(0, pre@.len() as int) =~= pre@);
        }
        c == '/'
    }
}

/// Lexicographic order on character sequences by code point; this is the
/// order `str` comparison gives, since UTF-8 byte order follows code-point
/// order.
pub open spec fn lex_le(a: Seq<char>, b: Seq<char>) -> bool
    decreases a.len(),
{
    if a.len() == 0 {
        true
    } else if b.len() == 0 {
        false
    } else if a[0] == b[0] {
        lex_le(a.drop_first(), b.drop_first())
    } else {
        (a[0] as u32) < (b[0] as u32)
    }
}

pub proof fn lemma_lex_le_total(a: Seq<char>, b: Seq<char>)
    ensures
        lex_le(a, b) || lex_le(b, a),
    decreases a.len(),
{
    if a.len() > 0 && b.len() > 0 {
        if a[0] == b[0] {
            lemma_lex_le_total(a.drop_first(), b.drop_first());
        } else {
            assert(a[0] as u32 != b[0] as u32) by {
                vstd::utf8::char_u32_cast(a[0], a[0] as u32);
                vstd::utf8::char_u32_cast(b[0], b[0] as u32);
            }
        }
    }
}

pub proof fn lemma_lex_le_trans(a: Seq<char>, b: Seq<char>, c: Seq<char>)
    requires
        lex_le(a, b),
        lex_le(b, c),
    ensures
        lex_le(a, c),
    decreases a.len(),
{
    if a.len() > 0 && b.len() > 0 && c.len() > 0 && a[0] == b[0] && b[0] == c[0] {
        lemma_lex_le_trans(a.drop_first(), b.drop_first(), c.drop_first());
    }
}

/// Dropping an equal prefix of both sides keeps the order.
pub proof fn lemma_lex_le_skip(a: Seq<char>, b: Seq<char>, i: int)
    requires
        0 <= i <= a.len(),
        i <= b.len(),
        forall|j: int| 0 <= j < i ==> a[j] == b[j],
    ensures
        lex_le(a, b) == lex_le(a.skip(i), b.skip(i)),
    decreases i,
{
    if i == 0 {
        assert(a.skip(0) =~= a);
        assert(b.skip(0) =~= b);
    } else {
        assert(a.len() > 0 && b.len() > 0 && a[0] == b[0]);
        assert(forall|j: int| 0 <= j < i - 1 ==> a.drop_first()[j] == b.drop_first()[j]);
        lemma_lex_le_skip(a.drop_first(), b.drop_first(), i - 1);
        assert(a.drop_first().skip(i - 1) =~= a.skip(i));
        assert(b.drop_first().skip(i - 1) =~= b.skip(i));
    }
}

pub proof fn lemma_lex_le_antisym(a: Seq<char>, b: Seq<char>)
    requires
        lex_le(a, b),
        lex_le(b, a),
    ensures
        a == b,
    decreases a.len(),
{
    if a.len() == 0 {
        assert(b.len() == 0);
        assert(a =~= b);
    } else {
        assert(b.len() > 0);
        if a[0] == b[0] {
            lemma_lex_le_antisym(a.drop_first(), b.drop_first());
            assert(a =~= b) by {
                assert(a.drop_first() == b.drop_first());
                assert(forall|i: int|
                    1 <= i < a.len() ==> a[i] == a.drop_first()[i - 1] && b[i] == b.drop_first()[
                        i - 1
                    ]);
            }
        } else {
            assert(false);
        }
    }
}

pub proof fn lemma_lex_le_refl(a: Seq<char>)
    ensures
        lex_le(a, a),
    decreases a.len(),
{
    if a.len() > 0 {
        lemma_lex_le_refl(a.drop_first());
    }
}

/// String comparison in the order of `lex_le`.
pub fn str_le(a: &String, b: &String) -> (r: bool)
    ensures
        r == lex_le(a@, b@),
{
    let sa: &str = a.as_str();
    let sb: &str = b.as_str();
    let n = sa.unicode_len();
    let m = sb.unicode_len();
    let mut i: usize = 0;
    while i < n && i < m
        invariant
            sa@ == a@,
            sb@ == b@,
            n == a@.len(),
            m == b@.len(),
            i <= n,
            i <= m,
            forall|j: int| 0 <= j < i ==> a@[j] == b@[j],
        decreases n - i,
    {
        let ca = sa.get_char(i);
        let cb = sb.get_char(i);
        if ca != cb {
            proof {
                lemma_lex_le_skip(a@, b@, i as int);
                assert(a@.skip(i as int)[0] == ca);
                assert(b@.skip(i as int)[0] == cb);
            }
            return (ca as u32) < (cb as u32);
        }
        i += 1;
    }
    proof {
        lemma_lex_le_skip(a@, b@, i as int);
        if i == n {
            assert(a@.skip(i as int).len() == 0);
        } else {
            assert(b@.skip(i as int).len() == 0);
            assert(a@.skip(i as int).len() > 0);
        }
    }
    n <= m
}

/// The character sequences of a sequence of strings.
pub open spec fn views(s: Seq<String>) -> Seq<Seq<char>> {
    s.map_values(|x: String| x@)
}

/// Non-decreasing in the order of `lex_le`.
pub open spec fn strings_sorted(s: Seq<String>) -> bool {
    forall|i: int, j: int| 0 <= i < j < s.len() ==> lex_le(s[i]@, s[j]@)
}

/// The order `lex_le` as a relation value.
pub open spec fn lex_leq() -> spec_fn(Seq<char>, Seq<char>) -> bool {
    |a: Seq<char>, b: Seq<char>| lex_le(a, b)
}

/// `lex_le` orders character sequences totally.
pub proof fn lemma_lex_total_ordering()
    ensures
        vstd::relations::total_ordering(lex_leq()),
{
    assert forall|a: Seq<char>| #[trigger] (lex_leq())(a, a) by {
        lemma_lex_le_refl(a);
    }
    assert forall|a: Seq<char>, b: Seq<char>|
        #[trigger] (lex_leq())(a, b) && #[trigger] (lex_leq())(b, a) implies a == b by {
        lemma_lex_le_antisym(a, b);
    }
    assert forall|a: Seq<char>, b: Seq<char>, c: Seq<char>|
        #[trigger] (lex_leq())(a, b) && #[trigger] (lex_leq())(b, c) implies (lex_leq())(
        a,
        c,
    ) by {
        lemma_lex_le_trans(a, b, c);
    }
    assert forall|a: Seq<char>, b: Seq<char>| #[trigger] (lex_leq())(a, b) || #[trigger] (
    lex_leq())(b, a) by {
        lemma_lex_le_total(a, b);
    }
}

/// A sorted snapshot is unique: any two sequences sorted by `lex_le` that
/// hold the same character sequences are equal. With the contract of
/// `sort_strings` this pins the sorted children list of a candidate down
/// to exactly one value.
pub proof fn lemma_sorted_views_unique(x: Seq<Seq<char>>, y: Seq<Seq<char>>)
    requires
        vstd::relations::sorted_by(x, lex_leq()),
        vstd::relations::sorted_by(y, lex_leq()),
        x.to_multiset() == y.to_multiset(),
    ensures
        x == y,
{
    lemma_lex_total_ordering();
    vstd::seq_lib::lemma_sorted_unique(x, y, lex_leq());
}

/// `strings_sorted` says of the strings what `sorted_by` with `lex_leq`
/// says of their character sequences.
pub proof fn lemma_strings_sorted_views(s: Seq<String>)
    ensures
        strings_sorted(s) == vstd::relations::sorted_by(views(s), lex_leq()),
{
    if strings_sorted(s) {
        assert forall|i: int, j: int| 0 <= i < j < views(s).len() implies #[trigger] (lex_leq())(
            views(s)[i],
            views(s)[j],
        ) by {
            assert(lex_le(s[i]@, s[j]@));
        }
    }
    if vstd::relations::sorted_by(views(s), lex_leq()) {
        assert forall|i: int, j: int| 0 <= i < j < s.len() implies lex_le(s[i]@, s[j]@) by {
            assert((lex_leq())(views(s)[i], views(s)[j]));
        }
    }
}

/// Sorts the strings in the order of `lex_le`; the result holds the same
/// strings, as a multiset of their character sequences.
pub fn sort_strings(v: Vec<String>) -> (r: Vec<String>)
    ensures
        strings_sorted(r@),
        views(r@).to_multiset() == views(v@).to_multiset(),
{
    broadcast use vstd::seq_lib::group_to_multiset_ensures;
    broadcast use vstd::multiset::group_multiset_axioms;

    let mut work = v;
    let mut out: Vec<String> = Vec::new();
    proof {
        assert(views(out@) =~= Seq::<Seq<char>>::empty());
        assert(views(out@).to_multiset().add(views(work@).to_multiset()) =~= views(
            v@,
        ).to_multiset());
    }
    while work.len() > 0
        invariant
            strings_sorted(out@),
            forall|i: int, j: int|
                0 <= i < out@.len() && 0 <= j < work@.len() ==> lex_le(out@[i]@, work@[j]@),
            views(out@).to_multiset().add(views(work@).to_multiset()) == views(v@).to_multiset(),
        decreases work.len(),
    {
        let ghost pre = work@;
        proof {
            lemma_lex_le_refl(pre[0]@);
        }
        let mut min: usize = 0;
        let mut k: usize = 1;
        while k < work.len()
            invariant
                work@ == pre,
                work@.len() > 0,
                min < k,
                k <= work@.len(),
                forall|t: int| 0 <= t < k ==> lex_le(work@[min as int]@, work@[t]@),
            decreases work@.len() - k,
        {
            if str_le(&work[k], &work[min]) {
                proof {
                    assert forall|t: int| 0 <= t < k implies lex_le(
                        pre[k as int]@,
                        pre[t]@,
                    ) by {
                        lemma_lex_le_trans(pre[k as int]@, pre[min as int]@, pre[t]@);
                    }
                    lemma_lex_le_refl(pre[k as int]@);
                }
                min = k;
            } else {
                proof {
                    lemma_lex_le_total(pre[k as int]@, pre[min as int]@);
                }
            }
            k += 1;
        }
        let x = work.remove(min);
        let ghost post = work@;
        proof {
            assert(views(post) =~= views(pre).remove(min as int));
            assert(views(pre).contains(x@)) by {
                assert(views(pre)[min as int] == x@);
            }
            vstd::seq_lib::to_multiset_contains(views(pre), x@);
            assert(views(pre).to_multiset().count(x@) > 0);
        }
        let ghost out_pre = out@;
        out.push(x);
        proof {
            assert(views(out@) =~= views(out_pre).push(x@));
            vstd::seq_lib::to_multiset_build(views(out_pre), x@);
            vstd::seq_lib::to_multiset_remove(views(pre), min as int);
            assert(views(post).to_multiset() =~= views(pre).to_multiset().remove(x@));
            assert(views(out@).to_multiset().add(views(post).to_multiset()) =~= views(
                out_pre,
            ).to_multiset().add(views(pre).to_multiset()));
            // the new last element follows everything already placed
            assert forall|i: int, j: int| 0 <= i < j < out@.len() implies lex_le(
                out@[i]@,
                out@[j]@,
            ) by {
                if j == out@.len() - 1 {
                    assert(lex_le(out_pre[i]@, pre[min as int]@));
                }
            }
            // everything left in `work` still follows everything placed
            assert forall|i: int, j: int|
                0 <= i < out@.len() && 0 <= j < post.len() implies lex_le(
                out@[i]@,
                post[j]@,
            ) by {
                let jj = if j < min as int {
                    j
                } else {
                    j + 1
                };
                assert(post[j] == pre[jj]);
                if i < out@.len() - 1 {
                    assert(lex_le(out_pre[i]@, pre[jj]@));
                } else {
                    assert(lex_le(pre[min as int]@, pre[jj]@));
                }
            }
        }
    }
    proof {
        assert(views(work@) =~= Seq::<Seq<char>>::empty());
        assert(views(out@).to_multiset().add(views(work@).to_multiset()) =~= views(
            out@,
        ).to_multiset());
    }
    out
}

} // verus!
