//! Path strings and their segments.
//!
//! A raw path is split on `/` and the empty pieces are discarded, so
//! `"//a//b/"` names the same segments as `"a/b"`. A leading `/` has no
//! anchoring meaning of its own: it only produces an empty, discarded
//! segment. The lemmas at the end make the equivalence precise: inserting,
//! doubling, leading or trailing slashes never change the segment sequence.

use vstd::prelude::*;
use vstd::string::StrSliceExecFns;

verus! {

/// All pieces of `s` between `/` separators, in order, the empty ones
/// included. A string with no `/` is one piece; every `/` ends a piece.
pub open spec fn split_all(s: Seq<char>) -> Seq<Seq<char>>
    decreases s.len(),
{
    if s.len() == 0 {
        seq![Seq::<char>::empty()]
    } else if s.last() == '/' {
        split_all(s.drop_last()).push(Seq::<char>::empty())
    } else {
        let r = split_all(s.drop_last());
        r.update(r.len() - 1, r.last().push(s.last()))
    }
}

/// The subsequence of non-empty segments, order kept.
pub open spec fn drop_empty(segs: Seq<Seq<char>>) -> Seq<Seq<char>>
    decreases segs.len(),
{
    if segs.len() == 0 {
        Seq::<Seq<char>>::empty()
    } else if segs.last().len() > 0 {
        drop_empty(segs.drop_last()).push(segs.last())
    } else {
        drop_empty(segs.drop_last())
    }
}

/// The segments of a raw path string: split on `/`, empty pieces discarded.
pub open spec fn split_path_spec(s: Seq<char>) -> Seq<Seq<char>> {
    drop_empty(split_all(s))
}

/// Splitting always yields at least one piece (possibly empty).
pub proof fn lemma_split_all_len(s: Seq<char>)
    ensures
        split_all(s).len() >= 1,
    decreases s.len(),
{
    if s.len() > 0 {
        lemma_split_all_len(s.drop_last());
    }
}

/// Discarding empties distributes over concatenation of segment sequences.
pub proof fn lemma_drop_empty_add(x: Seq<Seq<char>>, y: Seq<Seq<char>>)
    ensures
        drop_empty(x + y) == drop_empty(x) + drop_empty(y),
    decreases y.len(),
{
    if y.len() == 0 {
        assert(x + y =~= x);
        assert(drop_empty(x) + drop_empty(y) =~= drop_empty(x));
    } else {
        assert((x + y).drop_last() =~= x + y.drop_last());
        assert((x + y).last() == y.last());
        lemma_drop_empty_add(x, y.drop_last());
        if y.last().len() > 0 {
            assert(drop_empty(x) + drop_empty(y) =~= (drop_empty(x) + drop_empty(
                y.drop_last(),
            )).push(y.last()));
        }
    }
}

/// Splitting distributes over a `/` between two strings: the pieces of
/// `a/b` are the pieces of `a` followed by the pieces of `b`.
pub proof fn lemma_split_all_slash(a: Seq<char>, b: Seq<char>)
    ensures
        split_all(a + seq!['/'] + b) == split_all(a) + split_all(b),
    decreases b.len(),
{
    lemma_split_all_len(a);
    if b.len() == 0 {
        let s = a + seq!['/'] + b;
        assert(s =~= a.push('/'));
        assert(s.last() == '/');
        assert(s.drop_last() =~= a);
        assert(split_all(b) =~= seq![Seq::<char>::empty()]);
        assert(split_all(a).push(Seq::<char>::empty()) =~= split_all(a) + split_all(b));
    } else {
        let s = a + seq!['/'] + b;
        assert(s.len() > 0);
        assert(s.last() == b.last());
        assert(s.drop_last() =~= a + seq!['/'] + b.drop_last());
        lemma_split_all_slash(a, b.drop_last());
        lemma_split_all_len(b.drop_last());
        let rb = split_all(b.drop_last());
        let r = split_all(a) + rb;
        if b.last() == '/' {
            assert(split_all(s) == r.push(Seq::<char>::empty()));
            assert(r.push(Seq::<char>::empty()) =~= split_all(a) + rb.push(
                Seq::<char>::empty(),
            ));
        } else {
            assert(split_all(s) == r.update(r.len() - 1, r.last().push(b.last())));
            assert(r.last() == rb.last());
            assert(r.update(r.len() - 1, r.last().push(b.last())) =~= split_all(a) + rb.update(
                rb.len() - 1,
                rb.last().push(b.last()),
            ));
        }
    }
}

/// A `/` between two path strings separates their segments. Duplicate,
/// leading and trailing slashes fall out as corollaries.
pub proof fn lemma_split_path_slash_concat(a: Seq<char>, b: Seq<char>)
    ensures
        split_path_spec(a + seq!['/'] + b) == split_path_spec(a) + split_path_spec(b),
{
    lemma_split_all_slash(a, b);
    lemma_drop_empty_add(split_all(a), split_all(b));
}

/// An empty path has no segments.
pub proof fn lemma_split_path_empty()
    ensures
        split_path_spec(Seq::<char>::empty()) == Seq::<Seq<char>>::empty(),
{
    let e = Seq::<char>::empty();
    assert(split_all(e) == seq![Seq::<char>::empty()]);
    assert(seq![Seq::<char>::empty()].drop_last() =~= Seq::<Seq<char>>::empty());
    assert(drop_empty(seq![Seq::<char>::empty()]) == drop_empty(
        seq![Seq::<char>::empty()].drop_last(),
    ));
}

/// A leading slash never changes the segments.
pub proof fn lemma_split_path_leading_slash(b: Seq<char>)
    ensures
        split_path_spec(seq!['/'] + b) == split_path_spec(b),
{
    let a = Seq::<char>::empty();
    assert(a + seq!['/'] + b =~= seq!['/'] + b);
    lemma_split_path_slash_concat(a, b);
    lemma_split_path_empty();
    assert(split_path_spec(a) + split_path_spec(b) =~= split_path_spec(b));
}

/// A trailing slash never changes the segments.
pub proof fn lemma_split_path_trailing_slash(a: Seq<char>)
    ensures
        split_path_spec(a + seq!['/']) == split_path_spec(a),
{
    let b = Seq::<char>::empty();
    assert(a + seq!['/'] + b =~= a + seq!['/']);
    lemma_split_path_slash_concat(a, b);
    lemma_split_path_empty();
    assert(split_path_spec(a) + split_path_spec(b) =~= split_path_spec(a));
}

/// A doubled slash names the same segments as a single one, wherever
/// it stands in the path.
pub proof fn lemma_split_path_double_slash(a: Seq<char>, b: Seq<char>)
    ensures
        split_path_spec(a + seq!['/', '/'] + b) == split_path_spec(a + seq!['/'] + b),
{
    lemma_split_path_slash_concat(a, seq!['/'] + b);
    assert(a + seq!['/'] + (seq!['/'] + b) =~= a + seq!['/', '/'] + b);
    lemma_split_path_leading_slash(b);
    lemma_split_path_slash_concat(a, b);
}

/// Splits a raw path on `/` and keeps the non-empty components.
pub fn split_path(path: &str) -> (r: Vec<String>)
    ensures
        r.deep_view() == split_path_spec(path@),
{
    let n = path.unicode_len();
    let mut r: Vec<String> = Vec::new();
    let mut start: usize = 0;
    let mut i: usize = 0;
    proof {
        assert(path@.take(0) =~= Seq::<char>::empty());
        assert(r.deep_view() =~= Seq::<Seq<char>>::empty());
        assert(split_all(path@.take(0)).drop_last() =~= Seq::<Seq<char>>::empty());
    }
    while i < n
        invariant
            start <= i <= n,
            n == path@.len(),
            split_all(path@.take(i as int)).last() == path@.subrange(start as int, i as int),
            drop_empty(split_all(path@.take(i as int)).drop_last()) == r.deep_view(),
        decreases n - i,
    {
        proof {
            lemma_split_all_len(path@.take(i as int));
            assert(path@.take(i as int + 1).drop_last() =~= path@.take(i as int));
            assert(path@.take(i as int + 1).last() == path@[i as int]);
        }
        let ghost prev = split_all(path@.take(i as int));
        if path.get_char(i) == '/' {
            if i > start {
                let seg = path.substring_char(start, i).to_owned();
                let ghost r0 = r.deep_view();
                r.push(seg);
                proof {
                    assert(r.deep_view() =~~= r0.push(path@.subrange(start as int, i as int)));
                    assert(prev =~= prev.drop_last().push(prev.last()));
                    assert(drop_empty(prev) == r.deep_view());
                }
            } else {
                proof {
                    assert(path@.subrange(start as int, i as int) =~= Seq::<char>::empty());
                    assert(prev =~= prev.drop_last().push(prev.last()));
                    assert(drop_empty(prev) == r.deep_view());
                }
            }
            proof {
                assert(split_all(path@.take(i as int + 1)) == prev.push(Seq::<char>::empty()));
                assert(prev.push(Seq::<char>::empty()).drop_last() =~= prev);
                assert(path@.subrange(i as int + 1, i as int + 1) =~= Seq::<char>::empty());
            }
            start = i + 1;
        } else {
            proof {
                let nxt = prev.update(prev.len() - 1, prev.last().push(path@[i as int]));
                assert(split_all(path@.take(i as int + 1)) == nxt);
                assert(nxt.drop_last() =~= prev.drop_last());
                assert(nxt.last() == prev.last().push(path@[i as int]));
                assert(path@.subrange(start as int, i as int).push(path@[i as int]) =~= path@
                    .subrange(start as int, i as int + 1));
            }
        }
        i = i + 1;
    }
    proof {
        assert(path@.take(n as int) =~= path@);
        lemma_split_all_len(path@);
    }
    if start < n {
        let seg = path.substring_char(start, n).to_owned();
        let ghost r0 = r.deep_view();
        r.push(seg);
        proof {
            let all = split_all(path@);
            assert(r.deep_view() =~~= r0.push(path@.subrange(start as int, n as int)));
            assert(all =~= all.drop_last().push(all.last()));
            assert(drop_empty(all) == r.deep_view());
        }
    } else {
        proof {
            let all = split_all(path@);
            assert(path@.subrange(start as int, n as int) =~= Seq::<char>::empty());
            assert(all =~= all.drop_last().push(all.last()));
            assert(drop_empty(all) == r.deep_view());
        }
    }
    r
}

} // verus!
