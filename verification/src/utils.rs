//! String utilities shared by the file system: reserved-name checks and
//! verified splitting and joining of `/`-separated paths.

use vstd::prelude::*;
use vstd::string::StrSliceExecFns;
use vstd::string::StringExecFns;

verus! {

/// Split a character sequence on `/`, keeping empty pieces: one piece
/// accumulates before the first separator, one after each separator.
pub open spec fn raw_split(s: Seq<char>) -> Seq<Seq<char>>
    decreases s.len(),
{
    if s.len() == 0 {
        seq![Seq::<char>::empty()]
    } else {
        let rest = raw_split(s.drop_last());
        if s.last() == '/' {
            rest.push(Seq::empty())
        } else {
            rest.update(rest.len() - 1, rest.last().push(s.last()))
        }
    }
}

pub proof fn lemma_raw_split_len(s: Seq<char>)
    ensures
        raw_split(s).len() >= 1,
    decreases s.len(),
{
    if s.len() > 0 {
        lemma_raw_split_len(s.drop_last());
    }
}

/// The segments of a path: what splitting on `/` leaves once empty
/// pieces are dropped.
pub open spec fn path_segments(s: Seq<char>) -> Seq<Seq<char>> {
    raw_split(s).filter(|t: Seq<char>| t.len() > 0)
}

/// The views of a vector of owned segments.
pub open spec fn seg_views(segs: Seq<String>) -> Seq<Seq<char>> {
    segs.map_values(|t: String| t@)
}

/// The textual form of an absolute path: `/` alone for the root, else
/// one `/` before each segment.
pub open spec fn join_path(segs: Seq<Seq<char>>) -> Seq<char>
    decreases segs.len(),
{
    if segs.len() == 0 {
        seq!['/']
    } else if segs.len() == 1 {
        seq!['/'] + segs.last()
    } else {
        join_path(segs.drop_last()) + seq!['/'] + segs.last()
    }
}

/// Appending one element filters to appending it when it passes.
pub proof fn lemma_filter_push<A>(s: Seq<A>, x: A, pred: spec_fn(A) -> bool)
    ensures
        s.push(x).filter(pred) == (if pred(x) {
            s.filter(pred).push(x)
        } else {
            s.filter(pred)
        }),
{
    reveal(Seq::filter);
    assert(s.push(x).drop_last() =~= s);
    assert(s.push(x).last() == x);
}

/// Character-wise string comparison.
pub fn str_eq(a: &str, b: &str) -> (r: bool)
    ensures
        r == (a@ == b@),
{
    let la = a.unicode_len();
    let lb = b.unicode_len();
    if la != lb {
        proof {
            if a@ == b@ {
                assert(a@.len() == b@.len());
            }
        }
        return false;
    }
    let mut i: usize = 0;
    while i < la
        invariant
            la == a@.len() == b@.len(),
            i <= la,
            forall|k: int| 0 <= k < i ==> a@[k] == b@[k],
        decreases la - i,
    {
        if a.get_char(i) != b.get_char(i) {
            return false;
        }
        i = i + 1;
    }
    proof {
        assert(a@ =~= b@);
    }
    true
}

/// Whether a name is one of the reserved path symbols `/`, `.` or `..`.
pub fn is_unix_symbol(s: &str) -> (r: bool)
    ensures
        r == (s@ == "/"@ || s@ == "."@ || s@ == ".."@),
{
    str_eq(s, "/") || str_eq(s, ".") || str_eq(s, "..")
}

/// Whether the string contains the character.
pub fn contains_char(s: &str, c: char) -> (r: bool)
    ensures
        r == s@.contains(c),
{
    let n = s.unicode_len();
    let mut i: usize = 0;
    while i < n
        invariant
            n == s@.len(),
            i <= n,
            forall|k: int| 0 <= k < i ==> s@[k] != c,
        decreases n - i,
    {
        if s.get_char(i) == c {
            proof {
                assert(s@[i as int] == c);
            }
            return true;
        }
        i = i + 1;
    }
    proof {
        if s@.contains(c) {
            let k = choose|k: int| 0 <= k < s@.len() && s@[k] == c;
            assert(false);
        }
    }
    false
}

/// Split a path into its non-empty segments.
pub fn split_path(s: &str) -> (segs: Vec<String>)
    ensures
        seg_views(segs@) == path_segments(s@),
        forall|i: int| 0 <= i < segs@.len() ==> (#[trigger] segs@[i])@.len() > 0,
{
    let n = s.unicode_len();
    let mut segs: Vec<String> = Vec::new();
    let mut start: usize = 0;
    let mut i: usize = 0;
    proof {
        reveal(Seq::filter);
        assert(s@.take(0) =~= Seq::<char>::empty());
        assert(raw_split(s@.take(0)) == seq![Seq::<char>::empty()]);
        assert(raw_split(s@.take(0)).drop_last() =~= Seq::<Seq<char>>::empty());
        assert(Seq::<Seq<char>>::empty().filter(|t: Seq<char>| t.len() > 0) =~= Seq::<
            Seq<char>,
        >::empty());
        assert(seg_views(segs@) =~= Seq::<Seq<char>>::empty());
        assert(s@.subrange(0, 0) =~= Seq::<char>::empty());
    }
    while i < n
        invariant
            n == s@.len(),
            start <= i <= n,
            raw_split(s@.take(i as int)).len() >= 1,
            raw_split(s@.take(i as int)).last() =~= s@.subrange(start as int, i as int),
            seg_views(segs@) == raw_split(s@.take(i as int)).drop_last().filter(
                (|t: Seq<char>| t.len() > 0),
            ),
            forall|k: int| 0 <= k < segs@.len() ==> (#[trigger] segs@[k])@.len() > 0,
        decreases n - i,
    {
        let ghost prefix = s@.take(i as int);
        let ghost r = raw_split(prefix);
        proof {
            assert(s@.take(i as int + 1).drop_last() =~= prefix);
            assert(s@.take(i as int + 1).last() == s@[i as int]);
            lemma_raw_split_len(s@.take(i as int + 1));
        }
        let c = s.get_char(i);
        if c == '/' {
            proof {
                assert(raw_split(s@.take(i as int + 1)) == r.push(Seq::<char>::empty()));
            }
            if i > start {
                let sub = s.substring_char(start, i);
                let owned = sub.to_owned();
                let ghost old_segs = segs@;
                segs.push(owned);
                proof {
                    assert(segs@ =~= old_segs.push(owned));
                    assert(seg_views(segs@) =~= seg_views(old_segs).push(owned@));
                    lemma_filter_push(r.drop_last(), r.last(), (|t: Seq<char>| t.len() > 0));
                    assert(r.drop_last().push(r.last()) =~= r);
                    assert(owned@ == r.last());
                    assert(raw_split(s@.take(i as int + 1)).drop_last() =~= r);
                    assert(seg_views(segs@) =~= r.filter((|t: Seq<char>| t.len() > 0)));
                }
            } else {
                proof {
                    assert(r.last() =~= Seq::<char>::empty());
                    lemma_filter_push(r.drop_last(), r.last(), (|t: Seq<char>| t.len() > 0));
                    assert(r.drop_last().push(r.last()) =~= r);
                    assert(raw_split(s@.take(i as int + 1)).drop_last() =~= r);
                    assert(seg_views(segs@) =~= r.filter((|t: Seq<char>| t.len() > 0)));
                }
            }
            start = i + 1;
            proof {
                assert(raw_split(s@.take(i as int + 1)).last() =~= s@.subrange(
                    start as int,
                    i as int + 1,
                ));
            }
        } else {
            proof {
                let r2 = raw_split(s@.take(i as int + 1));
                assert(r2 == r.update(r.len() - 1, r.last().push(s@[i as int])));
                assert(r2.drop_last() =~= r.drop_last());
                assert(r2.last() == r.last().push(s@[i as int]));
                assert(r2.last() =~= s@.subrange(start as int, i as int + 1));
            }
        }
        i = i + 1;
    }
    proof {
        assert(s@.take(n as int) =~= s@);
    }
    let ghost r = raw_split(s@);
    if i > start {
        let sub = s.substring_char(start, n);
        let owned = sub.to_owned();
        let ghost old_segs = segs@;
        segs.push(owned);
        proof {
            assert(segs@ =~= old_segs.push(owned));
            assert(seg_views(segs@) =~= seg_views(old_segs).push(owned@));
            lemma_filter_push(r.drop_last(), r.last(), (|t: Seq<char>| t.len() > 0));
            assert(r.drop_last().push(r.last()) =~= r);
            assert(owned@ == r.last());
            assert(seg_views(segs@) =~= r.filter((|t: Seq<char>| t.len() > 0)));
        }
    } else {
        proof {
            assert(r.last() =~= Seq::<char>::empty());
            lemma_filter_push(r.drop_last(), r.last(), (|t: Seq<char>| t.len() > 0));
            assert(r.drop_last().push(r.last()) =~= r);
            assert(seg_views(segs@) =~= r.filter((|t: Seq<char>| t.len() > 0)));
        }
    }
    segs
}

/// Render an absolute path from its segments.
pub fn render_path(segs: &Vec<String>) -> (r: String)
    ensures
        r@ == join_path(seg_views(segs@)),
{
    proof {
        reveal_strlit("/");
    }
    if segs.len() == 0 {
        let r = String::new();
        let mut r = r;
        r.append("/");
        proof {
            assert(r@ =~= join_path(seg_views(segs@)));
        }
        return r;
    }
    let mut r = String::new();
    let mut i: usize = 0;
    proof {
        assert(seg_views(segs@).take(0) =~= Seq::<Seq<char>>::empty());
    }
    while i < segs.len()
        invariant
            i <= segs@.len(),
            1 <= segs@.len(),
            i > 0 ==> r@ == join_path(seg_views(segs@).take(i as int)),
            i == 0 ==> r@ =~= Seq::<char>::empty(),
            "/"@ == seq!['/'],
        decreases segs@.len() - i,
    {
        let ghost before = r@;
        r.append("/");
        r.append(segs[i].as_str());
        proof {
            let views = seg_views(segs@);
            let t = views.take(i as int + 1);
            assert(t.drop_last() =~= views.take(i as int));
            assert(t.last() == segs@[i as int]@);
            if i == 0 {
                assert(t.len() == 1);
                assert(r@ =~= seq!['/'] + t.last());
            } else {
                assert(r@ =~= join_path(views.take(i as int)) + seq!['/'] + t.last());
            }
        }
        i = i + 1;
    }
    proof {
        assert(seg_views(segs@).take(segs@.len() as int) =~= seg_views(segs@));
    }
    r
}

} // verus!
