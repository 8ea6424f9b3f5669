//! The PATH value as an ordered list of segments, and the marker rule:
//! segments written by an install carry a fixed marker substring, and a
//! rewrite removes every segment that carries it.

use vstd::prelude::*;
use vstd::string::StrSliceExecFns;
use crate::text::sep_free;

verus! {

/// The marker that identifies a PATH segment written by an install.
pub open spec fn marker() -> Seq<char> {
    seq!['m', 'y', 's', 'q', 'l', '-']
}

/// The marker occurs in `s` at position `i`.
pub open spec fn marker_at(s: Seq<char>, i: int) -> bool {
    &&& 0 <= i
    &&& i + marker().len() <= s.len()
    &&& forall|k: int| 0 <= k < marker().len() ==> s[i + k] == #[trigger] marker()[k]
}

/// The marker occurs somewhere in `s`.
pub open spec fn has_marker(s: Seq<char>) -> bool {
    exists|i: int| marker_at(s, i)
}

/// The characters of the marker, by position.
fn marker_char(j: usize) -> (c: char)
    requires
        j < 6,
    ensures
        c == marker()[j as int],
{
    if j == 0 {
        'm'
    } else if j == 1 {
        'y'
    } else if j == 2 {
        's'
    } else if j == 3 {
        'q'
    } else if j == 4 {
        'l'
    } else {
        '-'
    }
}

/// Whether the marker occurs in `s`.
pub fn contains_marker(s: &str) -> (r: bool)
    ensures
        r == has_marker(s@),
{
    let n = s.unicode_len();
    if n < 6 {
        proof {
            assert(forall|i: int| !marker_at(s@, i));
        }
        return false;
    }
    let mut i: usize = 0;
    while i <= n - 6
        invariant
            6 <= n,
            n == s@.len(),
            i <= n - 6 + 1,
            forall|m: int| 0 <= m < i ==> !marker_at(s@, m),
        decreases n - i,
    {
        let mut j: usize = 0;
        let mut matched = true;
        while j < 6
            invariant
                i + 6 <= n,
                n == s@.len(),
                j <= 6,
                matched ==> forall|k: int| 0 <= k < j ==> s@[i + k] == #[trigger] marker()[k],
                !matched ==> !marker_at(s@, i as int),
            decreases 6 - j,
        {
            if matched && s.get_char(i + j) != marker_char(j) {
                proof {
                    assert(marker_at(s@, i as int) ==> s@[i + j] == marker()[j as int]);
                }
                matched = false;
            }
            j = j + 1;
        }
        if matched {
            proof {
                assert(marker_at(s@, i as int));
            }
            return true;
        }
        i = i + 1;
    }
    proof {
        assert(forall|m: int| marker_at(s@, m) ==> 0 <= m && m + 6 <= n);
        assert(forall|m: int| !marker_at(s@, m));
    }
    false
}

/// The segments of `xs` that do not carry the marker, in order.
pub open spec fn drop_marked(xs: Seq<Seq<char>>) -> Seq<Seq<char>>
    decreases xs.len(),
{
    if xs.len() == 0 {
        Seq::empty()
    } else if has_marker(xs[0]) {
        drop_marked(xs.drop_first())
    } else {
        seq![xs[0]] + drop_marked(xs.drop_first())
    }
}

/// The segments of `xs` that carry the marker, in order.
pub open spec fn marked_segments(xs: Seq<Seq<char>>) -> Seq<Seq<char>>
    decreases xs.len(),
{
    if xs.len() == 0 {
        Seq::empty()
    } else if has_marker(xs[0]) {
        seq![xs[0]] + marked_segments(xs.drop_first())
    } else {
        marked_segments(xs.drop_first())
    }
}

/// No segment kept by `drop_marked` carries the marker.
pub proof fn lemma_drop_marked_unmarked(xs: Seq<Seq<char>>)
    ensures
        forall|idx: int|
            0 <= idx < drop_marked(xs).len() ==> !has_marker(#[trigger] drop_marked(xs)[idx]),
    decreases xs.len(),
{
    if xs.len() != 0 {
        lemma_drop_marked_unmarked(xs.drop_first());
        assert forall|idx: int| 0 <= idx < drop_marked(xs).len() implies !has_marker(
            #[trigger] drop_marked(xs)[idx],
        ) by {
            if has_marker(xs[0]) {
                assert(drop_marked(xs)[idx] == drop_marked(xs.drop_first())[idx]);
            } else if idx > 0 {
                assert(drop_marked(xs)[idx] == drop_marked(xs.drop_first())[idx - 1]);
            }
        }
    }
}

/// Every segment kept by `drop_marked` is separator-free if every
/// segment of `xs` is.
pub proof fn lemma_drop_marked_sep_free(xs: Seq<Seq<char>>, sep: char)
    requires
        forall|idx: int| 0 <= idx < xs.len() ==> sep_free(#[trigger] xs[idx], sep),
    ensures
        forall|idx: int|
            0 <= idx < drop_marked(xs).len() ==> sep_free(#[trigger] drop_marked(xs)[idx], sep),
    decreases xs.len(),
{
    if xs.len() != 0 {
        assert(forall|idx: int|
            0 <= idx < xs.drop_first().len() ==> sep_free(#[trigger] xs.drop_first()[idx], sep));
        lemma_drop_marked_sep_free(xs.drop_first(), sep);
        assert forall|idx: int| 0 <= idx < drop_marked(xs).len() implies sep_free(
            #[trigger] drop_marked(xs)[idx],
            sep,
        ) by {
            if has_marker(xs[0]) {
                assert(drop_marked(xs)[idx] == drop_marked(xs.drop_first())[idx]);
            } else if idx > 0 {
                assert(drop_marked(xs)[idx] == drop_marked(xs.drop_first())[idx - 1]);
            }
        }
    }
}

/// Dropping marked segments distributes over concatenation.
pub proof fn lemma_drop_marked_concat(xs: Seq<Seq<char>>, ys: Seq<Seq<char>>)
    ensures
        drop_marked(xs + ys) == drop_marked(xs) + drop_marked(ys),
    decreases xs.len(),
{
    if xs.len() == 0 {
        assert(xs + ys =~= ys);
        assert(drop_marked(xs) + drop_marked(ys) =~= drop_marked(ys));
    } else {
        assert((xs + ys).drop_first() =~= xs.drop_first() + ys);
        lemma_drop_marked_concat(xs.drop_first(), ys);
        if has_marker(xs[0]) {
            assert(drop_marked(xs + ys) =~= drop_marked(xs) + drop_marked(ys));
        } else {
            assert(drop_marked(xs + ys) =~= drop_marked(xs) + drop_marked(ys));
        }
    }
}

/// Keeping marked segments distributes over concatenation.
pub proof fn lemma_marked_segments_concat(xs: Seq<Seq<char>>, ys: Seq<Seq<char>>)
    ensures
        marked_segments(xs + ys) == marked_segments(xs) + marked_segments(ys),
    decreases xs.len(),
{
    if xs.len() == 0 {
        assert(xs + ys =~= ys);
        assert(marked_segments(xs) + marked_segments(ys) =~= marked_segments(ys));
    } else {
        assert((xs + ys).drop_first() =~= xs.drop_first() + ys);
        lemma_marked_segments_concat(xs.drop_first(), ys);
        assert(marked_segments(xs + ys) =~= marked_segments(xs) + marked_segments(ys));
    }
}

/// A sequence none of whose segments carries the marker is left as it
/// is by `drop_marked` and contributes nothing to `marked_segments`.
pub proof fn lemma_unmarked_identity(xs: Seq<Seq<char>>)
    requires
        forall|idx: int| 0 <= idx < xs.len() ==> !has_marker(#[trigger] xs[idx]),
    ensures
        drop_marked(xs) == xs,
        marked_segments(xs) == Seq::<Seq<char>>::empty(),
    decreases xs.len(),
{
    if xs.len() == 0 {
        assert(drop_marked(xs) =~= xs);
    } else {
        assert(forall|idx: int|
            0 <= idx < xs.drop_first().len() ==> !has_marker(#[trigger] xs.drop_first()[idx]));
        lemma_unmarked_identity(xs.drop_first());
        assert(drop_marked(xs) =~= xs);
    }
}

/// A single marked segment is dropped whole and is the whole marked part.
pub proof fn lemma_marked_singleton(t: Seq<char>)
    requires
        has_marker(t),
    ensures
        drop_marked(seq![t]) == Seq::<Seq<char>>::empty(),
        marked_segments(seq![t]) == seq![t],
{
    assert(seq![t].drop_first() =~= Seq::<Seq<char>>::empty());
    assert(drop_marked(Seq::<Seq<char>>::empty()) =~= Seq::<Seq<char>>::empty());
    assert(marked_segments(Seq::<Seq<char>>::empty()) =~= Seq::<Seq<char>>::empty());
    assert(marked_segments(seq![t]) =~= seq![t]);
}

/// Keep only the segments that do not carry the marker.
pub fn remove_marker_segments(segs: &Vec<String>) -> (r: Vec<String>)
    ensures
        r.deep_view() == drop_marked(segs.deep_view()),
{
    let ghost dv = segs.deep_view();
    let n = segs.len();
    let mut r: Vec<String> = Vec::new();
    let mut i: usize = 0;
    proof {
        assert(dv.skip(0) =~= dv);
        assert(r.deep_view() =~= Seq::<Seq<char>>::empty());
        assert(drop_marked(dv) =~= r.deep_view() + drop_marked(dv.skip(0)));
    }
    while i < n
        invariant
            i <= n,
            n == segs@.len(),
            dv == segs.deep_view(),
            drop_marked(dv) == r.deep_view() + drop_marked(dv.skip(i as int)),
        decreases n - i,
    {
        let ghost tail = dv.skip(i as int);
        proof {
            assert(tail.len() > 0);
            assert(tail[0] == dv[i as int]);
            assert(tail.drop_first() =~= dv.skip(i as int + 1));
        }
        if !contains_marker(segs[i].as_str()) {
            let ghost old_r = r.deep_view();
            let item = segs[i].clone();
            r.push(item);
            proof {
                assert(r.deep_view() =~= old_r.push(dv[i as int]));
                assert(drop_marked(tail) == seq![dv[i as int]] + drop_marked(
                    dv.skip(i as int + 1),
                ));
                assert(old_r.push(dv[i as int]) + drop_marked(dv.skip(i as int + 1)) =~= old_r
                    + drop_marked(tail));
            }
        } else {
            proof {
                assert(drop_marked(tail) == drop_marked(dv.skip(i as int + 1)));
            }
        }
        i = i + 1;
    }
    proof {
        assert(dv.skip(n as int) =~= Seq::<Seq<char>>::empty());
        assert(drop_marked(Seq::<Seq<char>>::empty()) =~= Seq::<Seq<char>>::empty());
        assert(r.deep_view() =~= drop_marked(dv));
    }
    r
}

} // verus!
