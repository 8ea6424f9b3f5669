//! Character-sequence utilities: lexicographic order, prefix tests, and
//! splitting and joining on a separator character.

use vstd::prelude::*;
use vstd::string::StrSliceExecFns;
use vstd::string::StringExecFns;

verus! {

/// Strict lexicographic order on the characters from position `i` on,
/// comparing characters by scalar value.
pub open spec fn lex_lt_from(a: Seq<char>, b: Seq<char>, i: int) -> bool
    decreases a.len() - i,
{
    if i >= b.len() {
        false
    } else if i >= a.len() {
        true
    } else if a[i] != b[i] {
        a[i] < b[i]
    } else {
        lex_lt_from(a, b, i + 1)
    }
}

/// Strict lexicographic order on character sequences.
pub open spec fn lex_lt(a: Seq<char>, b: Seq<char>) -> bool {
    lex_lt_from(a, b, 0)
}

/// Two sequences neither of which precedes the other are equal.
pub proof fn lemma_lex_connected_from(a: Seq<char>, b: Seq<char>, i: int)
    requires
        0 <= i <= a.len(),
        0 <= i <= b.len(),
        !lex_lt_from(a, b, i),
        !lex_lt_from(b, a, i),
    ensures
        a.len() == b.len(),
        forall|k: int| i <= k < a.len() ==> a[k] == #[trigger] b[k],
    decreases a.len() - i,
{
    if i < a.len() && i < b.len() {
        lemma_lex_connected_from(a, b, i + 1);
    }
}

/// Two sequences neither of which precedes the other are equal.
pub proof fn lemma_lex_connected(a: Seq<char>, b: Seq<char>)
    requires
        !lex_lt(a, b),
        !lex_lt(b, a),
    ensures
        a == b,
{
    lemma_lex_connected_from(a, b, 0);
    assert(a =~= b);
}

pub proof fn lemma_lex_transitive_from(a: Seq<char>, b: Seq<char>, c: Seq<char>, i: int)
    requires
        lex_lt_from(a, b, i),
        lex_lt_from(b, c, i),
    ensures
        lex_lt_from(a, c, i),
    decreases a.len() - i,
{
    if i < a.len() && i < b.len() && i < c.len() && a[i] == b[i] && b[i] == c[i] {
        lemma_lex_transitive_from(a, b, c, i + 1);
    }
}

/// The lexicographic order is transitive.
pub proof fn lemma_lex_transitive(a: Seq<char>, b: Seq<char>, c: Seq<char>)
    requires
        lex_lt(a, b),
        lex_lt(b, c),
    ensures
        lex_lt(a, c),
{
    lemma_lex_transitive_from(a, b, c, 0);
}

/// Compare two strings in lexicographic order by scalar value.
pub fn str_lt(a: &str, b: &str) -> (r: bool)
    ensures
        r == lex_lt(a@, b@),
{
    let alen = a.unicode_len();
    let blen = b.unicode_len();
    let mut i: usize = 0;
    loop
        invariant
            i <= alen,
            i <= blen,
            alen == a@.len(),
            blen == b@.len(),
            lex_lt(a@, b@) == lex_lt_from(a@, b@, i as int),
        decreases alen - i,
    {
        if i >= blen {
            return false;
        }
        if i >= alen {
            return true;
        }
        let ca = a.get_char(i);
        let cb = b.get_char(i);
        if ca != cb {
            return (ca as u32) < (cb as u32);
        }
        i = i + 1;
    }
}

/// `p` is a prefix of `s`.
pub open spec fn is_prefix(p: Seq<char>, s: Seq<char>) -> bool {
    &&& p.len() <= s.len()
    &&& forall|k: int| 0 <= k < p.len() ==> p[k] == #[trigger] s[k]
}

/// Whether `s` starts with the prefix `p`.
pub fn starts_with_prefix(s: &str, p: &str) -> (r: bool)
    ensures
        r == is_prefix(p@, s@),
{
    let slen = s.unicode_len();
    let plen = p.unicode_len();
    if plen > slen {
        return false;
    }
    let mut i: usize = 0;
    while i < plen
        invariant
            i <= plen,
            plen <= slen,
            slen == s@.len(),
            plen == p@.len(),
            forall|k: int| 0 <= k < i ==> p@[k] == #[trigger] s@[k],
        decreases plen - i,
    {
        if p.get_char(i) != s.get_char(i) {
            return false;
        }
        i = i + 1;
    }
    true
}

/// The separator does not occur in `t`.
pub open spec fn sep_free(t: Seq<char>, sep: char) -> bool {
    forall|k: int| 0 <= k < t.len() ==> #[trigger] t[k] != sep
}

/// The segments of `s` delimited by `sep`, in order. An empty sequence
/// yields one empty segment, and each separator starts a new segment,
/// as `str::split` does.
pub open spec fn split_on(s: Seq<char>, sep: char) -> Seq<Seq<char>>
    decreases s.len(),
{
    if s.len() == 0 {
        seq![Seq::<char>::empty()]
    } else if s[0] == sep {
        seq![Seq::<char>::empty()] + split_on(s.drop_first(), sep)
    } else {
        let rest = split_on(s.drop_first(), sep);
        rest.update(0, seq![s[0]] + rest[0])
    }
}

/// The segments joined back into one sequence with `sep` between them.
pub open spec fn join_on(xs: Seq<Seq<char>>, sep: char) -> Seq<char>
    decreases xs.len(),
{
    if xs.len() == 0 {
        Seq::empty()
    } else if xs.len() == 1 {
        xs[0]
    } else {
        xs[0] + seq![sep] + join_on(xs.drop_first(), sep)
    }
}

/// Splitting yields at least one segment.
pub proof fn lemma_split_len(s: Seq<char>, sep: char)
    ensures
        split_on(s, sep).len() >= 1,
    decreases s.len(),
{
    if s.len() != 0 {
        lemma_split_len(s.drop_first(), sep);
    }
}

/// No segment of a split contains the separator.
pub proof fn lemma_split_sep_free(s: Seq<char>, sep: char)
    ensures
        forall|idx: int|
            0 <= idx < split_on(s, sep).len() ==> sep_free(#[trigger] split_on(s, sep)[idx], sep),
    decreases s.len(),
{
    if s.len() != 0 {
        lemma_split_sep_free(s.drop_first(), sep);
        lemma_split_len(s.drop_first(), sep);
    }
}

/// A split follows the position of the first separator: if the first
/// `k` characters are separator-free and `k` is either the position of
/// a separator or the end, the first segment is exactly those `k`
/// characters.
pub proof fn lemma_split_shape(s: Seq<char>, sep: char, k: int)
    requires
        0 <= k <= s.len(),
        forall|m: int| 0 <= m < k ==> #[trigger] s[m] != sep,
        k < s.len() ==> s[k] == sep,
    ensures
        k == s.len() ==> split_on(s, sep) == seq![s],
        k < s.len() ==> split_on(s, sep) == seq![s.take(k)] + split_on(
            s.skip(k + 1),
            sep,
        ),
    decreases k,
{
    if k == 0 {
        if s.len() == 0 {
            assert(s =~= Seq::<char>::empty());
            assert(split_on(s, sep) =~= seq![s]);
        } else {
            assert(s[0] == sep);
            assert(s.take(0) =~= Seq::<char>::empty());
            assert(s.skip(1) =~= s.drop_first());
            assert(split_on(s, sep) =~= seq![s.take(0)] + split_on(s.skip(1), sep));
        }
    } else {
        let rest = s.drop_first();
        lemma_split_shape(rest, sep, k - 1);
        lemma_split_len(rest, sep);
        if k == s.len() {
            assert(s[0] != sep);
            assert(split_on(rest, sep) == seq![rest]);
            assert(seq![s[0]] + rest =~= s);
            assert(split_on(s, sep) == seq![rest].update(0, seq![s[0]] + seq![rest][0]));
            assert(split_on(s, sep) =~= seq![s]);
        } else {
            assert(s[0] != sep);
            assert(rest.take(k - 1) =~= s.take(k).drop_first());
            assert(rest.skip(k) =~= s.skip(k + 1));
            assert(seq![s[0]] + s.take(k).drop_first() =~= s.take(k));
            lemma_split_len(rest.skip(k), sep);
            assert(split_on(s, sep) =~= seq![s.take(k)] + split_on(s.skip(k + 1), sep));
        }
    }
}

/// Appending one more segment appends a separator and its characters.
pub proof fn lemma_join_push(xs: Seq<Seq<char>>, x: Seq<char>, sep: char)
    requires
        xs.len() >= 1,
    ensures
        join_on(xs.push(x), sep) == join_on(xs, sep) + seq![sep] + x,
    decreases xs.len(),
{
    if xs.len() == 1 {
        assert(xs.push(x).drop_first() =~= seq![x]);
        assert(join_on(seq![x], sep) == x);
        assert(join_on(xs.push(x), sep) == xs.push(x)[0] + seq![sep] + join_on(
            xs.push(x).drop_first(),
            sep,
        ));
        assert(join_on(xs.push(x), sep) =~= join_on(xs, sep) + seq![sep] + x);
    } else {
        assert(xs.push(x).drop_first() =~= xs.drop_first().push(x));
        lemma_join_push(xs.drop_first(), x, sep);
        assert(join_on(xs.push(x), sep) =~= join_on(xs, sep) + seq![sep] + x);
    }
}

/// Joining the segments of a split restores the original sequence.
pub proof fn lemma_join_split(s: Seq<char>, sep: char)
    ensures
        join_on(split_on(s, sep), sep) == s,
    decreases s.len(),
{
    if s.len() == 0 {
    } else if s[0] == sep {
        let rest = s.drop_first();
        lemma_join_split(rest, sep);
        lemma_split_len(rest, sep);
        assert(split_on(s, sep).drop_first() =~= split_on(rest, sep));
        assert(split_on(s, sep).len() >= 2);
        assert(join_on(split_on(s, sep), sep) == split_on(s, sep)[0] + seq![sep] + join_on(
            split_on(s, sep).drop_first(),
            sep,
        ));
        assert(join_on(split_on(s, sep), sep) =~= s);
    } else {
        let rest = s.drop_first();
        lemma_join_split(rest, sep);
        lemma_split_len(rest, sep);
        let rsplit = split_on(rest, sep);
        let first = seq![s[0]] + rsplit[0];
        let upd = rsplit.update(0, first);
        if rsplit.len() == 1 {
            assert(join_on(upd, sep) == first);
            assert(first =~= s);
        } else {
            assert(upd.drop_first() =~= rsplit.drop_first());
            assert(join_on(upd, sep) == first + seq![sep] + join_on(rsplit.drop_first(), sep));
            assert(join_on(rsplit, sep) == rsplit[0] + seq![sep] + join_on(
                rsplit.drop_first(),
                sep,
            ));
            let tail_join = join_on(rsplit.drop_first(), sep);
            assert((seq![s[0]] + rsplit[0]) + seq![sep] + tail_join =~= seq![s[0]] + (rsplit[0]
                + seq![sep] + tail_join));
            assert(rest == rsplit[0] + seq![sep] + tail_join);
            assert(seq![s[0]] + rest =~= s);
            assert(join_on(upd, sep) =~= s);
        }
    }
}

/// A sequence without the separator splits into itself alone.
pub proof fn lemma_split_sep_free_whole(t: Seq<char>, sep: char)
    requires
        sep_free(t, sep),
    ensures
        split_on(t, sep) == seq![t],
    decreases t.len(),
{
    if t.len() == 0 {
        assert(t =~= Seq::<char>::empty());
        assert(split_on(t, sep) =~= seq![t]);
    } else {
        let rest = t.drop_first();
        lemma_split_sep_free_whole(rest, sep);
        assert(seq![t[0]] + rest =~= t);
        assert(split_on(t, sep) =~= seq![t]);
    }
}

/// A separator-free segment, a separator, and a remainder split into
/// that segment followed by the split of the remainder.
pub proof fn lemma_split_prepend(seg: Seq<char>, t: Seq<char>, sep: char)
    requires
        sep_free(seg, sep),
    ensures
        split_on(seg + seq![sep] + t, sep) == seq![seg] + split_on(t, sep),
    decreases seg.len(),
{
    let s = seg + seq![sep] + t;
    if seg.len() == 0 {
        assert(s[0] == sep);
        assert(s.drop_first() =~= t);
        assert(seg =~= Seq::<char>::empty());
        assert(split_on(s, sep) =~= seq![seg] + split_on(t, sep));
    } else {
        assert(s[0] == seg[0]);
        assert(s.drop_first() =~= seg.drop_first() + seq![sep] + t);
        lemma_split_prepend(seg.drop_first(), t, sep);
        lemma_split_len(t, sep);
        let rsplit = split_on(s.drop_first(), sep);
        assert(rsplit == seq![seg.drop_first()] + split_on(t, sep));
        assert(rsplit[0] == seg.drop_first());
        assert(seq![s[0]] + seg.drop_first() =~= seg);
        assert(split_on(s, sep) =~= seq![seg] + split_on(t, sep));
    }
}

/// Splitting a join restores the segments, provided none of them
/// contains the separator.
pub proof fn lemma_split_join(xs: Seq<Seq<char>>, sep: char)
    requires
        xs.len() >= 1,
        forall|idx: int| 0 <= idx < xs.len() ==> sep_free(#[trigger] xs[idx], sep),
    ensures
        split_on(join_on(xs, sep), sep) == xs,
    decreases xs.len(),
{
    if xs.len() == 1 {
        lemma_split_sep_free_whole(xs[0], sep);
        assert(split_on(join_on(xs, sep), sep) =~= xs);
    } else {
        lemma_split_join(xs.drop_first(), sep);
        lemma_split_prepend(xs[0], join_on(xs.drop_first(), sep), sep);
        assert(split_on(join_on(xs, sep), sep) =~= xs);
    }
}

/// Split a string into its segments around the separator character.
pub fn split_str(s: &str, sep: char) -> (r: Vec<String>)
    ensures
        r.deep_view() == split_on(s@, sep),
        r@.len() >= 1,
{
    let n = s.unicode_len();
    let mut r: Vec<String> = Vec::new();
    let mut seg_start: usize = 0;
    let mut i: usize = 0;
    proof {
        assert(s@.skip(0) =~= s@);
        assert(r.deep_view() =~= Seq::<Seq<char>>::empty());
        assert(r.deep_view() + split_on(s@, sep) =~= split_on(s@, sep));
    }
    while i < n
        invariant
            seg_start <= i <= n,
            n == s@.len(),
            split_on(s@, sep) == r.deep_view() + split_on(s@.skip(seg_start as int), sep),
            forall|m: int| seg_start <= m < i ==> #[trigger] s@[m] != sep,
        decreases n - i,
    {
        if s.get_char(i) == sep {
            let seg = s.substring_char(seg_start, i);
            let ghost tail = s@.skip(seg_start as int);
            let ghost k: int = i as int - seg_start as int;
            proof {
                assert(forall|m: int| 0 <= m < k ==> #[trigger] tail[m] != sep);
                assert(tail[k] == sep);
                lemma_split_shape(tail, sep, k);
                assert(tail.take(k) =~= seg@);
                assert(tail.skip(k + 1) =~= s@.skip(i as int + 1));
            }
            let owned = seg.to_owned();
            let ghost old_r = r.deep_view();
            r.push(owned);
            proof {
                assert(r.deep_view() =~= old_r.push(seg@));
                assert(r.deep_view() + split_on(s@.skip(i as int + 1), sep) =~= old_r + split_on(
                    tail,
                    sep,
                ));
            }
            seg_start = i + 1;
        }
        i = i + 1;
    }
    let seg = s.substring_char(seg_start, n);
    let ghost tail = s@.skip(seg_start as int);
    proof {
        let k: int = n as int - seg_start as int;
        assert(forall|m: int| 0 <= m < k ==> #[trigger] tail[m] != sep);
        lemma_split_shape(tail, sep, k);
        assert(tail.take(k) =~= tail);
        assert(tail =~= seg@);
    }
    let owned = seg.to_owned();
    let ghost old_r = r.deep_view();
    r.push(owned);
    proof {
        assert(r.deep_view() =~= old_r.push(seg@));
        assert(r.deep_view() =~= old_r + seq![seg@]);
        assert(r.deep_view() =~= split_on(s@, sep));
    }
    r
}

/// Join segments into one string with the separator between them.
/// `sep_str` must spell the same separator as `sep`.
pub fn join_str(segs: &Vec<String>, sep: char, sep_str: &str) -> (r: String)
    requires
        sep_str@ == seq![sep],
    ensures
        r@ == join_on(segs.deep_view(), sep),
{
    let mut r = String::new();
    let n = segs.len();
    let mut i: usize = 0;
    proof {
        assert(segs.deep_view().take(0) =~= Seq::<Seq<char>>::empty());
    }
    while i < n
        invariant
            i <= n,
            n == segs@.len(),
            sep_str@ == seq![sep],
            r@ == join_on(segs.deep_view().take(i as int), sep),
        decreases n - i,
    {
        let ghost dv = segs.deep_view();
        if i > 0 {
            r.append(sep_str);
        }
        r.append(segs[i].as_str());
        proof {
            assert(dv.take(i as int).push(dv[i as int]) =~= dv.take(i as int + 1));
            if i == 0 {
                assert(dv.take(1) =~= seq![dv[0]]);
                assert(r@ =~= dv[0]);
            } else {
                lemma_join_push(dv.take(i as int), dv[i as int], sep);
            }
        }
        i = i + 1;
    }
    proof {
        assert(segs.deep_view().take(n as int) =~= segs.deep_view());
    }
    r
}

} // verus!
