//! The version catalog and the two-step selection protocol: the known
//! release strings, their unique `MAJOR.MINOR` groups in ascending
//! order, the releases of one group in catalog order, and validation
//! of a 1-based menu selection.

use vstd::prelude::*;
use vstd::string::StrSliceExecFns;
use crate::text::{
    is_prefix, lemma_lex_connected, lemma_lex_transitive, lemma_split_len, lemma_split_sep_free_whole,
    lemma_split_shape, lex_lt, split_on, starts_with_prefix, str_lt,
};
use crate::version::is_digit_char;

verus! {

/// The known release strings, in catalog order.
pub open spec fn catalog() -> Seq<Seq<char>> {
    seq![
        "8.0.0"@,
        "8.0.1"@,
        "8.0.2"@,
        "8.0.11"@,
        "8.0.12"@,
        "8.0.13"@,
        "8.0.14"@,
        "8.0.15"@,
        "8.0.16"@,
        "8.0.17"@,
        "8.0.18"@,
        "8.0.19"@,
        "8.0.20"@,
        "8.0.21"@,
        "8.0.22"@,
        "8.0.23"@,
        "8.0.24"@,
        "8.0.25"@,
        "8.0.26"@,
        "8.0.27"@,
        "8.0.28"@,
        "8.0.29"@,
        "8.0.30"@,
        "8.0.31"@,
        "8.0.32"@,
        "8.0.33"@,
        "8.0.34"@,
        "8.0.35"@,
        "8.0.36"@,
        "8.0.37"@,
        "8.0.39"@,
        "8.1.0"@,
        "8.1.1"@,
        "8.2.0"@,
        "8.4.2"@,
        "9.0.1"@,
    ]
}

/// The known release strings, in catalog order.
pub fn mysql_versions() -> (r: Vec<String>)
    ensures
        r.deep_view() == catalog(),
{
    let mut r: Vec<String> = Vec::new();
    r.push("8.0.0".to_owned());
    r.push("8.0.1".to_owned());
    r.push("8.0.2".to_owned());
    r.push("8.0.11".to_owned());
    r.push("8.0.12".to_owned());
    r.push("8.0.13".to_owned());
    r.push("8.0.14".to_owned());
    r.push("8.0.15".to_owned());
    r.push("8.0.16".to_owned());
    r.push("8.0.17".to_owned());
    r.push("8.0.18".to_owned());
    r.push("8.0.19".to_owned());
    r.push("8.0.20".to_owned());
    r.push("8.0.21".to_owned());
    r.push("8.0.22".to_owned());
    r.push("8.0.23".to_owned());
    r.push("8.0.24".to_owned());
    r.push("8.0.25".to_owned());
    r.push("8.0.26".to_owned());
    r.push("8.0.27".to_owned());
    r.push("8.0.28".to_owned());
    r.push("8.0.29".to_owned());
    r.push("8.0.30".to_owned());
    r.push("8.0.31".to_owned());
    r.push("8.0.32".to_owned());
    r.push("8.0.33".to_owned());
    r.push("8.0.34".to_owned());
    r.push("8.0.35".to_owned());
    r.push("8.0.36".to_owned());
    r.push("8.0.37".to_owned());
    r.push("8.0.39".to_owned());
    r.push("8.1.0".to_owned());
    r.push("8.1.1".to_owned());
    r.push("8.2.0".to_owned());
    r.push("8.4.2".to_owned());
    r.push("9.0.1".to_owned());
    proof {
        assert(r.deep_view() =~= catalog());
    }
    r
}

/// The `MAJOR.MINOR` prefix of a version string: its first two
/// dot-separated parts joined by a dot, or nothing if it has fewer
/// than two parts.
pub open spec fn major_minor(v: Seq<char>) -> Option<Seq<char>> {
    let parts = split_on(v, '.');
    if parts.len() >= 2 {
        Some(parts[0] + seq!['.'] + parts[1])
    } else {
        None
    }
}

/// The first position of `c` in `s` at or after `from`, if any.
fn find_char(s: &str, from: usize, c: char) -> (r: Option<usize>)
    requires
        from <= s@.len(),
    ensures
        match r {
            Some(ix) => {
                &&& from <= ix < s@.len()
                &&& s@[ix as int] == c
                &&& forall|m: int| from <= m < ix ==> #[trigger] s@[m] != c
            },
            None => forall|m: int| from <= m < s@.len() ==> #[trigger] s@[m] != c,
        },
{
    let n = s.unicode_len();
    let mut i: usize = from;
    while i < n
        invariant
            from <= i <= n,
            n == s@.len(),
            forall|m: int| from <= m < i ==> #[trigger] s@[m] != c,
        decreases n - i,
    {
        if s.get_char(i) == c {
            return Some(i);
        }
        i = i + 1;
    }
    None
}

/// The `MAJOR.MINOR` prefix of a version string, if it has one.
pub fn major_minor_of(v: &str) -> (r: Option<String>)
    ensures
        r.deep_view() == major_minor(v@),
{
    let n = v.unicode_len();
    let d1 = match find_char(v, 0, '.') {
        None => {
            proof {
                lemma_split_sep_free_whole(v@, '.');
            }
            return None;
        },
        Some(d) => d,
    };
    proof {
        lemma_split_shape(v@, '.', d1 as int);
        lemma_split_len(v@.skip(d1 as int + 1), '.');
    }
    let prefix_end = match find_char(v, d1 + 1, '.') {
        None => n,
        Some(d) => d,
    };
    let ghost tail = v@.skip(d1 as int + 1);
    let ghost k2: int = prefix_end as int - (d1 as int + 1);
    proof {
        assert(forall|m: int| 0 <= m < k2 ==> #[trigger] tail[m] != '.');
        lemma_split_shape(tail, '.', k2);
        let parts = split_on(v@, '.');
        assert(parts[0] == v@.take(d1 as int));
        assert(parts[1] == if k2 == tail.len() {
            tail
        } else {
            tail.take(k2)
        });
        assert(tail.take(k2) =~= v@.subrange(d1 as int + 1, prefix_end as int));
        if k2 == tail.len() {
            assert(tail =~= v@.subrange(d1 as int + 1, prefix_end as int));
        }
        assert(v@.take(d1 as int) + seq!['.'] + v@.subrange(d1 as int + 1, prefix_end as int)
            =~= v@.subrange(0, prefix_end as int));
    }
    let p = v.substring_char(0, prefix_end);
    Some(p.to_owned())
}

/// `p` names a group of `vs`: some entry among the first `n` has it as
/// its `MAJOR.MINOR` prefix.
pub open spec fn is_group_upto(vs: Seq<Seq<char>>, n: int, p: Seq<char>) -> bool {
    exists|k: int| 0 <= k < n && major_minor(#[trigger] vs[k]) == Some(p)
}

/// `p` names a group of `vs`.
pub open spec fn is_group_of(vs: Seq<Seq<char>>, p: Seq<char>) -> bool {
    is_group_upto(vs, vs.len() as int, p)
}

/// The unique `MAJOR.MINOR` groups of the given versions, in strictly
/// ascending lexicographic order: exactly the prefixes of the entries,
/// each once.
pub fn major_minor_groups(versions: &Vec<String>) -> (r: Vec<String>)
    ensures
        forall|a: int, b: int|
            0 <= a < b < r.deep_view().len() ==> lex_lt(
                #[trigger] r.deep_view()[a],
                #[trigger] r.deep_view()[b],
            ),
        forall|idx: int|
            0 <= idx < r.deep_view().len() ==> is_group_of(
                versions.deep_view(),
                #[trigger] r.deep_view()[idx],
            ),
        forall|k: int|
            0 <= k < versions.deep_view().len() ==> (#[trigger] major_minor(
                versions.deep_view()[k],
            ) matches Some(p) ==> r.deep_view().contains(p)),
{
    let ghost vs = versions.deep_view();
    let n = versions.len();
    let mut r: Vec<String> = Vec::new();
    let mut i: usize = 0;
    while i < n
        invariant
            i <= n,
            n == versions@.len(),
            vs == versions.deep_view(),
            forall|a: int, b: int|
                0 <= a < b < r.deep_view().len() ==> lex_lt(
                    #[trigger] r.deep_view()[a],
                    #[trigger] r.deep_view()[b],
                ),
            forall|idx: int|
                0 <= idx < r.deep_view().len() ==> is_group_upto(
                    vs,
                    i as int,
                    #[trigger] r.deep_view()[idx],
                ),
            forall|k: int|
                0 <= k < i ==> (#[trigger] major_minor(vs[k]) matches Some(p)
                    ==> r.deep_view().contains(p)),
        decreases n - i,
    {
        let ghost old_dv = r.deep_view();
        match major_minor_of(versions[i].as_str()) {
            None => {
                proof {
                    assert forall|idx: int|
                        0 <= idx < r.deep_view().len() implies is_group_upto(
                        vs,
                        i as int + 1,
                        #[trigger] r.deep_view()[idx],
                    ) by {
                        let k = choose|k: int|
                            0 <= k < i && major_minor(#[trigger] vs[k]) == Some(
                                r.deep_view()[idx],
                            );
                        assert(major_minor(vs[k]) == Some(r.deep_view()[idx]));
                    }
                }
            },
            Some(p) => {
                let mut j: usize = 0;
                let rlen = r.len();
                while j < rlen && str_lt(r[j].as_str(), p.as_str())
                    invariant
                        j <= rlen,
                        rlen == r.deep_view().len(),
                        p@ == major_minor(vs[i as int])->0,
                        forall|m: int| 0 <= m < j ==> lex_lt(#[trigger] r.deep_view()[m], p@),
                    decreases rlen - j,
                {
                    j = j + 1;
                }
                if j < rlen && !str_lt(p.as_str(), r[j].as_str()) {
                    proof {
                        lemma_lex_connected(r.deep_view()[j as int], p@);
                        assert(r.deep_view()[j as int] == p@);
                        assert(r.deep_view().contains(p@));
                        assert forall|idx: int|
                            0 <= idx < r.deep_view().len() implies is_group_upto(
                            vs,
                            i as int + 1,
                            #[trigger] r.deep_view()[idx],
                        ) by {
                            let k = choose|k: int|
                                0 <= k < i && major_minor(#[trigger] vs[k]) == Some(
                                    r.deep_view()[idx],
                                );
                            assert(major_minor(vs[k]) == Some(r.deep_view()[idx]));
                        }
                    }
                } else {
                    r.insert(j, p);
                    proof {
                        let new_dv = r.deep_view();
                        assert(new_dv =~= old_dv.insert(j as int, p@));
                        assert forall|a: int, b: int| 0 <= a < b < new_dv.len() implies lex_lt(
                            #[trigger] new_dv[a],
                            #[trigger] new_dv[b],
                        ) by {
                            if a < j && b < j {
                            } else if a < j && b == j {
                            } else if a < j && b > j {
                            } else if a == j && b > j {
                                if b - 1 > j {
                                    lemma_lex_transitive(p@, old_dv[j as int], old_dv[b - 1]);
                                }
                            }
                        }
                        assert forall|idx: int| 0 <= idx < new_dv.len() implies is_group_upto(
                            vs,
                            i as int + 1,
                            #[trigger] new_dv[idx],
                        ) by {
                            if idx == j {
                                assert(major_minor(vs[i as int]) == Some(new_dv[idx]));
                            } else {
                                let oidx = if idx < j {
                                    idx
                                } else {
                                    idx - 1
                                };
                                assert(new_dv[idx] == old_dv[oidx]);
                                let k = choose|k: int|
                                    0 <= k < i && major_minor(#[trigger] vs[k]) == Some(
                                        old_dv[oidx],
                                    );
                                assert(major_minor(vs[k]) == Some(new_dv[idx]));
                            }
                        }
                        assert forall|k: int|
                            0 <= k < i as int + 1 implies (#[trigger] major_minor(vs[k]) matches
                        Some(q) ==> r.deep_view().contains(q)) by {
                            if major_minor(vs[k]) is Some {
                                let q = major_minor(vs[k])->0;
                                if k < i {
                                    if old_dv.contains(q) {
                                        let m = choose|m: int|
                                            0 <= m < old_dv.len() && old_dv[m] == q;
                                        if m < j {
                                            assert(new_dv[m] == q);
                                        } else {
                                            assert(new_dv[m + 1] == q);
                                        }
                                    }
                                } else {
                                    assert(new_dv[j as int] == q);
                                }
                            }
                        }
                    }
                }
            },
        }
        i = i + 1;
    }
    proof {
        assert forall|idx: int| 0 <= idx < r.deep_view().len() implies is_group_of(
            vs,
            #[trigger] r.deep_view()[idx],
        ) by {
            assert(is_group_upto(vs, n as int, r.deep_view()[idx]));
        }
    }
    r
}

/// The versions that start with the given prefix, in their original
/// order.
pub open spec fn with_prefix(vs: Seq<Seq<char>>, p: Seq<char>) -> Seq<Seq<char>>
    decreases vs.len(),
{
    if vs.len() == 0 {
        Seq::empty()
    } else if is_prefix(p, vs[0]) {
        seq![vs[0]] + with_prefix(vs.drop_first(), p)
    } else {
        with_prefix(vs.drop_first(), p)
    }
}

/// The catalog entries whose string starts with `prefix`, in catalog
/// order.
pub fn full_versions_for(versions: &Vec<String>, prefix: &str) -> (r: Vec<String>)
    ensures
        r.deep_view() == with_prefix(versions.deep_view(), prefix@),
{
    let ghost vs = versions.deep_view();
    let n = versions.len();
    let mut r: Vec<String> = Vec::new();
    let mut i: usize = 0;
    proof {
        assert(vs.skip(0) =~= vs);
        assert(r.deep_view() =~= Seq::<Seq<char>>::empty());
        assert(with_prefix(vs, prefix@) =~= r.deep_view() + with_prefix(vs.skip(0), prefix@));
    }
    while i < n
        invariant
            i <= n,
            n == versions@.len(),
            vs == versions.deep_view(),
            with_prefix(vs, prefix@) == r.deep_view() + with_prefix(vs.skip(i as int), prefix@),
        decreases n - i,
    {
        let ghost tail = vs.skip(i as int);
        proof {
            assert(tail[0] == vs[i as int]);
            assert(tail.drop_first() =~= vs.skip(i as int + 1));
        }
        if starts_with_prefix(versions[i].as_str(), prefix) {
            let ghost old_r = r.deep_view();
            let item = versions[i].clone();
            r.push(item);
            proof {
                assert(r.deep_view() =~= old_r.push(vs[i as int]));
                assert(with_prefix(tail, prefix@) == seq![vs[i as int]] + with_prefix(
                    vs.skip(i as int + 1),
                    prefix@,
                ));
                assert(old_r.push(vs[i as int]) + with_prefix(vs.skip(i as int + 1), prefix@)
                    =~= old_r + with_prefix(tail, prefix@));
            }
        } else {
            proof {
                assert(with_prefix(tail, prefix@) == with_prefix(vs.skip(i as int + 1), prefix@));
            }
        }
        i = i + 1;
    }
    proof {
        assert(vs.skip(n as int) =~= Seq::<Seq<char>>::empty());
        assert(with_prefix(Seq::<Seq<char>>::empty(), prefix@) =~= Seq::<Seq<char>>::empty());
        assert(r.deep_view() =~= with_prefix(vs, prefix@));
    }
    r
}

/// Every character of `s` is a decimal digit.
pub open spec fn all_digits(s: Seq<char>) -> bool {
    forall|k: int| 0 <= k < s.len() ==> is_digit_char(#[trigger] s[k])
}

/// The decimal value spelled by `s`.
pub open spec fn dec_value(s: Seq<char>) -> int
    decreases s.len(),
{
    if s.len() == 0 {
        0
    } else {
        dec_value(s.drop_last()) * 10 + (s.last() as u32 - '0' as u32)
    }
}

/// A digit string spells a non-negative value.
pub proof fn lemma_dec_value_nonneg(s: Seq<char>)
    requires
        all_digits(s),
    ensures
        dec_value(s) >= 0,
    decreases s.len(),
{
    if s.len() != 0 {
        assert(all_digits(s.drop_last()));
        lemma_dec_value_nonneg(s.drop_last());
    }
}

/// The value of a digit string is at least the value of any of its
/// prefixes.
proof fn lemma_dec_value_prefix(s: Seq<char>, m: int)
    requires
        all_digits(s),
        0 <= m <= s.len(),
    ensures
        dec_value(s.take(m)) <= dec_value(s),
    decreases s.len() - m,
{
    if m == s.len() {
        assert(s.take(m) =~= s);
    } else {
        lemma_dec_value_prefix(s, m + 1);
        assert(s.take(m + 1).drop_last() =~= s.take(m));
        assert(all_digits(s.take(m)));
        lemma_dec_value_nonneg(s.take(m));
        assert(dec_value(s.take(m + 1)) == dec_value(s.take(m)) * 10 + (s[m] as u32 - '0' as u32));
        assert(dec_value(s.take(m)) * 10 >= dec_value(s.take(m)));
    }
}

/// Parse a string of decimal digits. The result is the spelled value
/// exactly when the string is non-empty, all digits, and the value
/// fits; otherwise nothing.
pub fn parse_index(s: &str) -> (r: Option<usize>)
    ensures
        match r {
            Some(v) => s@.len() > 0 && all_digits(s@) && v == dec_value(s@),
            None => s@.len() == 0 || !all_digits(s@) || dec_value(s@) > usize::MAX,
        },
{
    let n = s.unicode_len();
    if n == 0 {
        return None;
    }
    let mut acc: usize = 0;
    let mut i: usize = 0;
    proof {
        assert(s@.take(0) =~= Seq::<char>::empty());
    }
    while i < n
        invariant
            i <= n,
            n == s@.len(),
            all_digits(s@.take(i as int)),
            acc == dec_value(s@.take(i as int)),
        decreases n - i,
    {
        let c = s.get_char(i);
        if (c as u32) < ('0' as u32) || (c as u32) > ('9' as u32) {
            assert(!is_digit_char(s@[i as int]));
            return None;
        }
        let d = ((c as u32) - ('0' as u32)) as usize;
        proof {
            assert(s@.take(i as int + 1).drop_last() =~= s@.take(i as int));
            assert(all_digits(s@.take(i as int + 1)));
            assert(dec_value(s@.take(i as int + 1)) == acc * 10 + d);
        }
        if acc > (usize::MAX - d) / 10 {
            proof {
                lemma_dec_value_nonneg(s@.take(i as int + 1));
                assert(acc * 10 + d > usize::MAX) by (nonlinear_arith)
                    requires
                        acc > (usize::MAX - d) / 10,
                        0 <= d <= 9,
                ;
                if all_digits(s@) {
                    lemma_dec_value_prefix(s@, i as int + 1);
                }
            }
            return None;
        }
        proof {
            assert(acc * 10 + d <= usize::MAX) by (nonlinear_arith)
                requires
                    acc <= (usize::MAX - d) / 10,
                    0 <= d <= 9,
            ;
        }
        acc = acc * 10 + d;
        i = i + 1;
    }
    proof {
        assert(s@.take(n as int) =~= s@);
    }
    Some(acc)
}

/// A valid 1-based selection from a list of the given length: the
/// 0-based index it names, if the input spells a number in range.
pub open spec fn selection(s: Seq<char>, len: int) -> Option<int> {
    if s.len() > 0 && all_digits(s) && 1 <= dec_value(s) <= len {
        Some(dec_value(s) - 1)
    } else {
        None
    }
}

/// Validate a 1-based menu selection against a list of `len` entries:
/// the chosen 0-based index, or nothing for non-numeric or
/// out-of-range input.
pub fn select_index(len: usize, input: &str) -> (r: Option<usize>)
    ensures
        match r {
            Some(ix) => selection(input@, len as int) == Some(ix as int),
            None => selection(input@, len as int) is None,
        },
{
    match parse_index(input) {
        None => {
            proof {
                if input@.len() > 0 && all_digits(input@) {
                    assert(dec_value(input@) > usize::MAX);
                }
            }
            None
        },
        Some(k) => {
            if 1 <= k && k <= len {
                Some(k - 1)
            } else {
                None
            }
        },
    }
}

} // verus!
