//! The environment mutator: the model of the persisted state and the
//! two operations on it, install and uninstall.
//!
//! The state is two optional string variables and the PATH value. An
//! install points both variables at one version's directories and
//! rewrites PATH so that exactly one segment carries the install
//! marker: the version's binary directory, appended last. An uninstall
//! clears both variables and removes every marker-bearing segment.

use vstd::prelude::*;
use vstd::string::StrSliceExecFns;
use vstd::string::StringExecFns;
use crate::pathlist::{
    drop_marked, has_marker, lemma_drop_marked_concat, lemma_drop_marked_sep_free,
    lemma_drop_marked_unmarked, lemma_marked_segments_concat, lemma_marked_singleton,
    lemma_unmarked_identity, marked_segments, marker_at, remove_marker_segments,
};
use crate::text::{
    join_on, join_str, lemma_join_split, lemma_split_join, lemma_split_len, lemma_split_sep_free,
    sep_free, split_on, split_str,
};
use crate::version::{is_digit_char, is_version_format, lemma_version_chars};

verus! {

/// The mathematical view of the persisted environment: the two
/// variables, absent or holding a character sequence, and the PATH
/// value as one character sequence.
#[verifier::ext_equal]
pub struct EnvView {
    pub lib_dir: Option<Seq<char>>,
    pub version: Option<Seq<char>>,
    pub path: Seq<char>,
}

/// The persisted environment as read from the store: the two variables
/// and the PATH value.
pub struct EnvState {
    pub lib_dir: Option<String>,
    pub version: Option<String>,
    pub path: String,
}

impl View for EnvState {
    type V = EnvView;

    open spec fn view(&self) -> EnvView {
        EnvView {
            lib_dir: self.lib_dir.deep_view(),
            version: self.version.deep_view(),
            path: self.path@,
        }
    }
}

/// The library directory that an install of `v` points `LIB_DIR` at.
pub open spec fn lib_dir_chars(v: Seq<char>) -> Seq<char> {
    "C:\\mysql-"@ + v + "-winx64\\lib"@
}

/// The binary directory that an install of `v` appends to PATH.
pub open spec fn bin_dir_chars(v: Seq<char>) -> Seq<char> {
    "C:\\mysql-"@ + v + "-winx64\\bin"@
}

/// The PATH segments after an install of `v`: the previous segments
/// without the marker-bearing ones, then the new binary directory.
pub open spec fn install_segments(path: Seq<char>, v: Seq<char>) -> Seq<Seq<char>> {
    drop_marked(split_on(path, ';')).push(bin_dir_chars(v))
}

/// The state after an install of `v`.
pub open spec fn spec_install(e: EnvView, v: Seq<char>) -> EnvView {
    EnvView {
        lib_dir: Some(lib_dir_chars(v)),
        version: Some(v),
        path: join_on(install_segments(e.path, v), ';'),
    }
}

/// The state after an uninstall.
pub open spec fn spec_uninstall(e: EnvView) -> EnvView {
    EnvView { lib_dir: None, version: None, path: join_on(drop_marked(split_on(e.path, ';')), ';') }
}

/// The binary directory carries the marker.
pub proof fn lemma_bin_dir_marked(v: Seq<char>)
    ensures
        has_marker(bin_dir_chars(v)),
{
    let b = bin_dir_chars(v);
    reveal_strlit("C:\\mysql-");
    let p = "C:\\mysql-"@;
    assert(p.len() == 9);
    assert forall|k: int| 0 <= k < 6 implies b[3 + k] == #[trigger] crate::pathlist::marker()[k] by {
        assert(b[3 + k] == p[3 + k]);
    }
    assert(marker_at(b, 3));
}

/// Neither derived directory contains the separator, for a well-formed
/// version.
pub proof fn lemma_dirs_sep_free(v: Seq<char>)
    requires
        is_version_format(v),
    ensures
        sep_free(bin_dir_chars(v), ';'),
        sep_free(lib_dir_chars(v), ';'),
{
    reveal_strlit("C:\\mysql-");
    reveal_strlit("-winx64\\bin");
    reveal_strlit("-winx64\\lib");
    lemma_version_chars(v);
    let p = "C:\\mysql-"@;
    let sb = "-winx64\\bin"@;
    let sl = "-winx64\\lib"@;
    let b = bin_dir_chars(v);
    let l = lib_dir_chars(v);
    assert forall|k: int| 0 <= k < b.len() implies #[trigger] b[k] != ';' by {
        if k < p.len() {
            assert(b[k] == p[k]);
        } else if k < p.len() + v.len() {
            assert(b[k] == v[k - p.len()]);
            assert(is_digit_char(v[k - p.len()]) || v[k - p.len()] == '.');
        } else {
            assert(b[k] == sb[k - p.len() - v.len()]);
        }
    }
    assert forall|k: int| 0 <= k < l.len() implies #[trigger] l[k] != ';' by {
        if k < p.len() {
            assert(l[k] == p[k]);
        } else if k < p.len() + v.len() {
            assert(l[k] == v[k - p.len()]);
            assert(is_digit_char(v[k - p.len()]) || v[k - p.len()] == '.');
        } else {
            assert(l[k] == sl[k - p.len() - v.len()]);
        }
    }
}

/// The empty sequence carries no marker.
proof fn lemma_empty_unmarked()
    ensures
        !has_marker(Seq::<char>::empty()),
{
    assert(forall|i: int| !marker_at(Seq::<char>::empty(), i));
}

/// A sequence with no marker-bearing part in `marked_segments` has no
/// marker-bearing segment at all.
pub proof fn lemma_marked_empty_all_unmarked(xs: Seq<Seq<char>>)
    requires
        marked_segments(xs) == Seq::<Seq<char>>::empty(),
    ensures
        forall|idx: int| 0 <= idx < xs.len() ==> !has_marker(#[trigger] xs[idx]),
    decreases xs.len(),
{
    if xs.len() != 0 {
        assert(!has_marker(xs[0]));
        lemma_marked_empty_all_unmarked(xs.drop_first());
        assert forall|idx: int| 0 <= idx < xs.len() implies !has_marker(#[trigger] xs[idx]) by {
            if idx > 0 {
                assert(xs[idx] == xs.drop_first()[idx - 1]);
            }
        }
    }
}

/// The library directory for `version`, as a string.
pub fn lib_dir_for(version: &str) -> (r: String)
    ensures
        r@ == lib_dir_chars(version@),
{
    let mut r = "C:\\mysql-".to_owned();
    r.append(version);
    r.append("-winx64\\lib");
    r
}

/// The binary directory for `version`, as a string.
pub fn bin_dir_for(version: &str) -> (r: String)
    ensures
        r@ == bin_dir_chars(version@),
{
    let mut r = "C:\\mysql-".to_owned();
    r.append(version);
    r.append("-winx64\\bin");
    r
}

/// Rewrite a PATH value for an install of `version`: every
/// marker-bearing segment is removed, and the version's binary
/// directory is appended as the last segment, which is then the only
/// marker-bearing one.
pub fn rewrite_path_install(path: &str, version: &str) -> (r: String)
    requires
        is_version_format(version@),
    ensures
        r@ == join_on(install_segments(path@, version@), ';'),
        split_on(r@, ';') == install_segments(path@, version@),
        marked_segments(split_on(r@, ';')) == seq![bin_dir_chars(version@)],
{
    let segs = split_str(path, ';');
    let mut kept = remove_marker_segments(&segs);
    let bin = bin_dir_for(version);
    kept.push(bin);
    let ghost ks = install_segments(path@, version@);
    proof {
        assert(kept.deep_view() =~= ks);
        reveal_strlit(";");
        assert(";"@ =~= seq![';']);
    }
    let r = join_str(&kept, ';', ";");
    proof {
        lemma_split_sep_free(path@, ';');
        lemma_drop_marked_sep_free(split_on(path@, ';'), ';');
        lemma_dirs_sep_free(version@);
        assert forall|idx: int| 0 <= idx < ks.len() implies sep_free(#[trigger] ks[idx], ';') by {
            if idx < ks.len() - 1 {
                assert(ks[idx] == drop_marked(split_on(path@, ';'))[idx]);
            }
        }
        lemma_split_join(ks, ';');
        lemma_drop_marked_unmarked(split_on(path@, ';'));
        lemma_unmarked_identity(drop_marked(split_on(path@, ';')));
        lemma_bin_dir_marked(version@);
        lemma_marked_singleton(bin_dir_chars(version@));
        lemma_marked_segments_concat(
            drop_marked(split_on(path@, ';')),
            seq![bin_dir_chars(version@)],
        );
        assert(ks =~= drop_marked(split_on(path@, ';')) + seq![bin_dir_chars(version@)]);
        assert(marked_segments(ks) =~= seq![bin_dir_chars(version@)]);
    }
    r
}

/// Rewrite a PATH value for an uninstall: every marker-bearing segment
/// is removed and nothing is appended. A PATH with no marker-bearing
/// segment comes back unchanged.
pub fn rewrite_path_remove(path: &str) -> (r: String)
    ensures
        r@ == join_on(drop_marked(split_on(path@, ';')), ';'),
        marked_segments(split_on(r@, ';')) == Seq::<Seq<char>>::empty(),
        marked_segments(split_on(path@, ';')) == Seq::<Seq<char>>::empty() ==> r@ == path@,
{
    let segs = split_str(path, ';');
    let kept = remove_marker_segments(&segs);
    proof {
        reveal_strlit(";");
        assert(";"@ =~= seq![';']);
    }
    let r = join_str(&kept, ';', ";");
    proof {
        let ghost ks = drop_marked(split_on(path@, ';'));
        lemma_split_sep_free(path@, ';');
        lemma_drop_marked_sep_free(split_on(path@, ';'), ';');
        lemma_drop_marked_unmarked(split_on(path@, ';'));
        if ks.len() == 0 {
            assert(r@ =~= Seq::<char>::empty());
            assert(split_on(r@, ';') =~= seq![Seq::<char>::empty()]);
            lemma_empty_unmarked();
            assert(seq![Seq::<char>::empty()].drop_first() =~= Seq::<Seq<char>>::empty());
            assert(marked_segments(Seq::<Seq<char>>::empty()) =~= Seq::<Seq<char>>::empty());
            assert(marked_segments(seq![Seq::<char>::empty()]) =~= Seq::<Seq<char>>::empty());
            assert(marked_segments(split_on(r@, ';')) =~= Seq::<Seq<char>>::empty());
        } else {
            lemma_split_join(ks, ';');
            lemma_unmarked_identity(ks);
        }
        if marked_segments(split_on(path@, ';')) == Seq::<Seq<char>>::empty() {
            lemma_marked_empty_all_unmarked(split_on(path@, ';'));
            lemma_unmarked_identity(split_on(path@, ';'));
            lemma_join_split(path@, ';');
        }
    }
    r
}

/// Install `version`: point `LIB_DIR` at its library directory, set
/// `VERSION` to it, and rewrite PATH so that the only marker-bearing
/// segment is its binary directory, appended last.
pub fn install(state: &EnvState, version: &str) -> (r: EnvState)
    requires
        is_version_format(version@),
    ensures
        r@ == spec_install(state@, version@),
        r@.version == Some(version@),
        r@.lib_dir == Some(lib_dir_chars(version@)),
        split_on(r@.path, ';') == install_segments(state@.path, version@),
        marked_segments(split_on(r@.path, ';')) == seq![bin_dir_chars(version@)],
{
    let lib = lib_dir_for(version);
    let ver = version.to_owned();
    let path = rewrite_path_install(state.path.as_str(), version);
    let r = EnvState { lib_dir: Some(lib), version: Some(ver), path };
    proof {
        assert(r@ =~= spec_install(state@, version@));
    }
    r
}

/// Uninstall: clear both variables and remove every marker-bearing
/// segment from PATH.
pub fn uninstall(state: &EnvState) -> (r: EnvState)
    ensures
        r@ == spec_uninstall(state@),
        r@.lib_dir is None,
        r@.version is None,
        marked_segments(split_on(r@.path, ';')) == Seq::<Seq<char>>::empty(),
        marked_segments(split_on(state@.path, ';')) == Seq::<Seq<char>>::empty() ==> r@.path
            == state@.path,
{
    let path = rewrite_path_remove(state.path.as_str());
    let r = EnvState { lib_dir: None, version: None, path };
    proof {
        assert(r@ =~= spec_uninstall(state@));
    }
    r
}

/// The segments of the PATH written by an install are separator-free.
proof fn lemma_install_segments_sep_free(path: Seq<char>, v: Seq<char>)
    requires
        is_version_format(v),
    ensures
        forall|idx: int|
            0 <= idx < install_segments(path, v).len() ==> sep_free(
                #[trigger] install_segments(path, v)[idx],
                ';',
            ),
{
    lemma_split_sep_free(path, ';');
    lemma_drop_marked_sep_free(split_on(path, ';'), ';');
    lemma_dirs_sep_free(v);
    let ks = install_segments(path, v);
    assert forall|idx: int| 0 <= idx < ks.len() implies sep_free(#[trigger] ks[idx], ';') by {
        if idx < ks.len() - 1 {
            assert(ks[idx] == drop_marked(split_on(path, ';'))[idx]);
        }
    }
}

/// Installing over a previous install of any version leaves the same
/// state as installing over the original state: the overwrite is
/// complete, and in particular two installs of one version are the
/// same as one.
pub proof fn lemma_install_overwrites(e: EnvView, v1: Seq<char>, v2: Seq<char>)
    requires
        is_version_format(v1),
        is_version_format(v2),
    ensures
        spec_install(spec_install(e, v1), v2) == spec_install(e, v2),
{
    let kept = drop_marked(split_on(e.path, ';'));
    let s1 = install_segments(e.path, v1);
    lemma_install_segments_sep_free(e.path, v1);
    lemma_split_join(s1, ';');
    assert(s1 =~= kept + seq![bin_dir_chars(v1)]);
    lemma_drop_marked_concat(kept, seq![bin_dir_chars(v1)]);
    lemma_drop_marked_unmarked(split_on(e.path, ';'));
    lemma_unmarked_identity(kept);
    lemma_bin_dir_marked(v1);
    lemma_marked_singleton(bin_dir_chars(v1));
    assert(drop_marked(s1) =~= kept);
    assert(install_segments(spec_install(e, v1).path, v2) =~= install_segments(e.path, v2));
    assert(spec_install(spec_install(e, v1), v2) =~= spec_install(e, v2));
}

/// Installing the same version twice leaves the same state as
/// installing it once.
pub proof fn lemma_install_idempotent(e: EnvView, v: Seq<char>)
    requires
        is_version_format(v),
    ensures
        spec_install(spec_install(e, v), v) == spec_install(e, v),
{
    lemma_install_overwrites(e, v, v);
}

/// After an uninstall, from any state, both variables are absent and
/// no segment of PATH carries the marker.
pub proof fn lemma_uninstall_clears(e: EnvView)
    ensures
        spec_uninstall(e).lib_dir is None,
        spec_uninstall(e).version is None,
        marked_segments(split_on(spec_uninstall(e).path, ';')) == Seq::<Seq<char>>::empty(),
{
    let ks = drop_marked(split_on(e.path, ';'));
    lemma_split_sep_free(e.path, ';');
    lemma_drop_marked_sep_free(split_on(e.path, ';'), ';');
    lemma_drop_marked_unmarked(split_on(e.path, ';'));
    if ks.len() == 0 {
        let empty_path = spec_uninstall(e).path;
        assert(empty_path =~= Seq::<char>::empty());
        assert(split_on(empty_path, ';') =~= seq![Seq::<char>::empty()]);
        lemma_empty_unmarked();
        assert(seq![Seq::<char>::empty()].drop_first() =~= Seq::<Seq<char>>::empty());
        assert(marked_segments(Seq::<Seq<char>>::empty()) =~= Seq::<Seq<char>>::empty());
        assert(marked_segments(seq![Seq::<char>::empty()]) =~= Seq::<Seq<char>>::empty());
        assert(marked_segments(split_on(empty_path, ';')) =~= Seq::<Seq<char>>::empty());
    } else {
        lemma_split_join(ks, ';');
        lemma_unmarked_identity(ks);
    }
}

/// An uninstall on a state whose PATH has no marker-bearing segment
/// leaves the PATH value unchanged.
pub proof fn lemma_uninstall_clean_noop(e: EnvView)
    requires
        marked_segments(split_on(e.path, ';')) == Seq::<Seq<char>>::empty(),
    ensures
        spec_uninstall(e).path == e.path,
{
    lemma_marked_empty_all_unmarked(split_on(e.path, ';'));
    lemma_unmarked_identity(split_on(e.path, ';'));
    lemma_join_split(e.path, ';');
}

/// Uninstalling twice leaves the same state as uninstalling once.
pub proof fn lemma_uninstall_idempotent(e: EnvView)
    ensures
        spec_uninstall(spec_uninstall(e)) == spec_uninstall(e),
{
    lemma_uninstall_clears(e);
    lemma_uninstall_clean_noop(spec_uninstall(e));
    assert(spec_uninstall(spec_uninstall(e)) =~= spec_uninstall(e));
}

} // verus!
