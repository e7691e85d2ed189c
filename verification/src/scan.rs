//! Selection of the initial tracked set: which directory entries are
//! markdown documents, in stable order.
//!
//! Reading the directory is the caller's step; this module decides, from
//! each entry's name and whether it is a regular file, which entries are
//! tracked, and orders them lexicographically so startup and navigation
//! see the same stable order.

use crate::paths::is_markdown_path;
use crate::text::{key_lt, lemma_key_lt_connected, lemma_lex_lt_irrefl, lemma_lex_lt_trans, str_lt};
use vstd::prelude::*;
use vstd::seq_lib::*;
use vstd::string::*;

verus! {

/// One directory entry offered to the scan: its path and whether it is
/// a regular file.
pub struct FileCandidate {
    pub path: String,
    pub is_file: bool,
}

/// The model of a directory entry.
pub ghost struct CandidateView {
    pub path: Seq<char>,
    pub is_file: bool,
}

impl View for FileCandidate {
    type V = CandidateView;

    open spec fn view(&self) -> CandidateView {
        CandidateView { path: self.path@, is_file: self.is_file }
    }
}

/// An entry is kept when it is a regular file with a markdown extension.
pub open spec fn keeps(c: CandidateView) -> bool {
    c.is_file && is_markdown_path(c.path)
}

/// The models of a sequence of entries.
pub open spec fn candidate_views(s: Seq<FileCandidate>) -> Seq<CandidateView> {
    s.map_values(|c: FileCandidate| c@)
}

/// The models of a sequence of strings.
pub open spec fn string_views(s: Seq<String>) -> Seq<Seq<char>> {
    s.map_values(|x: String| x@)
}

/// The paths of the kept entries, in offer order.
pub open spec fn kept_paths(s: Seq<CandidateView>) -> Seq<Seq<char>> {
    s.filter(|c: CandidateView| keeps(c)).map_values(|c: CandidateView| c.path)
}

/// Keys in non-decreasing lexicographic order.
pub open spec fn sorted_keys(s: Seq<Seq<char>>) -> bool {
    forall|i: int, j: int| 0 <= i < j < s.len() ==> !key_lt(#[trigger] s[j], #[trigger] s[i])
}

/// Inserts a string at its place in the lexicographic order.
fn insert_string_sorted(out: &mut Vec<String>, x: String)
    requires
        sorted_keys(string_views(old(out)@)),
    ensures
        sorted_keys(string_views(final(out)@)),
        string_views(final(out)@).to_multiset() == string_views(old(out)@).to_multiset().insert(
            x@,
        ),
{
    let n = out.len();
    let mut pos: usize = 0;
    while pos < n && !str_lt(x.as_str(), out[pos].as_str())
        invariant
            0 <= pos <= n,
            n == out@.len(),
            forall|k: int| 0 <= k < pos ==> !key_lt(x@, (#[trigger] out@[k])@),
        decreases n - pos,
    {
        pos = pos + 1;
    }
    let ghost before = string_views(out@);
    proof {
        assert forall|k: int| pos <= k < n implies key_lt(x@, (#[trigger] out@[k])@) by {
            assert(key_lt(x@, out@[pos as int]@));
            if k > pos {
                assert(string_views(out@)[pos as int] == out@[pos as int]@);
                assert(string_views(out@)[k] == out@[k]@);
                let a = vstd::utf8::encode_utf8(x@);
                let b = vstd::utf8::encode_utf8(out@[pos as int]@);
                let c = vstd::utf8::encode_utf8(out@[k]@);
                assert(!key_lt(out@[k]@, out@[pos as int]@));
                if crate::text::lex_lt(b, c) {
                    lemma_lex_lt_trans(a, b, c);
                } else {
                    lemma_key_lt_connected(out@[pos as int]@, out@[k]@);
                }
            }
        }
    }
    out.insert(pos, x);
    proof {
        let after = string_views(out@);
        out@.insert_ensures(pos as int, x);
        assert(after =~= before.insert(pos as int, x@)) by {
            assert forall|k: int| 0 <= k < after.len() implies after[k] == before.insert(
                pos as int,
                x@,
            )[k] by {
                before.insert_ensures(pos as int, x@);
                if k < pos {
                    assert(out@[k] == old(out)@[k]);
                } else if k > pos {
                    assert(out@[k] == old(out)@[k - 1]);
                }
            }
        }
        assert forall|i: int, j: int|
            0 <= i < j < after.len() implies !key_lt(#[trigger] after[j], #[trigger] after[i]) by {
            before.insert_ensures(pos as int, x@);
            if j < pos {
            } else if j == pos {
                if key_lt(after[j], after[i]) {
                    assert(!key_lt(x@, before[i]));
                    lemma_lex_lt_irrefl(vstd::utf8::encode_utf8(x@));
                    lemma_lex_lt_trans(
                        vstd::utf8::encode_utf8(x@),
                        vstd::utf8::encode_utf8(before[i]),
                        vstd::utf8::encode_utf8(x@),
                    );
                }
            } else {
                if i == pos {
                    if key_lt(after[j], after[i]) {
                        lemma_lex_lt_irrefl(vstd::utf8::encode_utf8(x@));
                        lemma_lex_lt_trans(
                            vstd::utf8::encode_utf8(x@),
                            vstd::utf8::encode_utf8(before[j - 1]),
                            vstd::utf8::encode_utf8(x@),
                        );
                    }
                } else if i < pos {
                }
            }
        }
        let s2 = before.insert(pos as int, x@);
        assert(s2.remove(pos as int) =~= before) by {
            s2.remove_ensures(pos as int);
            before.insert_ensures(pos as int, x@);
        }
        broadcast use vstd::seq_lib::group_to_multiset_ensures;

        assert(s2.remove(pos as int).to_multiset() =~= s2.to_multiset().remove(x@));
        assert(s2.to_multiset() =~= before.to_multiset().insert(x@)) by {
            assert(before.to_multiset() =~= s2.to_multiset().remove(x@));
            assert(s2.to_multiset().contains(x@)) by {
                assert(s2[pos as int] == x@);
                assert(s2.contains(x@));
            }
            assert forall|y: Seq<char>| true implies s2.to_multiset().count(y)
                == before.to_multiset().insert(x@).count(y) by {
                if y == x@ {
                    assert(before.to_multiset().insert(x@).count(y) == s2.to_multiset().remove(
                        x@,
                    ).count(y) + 1);
                } else {
                    assert(before.to_multiset().insert(x@).count(y) == s2.to_multiset().remove(
                        x@,
                    ).count(y));
                }
            }
        }
    }
}

/// Selects and orders the markdown documents among the offered
/// directory entries: exactly the regular files with a markdown
/// extension, in lexicographic order (whatever order they were offered
/// in), with multiplicity preserved.
pub fn select_markdown_files(candidates: &Vec<FileCandidate>) -> (r: Vec<String>)
    ensures
        sorted_keys(string_views(r@)),
        string_views(r@).to_multiset() == kept_paths(candidate_views(candidates@)).to_multiset(),
{
    let n = candidates.len();
    let mut out: Vec<String> = Vec::new();
    proof {
        reveal(Seq::filter);
        assert(candidates@.take(0) =~= Seq::<FileCandidate>::empty());
        assert(candidate_views(candidates@.take(0)) =~= Seq::<CandidateView>::empty());
        assert(string_views(out@) =~= Seq::<Seq<char>>::empty());
        assert(kept_paths(candidate_views(candidates@.take(0))) =~= Seq::<Seq<char>>::empty());
    }
    let mut i: usize = 0;
    while i < n
        invariant
            0 <= i <= n,
            n == candidates@.len(),
            sorted_keys(string_views(out@)),
            string_views(out@).to_multiset() == kept_paths(
                candidate_views(candidates@.take(i as int)),
            ).to_multiset(),
        decreases n - i,
    {
        let ghost pref = candidate_views(candidates@.take(i as int));
        let ghost pref2 = candidate_views(candidates@.take(i + 1));
        proof {
            reveal(Seq::filter);
            assert(pref2.drop_last() =~= pref);
            assert(pref2.last() == candidates@[i as int]@);
            broadcast use vstd::seq_lib::group_to_multiset_ensures;

            let p = |c: CandidateView| keeps(c);
            if keeps(candidates@[i as int]@) {
                assert(pref2.filter(p) == pref.filter(p).push(pref2.last()));
                assert(kept_paths(pref2) =~= kept_paths(pref).push(candidates@[i as int]@.path));
            } else {
                assert(pref2.filter(p) == pref.filter(p));
                assert(kept_paths(pref2) =~= kept_paths(pref));
            }
        }
        let keep = candidates[i].is_file && crate::paths::is_markdown_file(
            candidates[i].path.as_str(),
        );
        if keep {
            let x = candidates[i].path.clone();
            insert_string_sorted(&mut out, x);
        }
        i = i + 1;
    }
    proof {
        assert(candidates@.take(n as int) =~= candidates@);
    }
    out
}

} // verus!
