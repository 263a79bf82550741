//! The filesystem model the four operations are verified against: a set of
//! directory paths and a map from file paths to contents. The operations
//! mutate it exactly as the corresponding filesystem calls mutate a real
//! tree, so the contracts here state what installing and resetting icons do.

use vstd::prelude::*;
use vstd::relations::sorted_by;
use crate::IconError;
use crate::codec::{b64_decode_of, payload_of, base64_decode};
use crate::paths::{
    icons_dir_spec, icon_path_spec, icons_dir_path, icon_file_path, is_under, no_slash,
    path_is_under, child_name_of,
};
use crate::scan::{views_of, is_version_name_spec, is_version_name, insert_sorted};
use crate::text::{lex_leq_fn, str_eq};

verus! {

/// One file of the modelled tree: its path and its contents.
pub struct FileEntry {
    pub path: String,
    pub data: Vec<u8>,
}

/// Whether some entry carries the path `k`.
pub open spec fn entries_contain(s: Seq<FileEntry>, k: Seq<char>) -> bool {
    exists|i: int| 0 <= i < s.len() && s[i].path@ == k
}

/// Whether some name in the sequence reads `q`.
pub open spec fn names_contain(s: Seq<String>, q: Seq<char>) -> bool {
    exists|i: int| 0 <= i < s.len() && s[i]@ == q
}

/// The directories created by making `p` together with its missing
/// ancestors: `p` itself and each prefix of `p` that ends at a separator.
pub open spec fn dir_chain(p: Seq<char>) -> Set<Seq<char>> {
    Set::new(
        |q: Seq<char>|
            q == p || (q.len() < p.len() && p.subrange(0, q.len() as int) == q && p[q.len() as int]
                == '/'),
    )
}

/// A modelled filesystem tree.
pub struct FsModel {
    files: Vec<FileEntry>,
    dirs: Vec<String>,
}

impl FsModel {
    /// The directories of the tree.
    pub closed spec fn dirs_view(&self) -> Set<Seq<char>> {
        Set::new(|p: Seq<char>| names_contain(self.dirs@, p))
    }

    /// The files of the tree: each path maps to its contents.
    pub closed spec fn files_view(&self) -> Map<Seq<char>, Seq<u8>> {
        Map::new(
            |k: Seq<char>| entries_contain(self.files@, k),
            |k: Seq<char>|
                {
                    let i = choose|i: int|
                        0 <= i < self.files@.len() && self.files@[i].path@ == k;
                    self.files@[i].data@
                },
        )
    }

    /// No path occurs twice, among the files nor among the directories.
    pub closed spec fn wf(&self) -> bool {
        &&& forall|i: int, j: int|
            0 <= i < j < self.files@.len() ==> self.files@[i].path@ != self.files@[j].path@
        &&& forall|i: int, j: int| 0 <= i < j < self.dirs@.len() ==> self.dirs@[i]@ != self.dirs@[j]@
    }

    /// An empty tree: no directories and no files.
    pub fn new() -> (r: FsModel)
        ensures
            r.wf(),
            r.dirs_view() == Set::<Seq<char>>::empty(),
            r.files_view() == Map::<Seq<char>, Seq<u8>>::empty(),
    {
        let r = FsModel { files: Vec::new(), dirs: Vec::new() };
        proof {
            assert(r.dirs_view() =~= Set::<Seq<char>>::empty());
            assert(r.files_view() =~= Map::<Seq<char>, Seq<u8>>::empty());
        }
        r
    }

    /// Whether a directory with this path exists.
    pub fn dir_exists(&self, path: &str) -> (r: bool)
        ensures
            r == self.dirs_view().contains(path@),
    {
        let mut i: usize = 0;
        while i < self.dirs.len()
            invariant
                0 <= i <= self.dirs@.len(),
                forall|j: int| 0 <= j < i ==> self.dirs@[j]@ != path@,
            decreases self.dirs@.len() - i,
        {
            if str_eq(self.dirs[i].as_str(), path) {
                return true;
            }
            i = i + 1;
        }
        false
    }

    /// Whether a file with this path exists.
    pub fn file_exists(&self, path: &str) -> (r: bool)
        ensures
            r == self.files_view().contains_key(path@),
    {
        let mut i: usize = 0;
        while i < self.files.len()
            invariant
                0 <= i <= self.files@.len(),
                forall|j: int| 0 <= j < i ==> self.files@[j].path@ != path@,
            decreases self.files@.len() - i,
        {
            if str_eq(self.files[i].path.as_str(), path) {
                return true;
            }
            i = i + 1;
        }
        false
    }

    /// The contents of the file at this path, or nothing when there is none.
    pub fn file_data<'a>(&'a self, path: &str) -> (r: Option<&'a Vec<u8>>)
        requires
            self.wf(),
        ensures
            match r {
                Some(v) => self.files_view().contains_key(path@) && self.files_view()[path@]
                    == v@,
                None => !self.files_view().contains_key(path@),
            },
    {
        let mut i: usize = 0;
        while i < self.files.len()
            invariant
                self.wf(),
                0 <= i <= self.files@.len(),
                forall|j: int| 0 <= j < i ==> self.files@[j].path@ != path@,
            decreases self.files@.len() - i,
        {
            if str_eq(self.files[i].path.as_str(), path) {
                proof {
                    let w = choose|w: int|
                        0 <= w < self.files@.len() && self.files@[w].path@ == path@;
                    assert(w == i as int);
                }
                return Some(&self.files[i].data);
            }
            i = i + 1;
        }
        None
    }

    /// Makes the directory `path` exist, leaving everything else unchanged.
    pub fn add_dir(&mut self, path: &str)
        requires
            old(self).wf(),
        ensures
            final(self).wf(),
            final(self).dirs_view() == old(self).dirs_view().insert(path@),
            final(self).files_view() == old(self).files_view(),
    {
        if self.dir_exists(path) {
            proof {
                assert(self.dirs_view() =~= old(self).dirs_view().insert(path@));
            }
            return;
        }
        self.dirs.push(String::from_str(path));
        proof {
            assert forall|p: Seq<char>| self.dirs_view().contains(p) implies old(
                self,
            ).dirs_view().insert(path@).contains(p) by {
                let i = choose|i: int| 0 <= i < self.dirs@.len() && self.dirs@[i]@ == p;
                if i < self.dirs@.len() - 1 {
                    assert(old(self).dirs@[i]@ == p);
                }
            }
            assert forall|p: Seq<char>| old(self).dirs_view().insert(path@).contains(p) implies self
                .dirs_view().contains(p) by {
                if p == path@ {
                    assert(self.dirs@[self.dirs@.len() - 1]@ == p);
                } else {
                    let i = choose|i: int|
                        0 <= i < old(self).dirs@.len() && old(self).dirs@[i]@ == p;
                    assert(self.dirs@[i]@ == p);
                }
            }
            assert(self.dirs_view() =~= old(self).dirs_view().insert(path@));
            assert(self.files_view() =~= old(self).files_view());
        }
    }
    /// Makes the directory `path` and all its missing ancestors exist.
    pub fn add_dir_all(&mut self, path: &str)
        requires
            old(self).wf(),
        ensures
            final(self).wf(),
            final(self).dirs_view() == old(self).dirs_view() + dir_chain(path@),
            final(self).files_view() == old(self).files_view(),
    {
        let len = path.unicode_len();
        let mut i: usize = 0;
        while i < len
            invariant
                len == path@.len(),
                0 <= i <= len,
                self.wf(),
                self.files_view() == old(self).files_view(),
                self.dirs_view() == old(self).dirs_view() + chain_below(path@, i as int),
            decreases len - i,
        {
            let ghost prev = self.dirs_view();
            if path.get_char(i) == '/' {
                let prefix = path.substring_char(0, i);
                self.add_dir(prefix);
                proof {
                    assert(prefix@ == path@.subrange(0, i as int));
                    assert(prev.insert(prefix@) =~= old(self).dirs_view() + chain_below(
                        path@,
                        i + 1,
                    ));
                }
            } else {
                proof {
                    assert(prev =~= old(self).dirs_view() + chain_below(path@, i + 1));
                }
            }
            i = i + 1;
        }
        let ghost prev = self.dirs_view();
        self.add_dir(path);
        proof {
            assert(prev.insert(path@) =~= old(self).dirs_view() + dir_chain(path@));
        }
    }

    /// Removes the file entry carrying `path`, if any.
    fn remove_file_entry(&mut self, path: &str)
        requires
            old(self).wf(),
        ensures
            final(self).wf(),
            final(self).files_view() == old(self).files_view().remove(path@),
            final(self).dirs_view() == old(self).dirs_view(),
    {
        let ghost orig = old(self).files@;
        let ghost all: int = orig.len() as int;
        let mut kept: Vec<FileEntry> = Vec::new();
        proof {
            assert(self.files@ =~= orig.subrange(0, all));
        }
        loop
            invariant
                old(self).wf(),
                orig == old(self).files@,
                self.dirs@ == old(self).dirs@,
                all == orig.len(),
                self.files@.len() <= all,
                self.files@ == orig.subrange(0, self.files@.len() as int),
                forall|i: int, j: int|
                    0 <= i < j < kept@.len() ==> kept@[i].path@ != kept@[j].path@,
                forall|j: int| 0 <= j < kept@.len() ==> orig.contains(#[trigger] kept@[j]),
                forall|k: Seq<char>|
                    #[trigger] entries_contain(kept@, k) <==> (entries_contain(
                        orig.subrange(self.files@.len() as int, all),
                        k,
                    ) && k != path@),
            ensures
                self.files@.len() == 0,
                self.dirs@ == old(self).dirs@,
                forall|i: int, j: int|
                    0 <= i < j < kept@.len() ==> kept@[i].path@ != kept@[j].path@,
                forall|j: int| 0 <= j < kept@.len() ==> orig.contains(#[trigger] kept@[j]),
                forall|k: Seq<char>|
                    #[trigger] entries_contain(kept@, k) <==> (entries_contain(
                        orig.subrange(0, all),
                        k,
                    ) && k != path@),
            decreases self.files@.len(),
        {
            let ghost m = self.files@.len() as int;
            let ghost kept_before = kept@;
            let popped = self.files.pop();
            let e = match popped {
                Some(e) => e,
                None => {
                    break ;
                },
            };
            proof {
                assert(e == orig.subrange(0, m)[m - 1]);
                assert(e == orig[m - 1]);
                assert(orig.subrange(0, m).subrange(0, m - 1) =~= orig.subrange(0, m - 1));
                lemma_suffix_extend(orig, m - 1);
                assert(!entries_contain(kept_before, e.path@)) by {
                    if entries_contain(kept_before, e.path@) {
                        let w = choose|w: int|
                            0 <= w < orig.subrange(m, all).len() && (#[trigger] orig.subrange(
                                m,
                                all,
                            )[w]).path@ == e.path@;
                        assert(orig[m + w].path@ == e.path@);
                        assert(orig[m - 1].path@ == e.path@);
                    }
                }
            }
            if !str_eq(e.path.as_str(), path) {
                proof {
                    assert forall|j: int| 0 <= j < kept@.len() implies kept@[j].path@
                        != e.path@ by {
                        if kept@[j].path@ == e.path@ {
                            assert(entries_contain(kept_before, e.path@));
                        }
                    }
                }
                kept.push(e);
                proof {
                    assert(kept@[kept@.len() - 1] == e);
                    assert forall|k: Seq<char>| #[trigger] entries_contain(kept@, k) <==> (
                    entries_contain(kept_before, k) || k == e.path@) by {
                        if entries_contain(kept@, k) {
                            let w = choose|w: int|
                                0 <= w < kept@.len() && (#[trigger] kept@[w]).path@ == k;
                            if w < kept@.len() - 1 {
                                assert(kept_before[w].path@ == k);
                            }
                        }
                        if entries_contain(kept_before, k) {
                            let w = choose|w: int|
                                0 <= w < kept_before.len() && (#[trigger] kept_before[w]).path@
                                    == k;
                            assert(kept@[w].path@ == k);
                        }
                        if k == e.path@ {
                            assert(kept@[kept@.len() - 1].path@ == k);
                        }
                    }
                }
            } else {
                proof {
                    assert(e.path@ == path@);
                }
            }
            proof {
                assert(self.files@.len() as int == m - 1);
                assert forall|k: Seq<char>| #[trigger] entries_contain(kept@, k) <==> (
                entries_contain(orig.subrange(m - 1, all), k) && k != path@) by {
                    assert(entries_contain(orig.subrange(m - 1, all), k) <==> (k == orig[m
                        - 1].path@ || entries_contain(orig.subrange(m, all), k)));
                }
                assert(orig.subrange(self.files@.len() as int, all) == orig.subrange(m - 1, all));
            }
        }
        self.files = kept;
        proof {
            assert(orig.subrange(0, all) =~= orig);
            lemma_files_view_filtered(*old(self), *self, |k: Seq<char>| k == path@);
            assert(old(self).files_view().remove_keys(Set::new(|k: Seq<char>| k == path@)) =~= old(
                self,
            ).files_view().remove(path@));
            assert(self.dirs_view() =~= old(self).dirs_view());
        }
    }

    /// Writes `data` to the file at `path`, creating or overwriting it.
    pub fn put_file(&mut self, path: &str, data: Vec<u8>)
        requires
            old(self).wf(),
        ensures
            final(self).wf(),
            final(self).files_view() == old(self).files_view().insert(path@, data@),
            final(self).dirs_view() == old(self).dirs_view(),
    {
        self.remove_file_entry(path);
        let ghost mid = *self;
        proof {
            assert(!entries_contain(mid.files@, path@)) by {
                assert(mid.files_view().dom().contains(path@) == entries_contain(
                    mid.files@,
                    path@,
                ));
            }
        }
        self.files.push(FileEntry { path: String::from_str(path), data });
        proof {
            let n = self.files@.len() as int;
            assert(self.files@[n - 1].path@ == path@);
            assert forall|i: int, j: int| 0 <= i < j < n implies self.files@[i].path@
                != self.files@[j].path@ by {
                if j == n - 1 {
                    if self.files@[i].path@ == path@ {
                        assert(entries_contain(mid.files@, path@));
                    }
                }
            }
            let target = mid.files_view().insert(path@, data@);
            assert forall|k: Seq<char>| self.files_view().dom().contains(k) implies
            target.dom().contains(k) && self.files_view()[k] == target[k] by {
                let w = choose|w: int| 0 <= w < n && self.files@[w].path@ == k;
                if k == path@ {
                    assert(w == n - 1);
                    assert(self.files_view()[k] == data@);
                } else {
                    assert(w < n - 1);
                    assert(mid.files@[w].path@ == k);
                    let wv = choose|i: int|
                        0 <= i < mid.files@.len() && mid.files@[i].path@ == k;
                    assert(wv == w);
                    assert(self.files_view()[k] == mid.files@[w].data@);
                }
            }
            assert forall|k: Seq<char>| target.dom().contains(k) implies self.files_view(
            ).dom().contains(k) by {
                if k == path@ {
                    assert(self.files@[n - 1].path@ == k);
                } else {
                    let w = choose|i: int|
                        0 <= i < mid.files@.len() && mid.files@[i].path@ == k;
                    assert(self.files@[w].path@ == k);
                }
            }
            assert(self.files_view() =~= target);
            assert(target =~= old(self).files_view().insert(path@, data@));
            assert(self.dirs_view() =~= mid.dirs_view());
        }
    }
}

impl FsModel {
    /// Removes every file entry under `dir` and every directory that is
    /// `dir` or lies under it.
    fn remove_tree_entries(&mut self, dir: &str)
        requires
            old(self).wf(),
        ensures
            final(self).wf(),
            final(self).files_view() == old(self).files_view().remove_keys(
                Set::new(|k: Seq<char>| is_under(k, dir@)),
            ),
            final(self).dirs_view() == old(self).dirs_view().difference(
                Set::new(|q: Seq<char>| q == dir@ || is_under(q, dir@)),
            ),
    {
        let ghost orig = old(self).files@;
        let ghost all: int = orig.len() as int;
        let mut kept: Vec<FileEntry> = Vec::new();
        proof {
            assert(self.files@ =~= orig.subrange(0, all));
        }
        loop
            invariant
                old(self).wf(),
                orig == old(self).files@,
                self.dirs@ == old(self).dirs@,
                all == orig.len(),
                self.files@.len() <= all,
                self.files@ == orig.subrange(0, self.files@.len() as int),
                forall|i: int, j: int|
                    0 <= i < j < kept@.len() ==> kept@[i].path@ != kept@[j].path@,
                forall|j: int| 0 <= j < kept@.len() ==> orig.contains(#[trigger] kept@[j]),
                forall|k: Seq<char>|
                    #[trigger] entries_contain(kept@, k) <==> (entries_contain(
                        orig.subrange(self.files@.len() as int, all),
                        k,
                    ) && !is_under(k, dir@)),
            ensures
                self.files@.len() == 0,
                self.dirs@ == old(self).dirs@,
                forall|i: int, j: int|
                    0 <= i < j < kept@.len() ==> kept@[i].path@ != kept@[j].path@,
                forall|j: int| 0 <= j < kept@.len() ==> orig.contains(#[trigger] kept@[j]),
                forall|k: Seq<char>|
                    #[trigger] entries_contain(kept@, k) <==> (entries_contain(
                        orig.subrange(0, all),
                        k,
                    ) && !is_under(k, dir@)),
            decreases self.files@.len(),
        {
            let ghost m = self.files@.len() as int;
            let ghost kept_before = kept@;
            let popped = self.files.pop();
            let e = match popped {
                Some(e) => e,
                None => {
                    break ;
                },
            };
            proof {
                assert(e == orig.subrange(0, m)[m - 1]);
                assert(e == orig[m - 1]);
                assert(orig.subrange(0, m).subrange(0, m - 1) =~= orig.subrange(0, m - 1));
                lemma_suffix_extend(orig, m - 1);
                assert(!entries_contain(kept_before, e.path@)) by {
                    if entries_contain(kept_before, e.path@) {
                        let w = choose|w: int|
                            0 <= w < orig.subrange(m, all).len() && (#[trigger] orig.subrange(
                                m,
                                all,
                            )[w]).path@ == e.path@;
                        assert(orig[m + w].path@ == e.path@);
                        assert(orig[m - 1].path@ == e.path@);
                    }
                }
            }
            if !path_is_under(e.path.as_str(), dir) {
                proof {
                    assert forall|j: int| 0 <= j < kept@.len() implies kept@[j].path@
                        != e.path@ by {
                        if kept@[j].path@ == e.path@ {
                            assert(entries_contain(kept_before, e.path@));
                        }
                    }
                }
                kept.push(e);
                proof {
                    assert(kept@[kept@.len() - 1] == e);
                    assert forall|k: Seq<char>| #[trigger] entries_contain(kept@, k) <==> (
                    entries_contain(kept_before, k) || k == e.path@) by {
                        if entries_contain(kept@, k) {
                            let w = choose|w: int|
                                0 <= w < kept@.len() && (#[trigger] kept@[w]).path@ == k;
                            if w < kept@.len() - 1 {
                                assert(kept_before[w].path@ == k);
                            }
                        }
                        if entries_contain(kept_before, k) {
                            let w = choose|w: int|
                                0 <= w < kept_before.len() && (#[trigger] kept_before[w]).path@
                                    == k;
                            assert(kept@[w].path@ == k);
                        }
                        if k == e.path@ {
                            assert(kept@[kept@.len() - 1].path@ == k);
                        }
                    }
                }
            }
            proof {
                assert(self.files@.len() as int == m - 1);
                assert forall|k: Seq<char>| #[trigger] entries_contain(kept@, k) <==> (
                entries_contain(orig.subrange(m - 1, all), k) && !is_under(k, dir@)) by {
                    assert(entries_contain(orig.subrange(m - 1, all), k) <==> (k == orig[m
                        - 1].path@ || entries_contain(orig.subrange(m, all), k)));
                }
                assert(orig.subrange(self.files@.len() as int, all) == orig.subrange(m - 1, all));
            }
        }
        self.files = kept;
        proof {
            assert(orig.subrange(0, all) =~= orig);
            lemma_files_view_filtered(*old(self), *self, |k: Seq<char>| is_under(k, dir@));
        }
        let ghost dorig = old(self).dirs@;
        let ghost dall: int = dorig.len() as int;
        let ghost files_now = self.files@;
        let mut dkept: Vec<String> = Vec::new();
        proof {
            assert(self.dirs@ =~= dorig.subrange(0, dall));
        }
        loop
            invariant
                old(self).wf(),
                dorig == old(self).dirs@,
                dall == dorig.len(),
                self.files@ == files_now,
                self.dirs@.len() <= dall,
                self.dirs@ == dorig.subrange(0, self.dirs@.len() as int),
                forall|i: int, j: int| 0 <= i < j < dkept@.len() ==> dkept@[i]@ != dkept@[j]@,
                forall|q: Seq<char>|
                    #[trigger] names_contain(dkept@, q) <==> (names_contain(
                        dorig.subrange(self.dirs@.len() as int, dall),
                        q,
                    ) && !(q == dir@ || is_under(q, dir@))),
            ensures
                self.dirs@.len() == 0,
                self.files@ == files_now,
                forall|i: int, j: int| 0 <= i < j < dkept@.len() ==> dkept@[i]@ != dkept@[j]@,
                forall|q: Seq<char>|
                    #[trigger] names_contain(dkept@, q) <==> (names_contain(
                        dorig.subrange(0, dall),
                        q,
                    ) && !(q == dir@ || is_under(q, dir@))),
            decreases self.dirs@.len(),
        {
            let ghost m = self.dirs@.len() as int;
            let ghost dk_before = dkept@;
            let popped = self.dirs.pop();
            let d = match popped {
                Some(d) => d,
                None => {
                    break ;
                },
            };
            let ghost dv = d@;
            proof {
                assert(d == dorig.subrange(0, m)[m - 1]);
                assert(d == dorig[m - 1]);
                assert(dorig.subrange(0, m).subrange(0, m - 1) =~= dorig.subrange(0, m - 1));
                lemma_names_suffix_extend(dorig, m - 1);
                assert(!names_contain(dk_before, dv)) by {
                    if names_contain(dk_before, dv) {
                        let w = choose|w: int|
                            0 <= w < dorig.subrange(m, dall).len() && (#[trigger] dorig.subrange(
                                m,
                                dall,
                            )[w])@ == dv;
                        assert(dorig[m + w]@ == dv);
                        assert(dorig[m - 1]@ == dv);
                    }
                }
            }
            let dead = str_eq(d.as_str(), dir) || path_is_under(d.as_str(), dir);
            if !dead {
                proof {
                    assert forall|j: int| 0 <= j < dkept@.len() implies dkept@[j]@ != dv by {
                        if dkept@[j]@ == dv {
                            assert(names_contain(dk_before, dv));
                        }
                    }
                }
                dkept.push(d);
                proof {
                    assert(dkept@[dkept@.len() - 1]@ == dv);
                    assert forall|q: Seq<char>| #[trigger] names_contain(dkept@, q) <==> (
                    names_contain(dk_before, q) || q == dv) by {
                        if names_contain(dkept@, q) {
                            let w = choose|w: int|
                                0 <= w < dkept@.len() && (#[trigger] dkept@[w])@ == q;
                            if w < dkept@.len() - 1 {
                                assert(dk_before[w]@ == q);
                            }
                        }
                        if names_contain(dk_before, q) {
                            let w = choose|w: int|
                                0 <= w < dk_before.len() && (#[trigger] dk_before[w])@ == q;
                            assert(dkept@[w]@ == q);
                        }
                    }
                }
            }
            proof {
                assert(self.dirs@.len() as int == m - 1);
                assert forall|q: Seq<char>| #[trigger] names_contain(dkept@, q) <==> (
                names_contain(dorig.subrange(m - 1, dall), q) && !(q == dir@ || is_under(
                    q,
                    dir@,
                ))) by {
                    assert(names_contain(dorig.subrange(m - 1, dall), q) <==> (q == dorig[m - 1]@
                        || names_contain(dorig.subrange(m, dall), q)));
                }
                assert(dorig.subrange(self.dirs@.len() as int, dall) == dorig.subrange(
                    m - 1,
                    dall,
                ));
            }
        }
        self.dirs = dkept;
        proof {
            assert(dorig.subrange(0, dall) =~= dorig);
            assert(self.dirs_view() =~= old(self).dirs_view().difference(
                Set::new(|q: Seq<char>| q == dir@ || is_under(q, dir@)),
            ));
            assert(self.files_view() =~= old(self).files_view().remove_keys(
                Set::new(|k: Seq<char>| is_under(k, dir@)),
            ));
        }
    }

    /// Installs an icon: makes the version's asset directory exist, decodes
    /// the payload, and writes the decoded bytes under the target filename,
    /// overwriting any file already there. Fails with `DecodeError` exactly
    /// when the payload is malformed, and with `IoError` when a file blocks
    /// the asset directory's path.
    pub fn apply_dr_icon(
        &mut self,
        wow_folder: &str,
        version: &str,
        default_icon_name: &str,
        source_icon_data: &str,
    ) -> (r: Result<String, IconError>)
        requires
            old(self).wf(),
        ensures
            final(self).wf(),
            ({
                let d = icons_dir_spec(wow_folder@, version@);
                let p = icon_path_spec(wow_folder@, version@, default_icon_name@);
                let blocked = !old(self).dirs_view().contains(d)
                    && old(self).files_view().contains_key(d);
                &&& final(self).dirs_view() == (if old(self).dirs_view().contains(d) || blocked {
                    old(self).dirs_view()
                } else {
                    old(self).dirs_view() + dir_chain(d)
                })
                &&& match b64_decode_of(payload_of(source_icon_data@)) {
                    Some(bytes) => if blocked {
                        r == Err::<String, IconError>(IconError::IoError)
                            && final(self).files_view() == old(self).files_view()
                    } else {
                        (r matches Ok(m) && m@ == apply_ok_message(p)) && final(self).files_view()
                            == old(self).files_view().insert(p, bytes)
                    },
                    None => r == Err::<String, IconError>(IconError::DecodeError)
                        && final(self).files_view() == old(self).files_view(),
                }
            }),
    {
        let dir = icons_dir_path(wow_folder, version);
        let dir_present = self.dir_exists(dir.as_str());
        let blocked = !dir_present && self.file_exists(dir.as_str());
        if !dir_present && !blocked {
            self.add_dir_all(dir.as_str());
        }
        let bytes = match base64_decode(source_icon_data) {
            Ok(b) => b,
            Err(e) => {
                return Err(e);
            },
        };
        if blocked {
            return Err(IconError::IoError);
        }
        let target = icon_file_path(wow_folder, version, default_icon_name);
        self.put_file(target.as_str(), bytes);
        let mut m = String::from_str("Icon applied successfully to ");
        m.append(target.as_str());
        Ok(m)
    }

    /// Resets one icon: deletes the file at the target path when it exists,
    /// and reports the icon as already at its default otherwise. Deleting a
    /// file that is not there is no failure.
    pub fn reset_dr_icon(
        &mut self,
        wow_folder: &str,
        version: &str,
        default_icon_name: &str,
    ) -> (r: Result<String, IconError>)
        requires
            old(self).wf(),
        ensures
            final(self).wf(),
            final(self).dirs_view() == old(self).dirs_view(),
            ({
                let p = icon_path_spec(wow_folder@, version@, default_icon_name@);
                &&& final(self).files_view() == old(self).files_view().remove(p)
                &&& (r matches Ok(m) && m@ == (if old(self).files_view().contains_key(p) {
                    reset_removed_message(p)
                } else {
                    "Icon was already at default"@
                }))
            }),
    {
        let target = icon_file_path(wow_folder, version, default_icon_name);
        if self.file_exists(target.as_str()) {
            self.remove_file_entry(target.as_str());
            let mut m = String::from_str("Icon reset successfully, removed ");
            m.append(target.as_str());
            Ok(m)
        } else {
            proof {
                assert(old(self).files_view().remove(target@) =~= old(self).files_view());
            }
            Ok(String::from_str("Icon was already at default"))
        }
    }

    /// Resets all icons of a version: deletes the whole asset directory tree
    /// when the directory exists, including files placed there by other
    /// means; reports that nothing needed resetting when it does not exist;
    /// and fails with `IoError` when a file stands at the directory's path.
    pub fn reset_all_icons(&mut self, wow_folder: &str, version: &str) -> (r: Result<
        String,
        IconError,
    >)
        requires
            old(self).wf(),
        ensures
            final(self).wf(),
            ({
                let d = icons_dir_spec(wow_folder@, version@);
                if old(self).dirs_view().contains(d) {
                    &&& final(self).files_view() == old(self).files_view().remove_keys(
                        Set::new(|k: Seq<char>| is_under(k, d)),
                    )
                    &&& final(self).dirs_view() == old(self).dirs_view().difference(
                        Set::new(|q: Seq<char>| q == d || is_under(q, d)),
                    )
                    &&& (r matches Ok(m) && m@ == reset_all_removed_message(d))
                } else if old(self).files_view().contains_key(d) {
                    &&& final(self).files_view() == old(self).files_view()
                    &&& final(self).dirs_view() == old(self).dirs_view()
                    &&& r == Err::<String, IconError>(IconError::IoError)
                } else {
                    &&& final(self).files_view() == old(self).files_view()
                    &&& final(self).dirs_view() == old(self).dirs_view()
                    &&& (r matches Ok(m) && m@ == "ICONS folder does not exist, nothing to reset"@)
                }
            }),
    {
        let dir = icons_dir_path(wow_folder, version);
        if self.dir_exists(dir.as_str()) {
            self.remove_tree_entries(dir.as_str());
            let mut m = String::from_str("All icons reset successfully, removed ");
            m.append(dir.as_str());
            Ok(m)
        } else if self.file_exists(dir.as_str()) {
            Err(IconError::IoError)
        } else {
            Ok(String::from_str("ICONS folder does not exist, nothing to reset"))
        }
    }

    /// Lists the version directories of an installation root: the immediate
    /// child directories whose names start and end with an underscore and
    /// are longer than two characters, each exactly once, sorted ascending.
    /// Fails with `NotFound` when the root does not exist and with
    /// `InvalidInput` when a file stands at its path instead of a directory.
    pub fn get_wow_versions(&self, wow_folder: &str) -> (r: Result<Vec<String>, IconError>)
        requires
            self.wf(),
        ensures
            ({
                let root = wow_folder@;
                match r {
                    Ok(v) => {
                        &&& self.dirs_view().contains(root)
                        &&& sorted_by(views_of(v@), lex_leq_fn())
                        &&& views_of(v@).no_duplicates()
                        &&& forall|n: Seq<char>|
                            #[trigger] views_of(v@).contains(n) <==> (is_version_name_spec(n)
                                && no_slash(n) && self.dirs_view().contains(root + "/"@ + n))
                    },
                    Err(e) => {
                        &&& !self.dirs_view().contains(root)
                        &&& e == (if self.files_view().contains_key(root) {
                            IconError::InvalidInput
                        } else {
                            IconError::NotFound
                        })
                    },
                }
            }),
    {
        if !self.dir_exists(wow_folder) {
            if self.file_exists(wow_folder) {
                return Err(IconError::InvalidInput);
            }
            return Err(IconError::NotFound);
        }
        let ghost root = wow_folder@;
        let mut out: Vec<String> = Vec::new();
        let mut i: usize = 0;
        proof {
            assert(views_of(out@) =~= Seq::<Seq<char>>::empty());
            broadcast use vstd::seq_lib::group_to_multiset_ensures;
        }
        while i < self.dirs.len()
            invariant
                self.wf(),
                root == wow_folder@,
                0 <= i <= self.dirs@.len(),
                sorted_by(views_of(out@), lex_leq_fn()),
                forall|n: Seq<char>| #[trigger] views_of(out@).to_multiset().count(n) <= 1,
                forall|n: Seq<char>|
                    #[trigger] views_of(out@).contains(n) <==> (is_version_name_spec(n)
                        && no_slash(n) && n.len() > 0 && names_contain(
                        self.dirs@.subrange(0, i as int),
                        root + "/"@ + n,
                    )),
            decreases self.dirs@.len() - i,
        {
            broadcast use vstd::seq_lib::group_to_multiset_ensures;
            broadcast use vstd::multiset::group_multiset_axioms;

            let ghost prev = out@;
            let ghost entry = self.dirs@[i as int]@;
            let child = child_name_of(self.dirs[i].as_str(), wow_folder);
            match child {
                Some(name) => {
                    let ghost nv = name@;
                    if is_version_name(name.as_str()) {
                        proof {
                            assert(!views_of(prev).contains(nv)) by {
                                if views_of(prev).contains(nv) {
                                    let w = choose|w: int|
                                        0 <= w < i && (#[trigger] self.dirs@.subrange(
                                            0,
                                            i as int,
                                        )[w])@ == root + "/"@ + nv;
                                    assert(self.dirs@[w]@ == self.dirs@[i as int]@);
                                }
                            }
                            assert(views_of(prev).to_multiset().count(nv) == 0);
                        }
                        insert_sorted(&mut out, name);
                        proof {
                            assert forall|n: Seq<char>| #[trigger] views_of(out@).contains(n)
                                <==> (views_of(prev).contains(n) || n == nv) by {
                                assert(views_of(out@).to_multiset().count(n) > 0 <==> views_of(
                                    out@,
                                ).contains(n));
                                assert(views_of(prev).to_multiset().count(n) > 0 <==> views_of(
                                    prev,
                                ).contains(n));
                            }
                        }
                    }
                    i = i + 1;
                    proof {
                        lemma_names_prefix_extend(self.dirs@, i as int);
                        assert forall|n: Seq<char>| #[trigger] views_of(out@).contains(n) <==> (
                        is_version_name_spec(n) && no_slash(n) && n.len() > 0 && names_contain(
                            self.dirs@.subrange(0, i as int),
                            root + "/"@ + n,
                        )) by {
                            if is_version_name_spec(n) && no_slash(n) && n.len() > 0 && entry
                                == root + "/"@ + n {
                                lemma_join_unique(root, n, nv);
                            }
                        }
                    }
                },
                None => {
                    i = i + 1;
                    proof {
                        lemma_names_prefix_extend(self.dirs@, i as int);
                        assert forall|n: Seq<char>| #[trigger] views_of(out@).contains(n) <==> (
                        is_version_name_spec(n) && no_slash(n) && n.len() > 0 && names_contain(
                            self.dirs@.subrange(0, i as int),
                            root + "/"@ + n,
                        )) by {
                            if is_version_name_spec(n) && no_slash(n) && n.len() > 0 {
                                assert(entry != root + "/"@ + n);
                            }
                        }
                    }
                },
            }
        }
        proof {
            broadcast use vstd::seq_lib::group_to_multiset_ensures;

            assert(self.dirs@.subrange(0, self.dirs@.len() as int) =~= self.dirs@);
            assert forall|n: Seq<char>| views_of(out@).to_multiset().contains(n) implies views_of(
                out@,
            ).to_multiset().count(n) == 1 by {
                assert(views_of(out@).to_multiset().count(n) <= 1);
            }
            views_of(out@).lemma_multiset_has_no_duplicates_conv();
        }
        Ok(out)
    }
}

/// Taking one entry more of a prefix of `s` adds exactly that entry's name
/// to what the prefix holds.
proof fn lemma_names_prefix_extend(s: Seq<String>, i: int)
    requires
        0 < i <= s.len(),
    ensures
        forall|q: Seq<char>|
            #[trigger] names_contain(s.subrange(0, i), q) <==> (names_contain(
                s.subrange(0, i - 1),
                q,
            ) || s[i - 1]@ == q),
{
    assert forall|q: Seq<char>| #[trigger] names_contain(s.subrange(0, i), q) implies (
    names_contain(s.subrange(0, i - 1), q) || s[i - 1]@ == q) by {
        let w = choose|w: int| 0 <= w < i && (#[trigger] s.subrange(0, i)[w])@ == q;
        if w < i - 1 {
            assert(s.subrange(0, i - 1)[w]@ == q);
        }
    }
    assert forall|q: Seq<char>| (names_contain(s.subrange(0, i - 1), q) || s[i - 1]@ == q)
        implies names_contain(s.subrange(0, i), q) by {
        if s[i - 1]@ == q {
            assert(s.subrange(0, i)[i - 1]@ == q);
        } else {
            let w = choose|w: int| 0 <= w < i - 1 && (#[trigger] s.subrange(0, i - 1)[w])@ == q;
            assert(s.subrange(0, i)[w]@ == q);
        }
    }
}

/// Two names joined to the same root read the same.
proof fn lemma_join_unique(root: Seq<char>, n1: Seq<char>, n2: Seq<char>)
    requires
        root + "/"@ + n1 == root + "/"@ + n2,
    ensures
        n1 == n2,
{
    let l = root.len() + "/"@.len();
    let whole = root + "/"@ + n1;
    assert(n1 =~= whole.subrange(l as int, whole.len() as int));
    assert(n2 =~= whole.subrange(l as int, whole.len() as int));
}

/// The confirmation an install returns, naming the written path.
pub open spec fn apply_ok_message(p: Seq<char>) -> Seq<char> {
    "Icon applied successfully to "@ + p
}

/// The confirmation a reset returns when it removed the file.
pub open spec fn reset_removed_message(p: Seq<char>) -> Seq<char> {
    "Icon reset successfully, removed "@ + p
}

/// The confirmation a bulk reset returns when it removed the directory.
pub open spec fn reset_all_removed_message(d: Seq<char>) -> Seq<char> {
    "All icons reset successfully, removed "@ + d
}

/// Installing an icon and then resetting it leaves no file at the target
/// path; after the first reset the path is empty, so a second reset changes
/// nothing and, by the reset contract, reports the icon already at default.
pub proof fn lemma_install_then_reset(
    files: Map<Seq<char>, Seq<u8>>,
    root: Seq<char>,
    version: Seq<char>,
    name: Seq<char>,
    bytes: Seq<u8>,
)
    ensures
        ({
            let p = icon_path_spec(root, version, name);
            &&& !files.insert(p, bytes).remove(p).contains_key(p)
            &&& files.insert(p, bytes).remove(p).remove(p) == files.insert(p, bytes).remove(p)
        }),
{
    let p = icon_path_spec(root, version, name);
    assert(files.insert(p, bytes).remove(p).remove(p) =~= files.insert(p, bytes).remove(p));
}

/// Installing the same target filename twice leaves the destination holding
/// exactly the bytes of the second install: a full overwrite.
pub proof fn lemma_install_overwrites(
    files: Map<Seq<char>, Seq<u8>>,
    root: Seq<char>,
    version: Seq<char>,
    name: Seq<char>,
    first: Seq<u8>,
    second: Seq<u8>,
)
    ensures
        ({
            let p = icon_path_spec(root, version, name);
            &&& files.insert(p, first).insert(p, second) == files.insert(p, second)
            &&& files.insert(p, first).insert(p, second)[p] == second
        }),
{
    let p = icon_path_spec(root, version, name);
    assert(files.insert(p, first).insert(p, second) =~= files.insert(p, second));
}

/// Bulk-resetting after an install removes the asset directory and every
/// file under it: the installed icon and files put there by other means
/// alike.
pub proof fn lemma_reset_all_removes_tree(
    files: Map<Seq<char>, Seq<u8>>,
    dirs: Set<Seq<char>>,
    root: Seq<char>,
    version: Seq<char>,
    name: Seq<char>,
    bytes: Seq<u8>,
)
    ensures
        ({
            let d = icons_dir_spec(root, version);
            let p = icon_path_spec(root, version, name);
            let files2 = files.insert(p, bytes).remove_keys(
                Set::new(|k: Seq<char>| is_under(k, d)),
            );
            let dirs2 = (dirs + dir_chain(d)).difference(
                Set::new(|q: Seq<char>| q == d || is_under(q, d)),
            );
            &&& !files2.contains_key(p)
            &&& (forall|k: Seq<char>| is_under(k, d) ==> !files2.contains_key(k))
            &&& !dirs2.contains(d)
        }),
{
    crate::paths::lemma_icon_path_under(root, version, name);
}

/// Walking one entry further into the tail of `s` adds exactly that name to
/// what the tail holds.
proof fn lemma_names_suffix_extend(s: Seq<String>, m: int)
    requires
        0 <= m < s.len(),
    ensures
        forall|q: Seq<char>|
            #[trigger] names_contain(s.subrange(m, s.len() as int), q) <==> (q == s[m]@
                || names_contain(s.subrange(m + 1, s.len() as int), q)),
{
    let all = s.len() as int;
    assert forall|q: Seq<char>| #[trigger] names_contain(s.subrange(m, all), q) implies (q == s[m]@
        || names_contain(s.subrange(m + 1, all), q)) by {
        let w = choose|w: int| 0 <= w < s.subrange(m, all).len() && (#[trigger] s.subrange(m, all)[w])@ == q;
        if w > 0 {
            assert(s.subrange(m + 1, all)[w - 1]@ == q);
        }
    }
    assert forall|q: Seq<char>| (q == s[m]@ || names_contain(s.subrange(m + 1, all), q)) implies
    names_contain(s.subrange(m, all), q) by {
        if q == s[m]@ {
            assert(s.subrange(m, all)[0]@ == q);
        } else {
            let w = choose|w: int|
                0 <= w < s.subrange(m + 1, all).len() && (#[trigger] s.subrange(m + 1, all)[w])@
                    == q;
            assert(s.subrange(m, all)[w + 1]@ == q);
        }
    }
}

/// The members of `dir_chain(p)` whose separator boundary lies before `i`.
spec fn chain_below(p: Seq<char>, i: int) -> Set<Seq<char>> {
    Set::new(
        |q: Seq<char>|
            q.len() < i && q.len() < p.len() && p.subrange(0, q.len() as int) == q && p[q.len() as int]
                == '/',
    )
}

/// Walking one entry further into the tail of `s` adds exactly that entry's
/// path to what the tail holds.
proof fn lemma_suffix_extend(s: Seq<FileEntry>, m: int)
    requires
        0 <= m < s.len(),
    ensures
        forall|k: Seq<char>|
            #[trigger] entries_contain(s.subrange(m, s.len() as int), k) <==> (k == s[m].path@
                || entries_contain(s.subrange(m + 1, s.len() as int), k)),
{
    let all = s.len() as int;
    assert forall|k: Seq<char>| #[trigger] entries_contain(s.subrange(m, all), k) implies (k
        == s[m].path@ || entries_contain(s.subrange(m + 1, all), k)) by {
        let w = choose|w: int|
            0 <= w < s.subrange(m, all).len() && s.subrange(m, all)[w].path@ == k;
        if w > 0 {
            assert(s.subrange(m + 1, all)[w - 1].path@ == k);
        }
    }
    assert forall|k: Seq<char>| (k == s[m].path@ || entries_contain(s.subrange(m + 1, all), k))
        implies entries_contain(s.subrange(m, all), k) by {
        if k == s[m].path@ {
            assert(s.subrange(m, all)[0].path@ == k);
        } else {
            let w = choose|w: int|
                0 <= w < s.subrange(m + 1, all).len() && (#[trigger] s.subrange(m + 1, all)[w]).path@
                    == k;
            assert(s.subrange(m, all)[w + 1].path@ == k);
        }
    }
}

/// A tree that keeps exactly the entries whose paths a predicate spares has
/// the old files map with the other keys removed.
proof fn lemma_files_view_filtered(a: FsModel, b: FsModel, dead: spec_fn(Seq<char>) -> bool)
    requires
        a.wf(),
        forall|i: int, j: int|
            0 <= i < j < b.files@.len() ==> b.files@[i].path@ != b.files@[j].path@,
        forall|j: int| 0 <= j < b.files@.len() ==> a.files@.contains(#[trigger] b.files@[j]),
        forall|k: Seq<char>|
            #[trigger] entries_contain(b.files@, k) <==> (entries_contain(a.files@, k) && !dead(
                k,
            )),
    ensures
        b.files_view() == a.files_view().remove_keys(Set::new(dead)),
{
    let target = a.files_view().remove_keys(Set::new(dead));
    assert forall|k: Seq<char>| b.files_view().dom().contains(k) implies target.dom().contains(k)
        && b.files_view()[k] == target[k] by {
        let jb = choose|j: int| 0 <= j < b.files@.len() && b.files@[j].path@ == k;
        assert(a.files@.contains(b.files@[jb]));
        let ia = choose|i: int| 0 <= i < a.files@.len() && a.files@[i] == b.files@[jb];
        let iv = choose|i: int| 0 <= i < a.files@.len() && a.files@[i].path@ == k;
        assert(a.files@[ia].path@ == k);
        assert(iv == ia);
        assert(a.files_view()[k] == a.files@[ia].data@);
        let jv = choose|j: int| 0 <= j < b.files@.len() && b.files@[j].path@ == k;
        assert(jv == jb);
        assert(b.files_view()[k] == b.files@[jb].data@);
    }
    assert forall|k: Seq<char>| target.dom().contains(k) implies b.files_view().dom().contains(
        k,
    ) by {
        assert(entries_contain(a.files@, k) && !dead(k));
    }
    assert(b.files_view() =~= target);
}

} // verus!
