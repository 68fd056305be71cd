//! The installation prefix, modelled as a finite map from clean relative
//! byte paths to file contents.
//!
//! The engine works on this in-memory mirror of the installation root; the
//! surrounding program loads the mirror from disk before an update and
//! writes the changed files back afterwards.  Every contract of the engine
//! speaks about the prefix through its `Map` view.

use vstd::prelude::*;

verus! {

/// One file under the prefix: a relative byte path and its content.
pub struct FileEntry {
    pub path: Vec<u8>,
    pub data: Vec<u8>,
}

/// The set of files under the installation root.
pub struct InstallPrefix {
    pub files: Vec<FileEntry>,
}

/// The map that a sequence of file entries denotes; later entries win.
pub open spec fn as_map(s: Seq<FileEntry>) -> Map<Seq<u8>, Seq<u8>>
    decreases s.len(),
{
    if s.len() == 0 {
        Map::empty()
    } else {
        as_map(s.drop_last()).insert(s.last().path@, s.last().data@)
    }
}

/// No two entries name the same path.
pub open spec fn unique_paths(s: Seq<FileEntry>) -> bool {
    forall|i: int, j: int| 0 <= i < j < s.len() ==> s[i].path@ != s[j].path@
}

/// A path is a key of the map exactly when some entry carries it.
pub proof fn lemma_as_map_key(s: Seq<FileEntry>, k: Seq<u8>)
    ensures
        as_map(s).contains_key(k) <==> exists|i: int| 0 <= i < s.len() && s[i].path@ == k,
    decreases s.len(),
{
    if s.len() > 0 {
        lemma_as_map_key(s.drop_last(), k);
        if s.last().path@ == k {
            assert(s[s.len() - 1].path@ == k);
        } else {
            if as_map(s).contains_key(k) {
                let i = choose|i: int| 0 <= i < s.drop_last().len() && s.drop_last()[i].path@ == k;
                assert(s[i].path@ == k);
            }
            if exists|i: int| 0 <= i < s.len() && s[i].path@ == k {
                let i = choose|i: int| 0 <= i < s.len() && s[i].path@ == k;
                assert(s.drop_last()[i].path@ == k);
            }
        }
    }
}

/// With unique paths, each entry's path maps to that entry's data.
pub proof fn lemma_as_map_value(s: Seq<FileEntry>, i: int)
    requires
        unique_paths(s),
        0 <= i < s.len(),
    ensures
        as_map(s).contains_key(s[i].path@),
        as_map(s)[s[i].path@] == s[i].data@,
    decreases s.len(),
{
    if i == s.len() - 1 {
    } else {
        assert(unique_paths(s.drop_last())) by {
            assert(forall|a: int, b: int|
                0 <= a < b < s.drop_last().len() ==> s.drop_last()[a].path@ != s.drop_last()[b].path@);
        }
        lemma_as_map_value(s.drop_last(), i);
        assert(s.drop_last()[i].path@ == s[i].path@);
        assert(s[i].path@ != s.last().path@);
    }
}

/// Removing the entry at `i` removes exactly its key from the map.
pub proof fn lemma_as_map_remove(s: Seq<FileEntry>, i: int)
    requires
        unique_paths(s),
        0 <= i < s.len(),
    ensures
        as_map(s.remove(i)) == as_map(s).remove(s[i].path@),
    decreases s.len(),
{
    let k = s[i].path@;
    assert(unique_paths(s.drop_last())) by {
        assert(forall|a: int, b: int|
            0 <= a < b < s.drop_last().len() ==> s.drop_last()[a].path@ != s.drop_last()[b].path@);
    }
    if i == s.len() - 1 {
        assert(s.remove(i) =~= s.drop_last());
        assert(!as_map(s.drop_last()).contains_key(k)) by {
            lemma_as_map_key(s.drop_last(), k);
        }
        assert(as_map(s.drop_last()).insert(k, s.last().data@).remove(k) =~= as_map(s.drop_last()));
    } else {
        lemma_as_map_remove(s.drop_last(), i);
        assert(s.remove(i).drop_last() =~= s.drop_last().remove(i));
        assert(s.remove(i).last() == s.last());
        assert(s.remove(i).len() > 0);
        let lk = s.last().path@;
        let lv = s.last().data@;
        assert(lk != k);
        assert(as_map(s.remove(i)) == as_map(s.drop_last().remove(i)).insert(lk, lv));
        assert(as_map(s.drop_last()).remove(k).insert(lk, lv)
            =~= as_map(s.drop_last()).insert(lk, lv).remove(k));
    }
}

/// With unique paths the map has exactly one key per entry.
pub proof fn lemma_as_map_len(s: Seq<FileEntry>)
    requires
        unique_paths(s),
    ensures
        as_map(s).dom().finite(),
        as_map(s).dom().len() == s.len(),
    decreases s.len(),
{
    if s.len() > 0 {
        assert(unique_paths(s.drop_last())) by {
            assert(forall|a: int, b: int|
                0 <= a < b < s.drop_last().len() ==> s.drop_last()[a].path@ != s.drop_last()[b].path@);
        }
        lemma_as_map_len(s.drop_last());
        assert(!as_map(s.drop_last()).contains_key(s.last().path@)) by {
            lemma_as_map_key(s.drop_last(), s.last().path@);
            assert(forall|i: int| 0 <= i < s.drop_last().len() ==> s.drop_last()[i].path@ == s[i].path@);
        }
        assert(as_map(s).dom() =~= as_map(s.drop_last()).dom().insert(s.last().path@));
        vstd::set::axiom_set_insert_finite(as_map(s.drop_last()).dom(), s.last().path@);
        vstd::set::axiom_set_insert_len(as_map(s.drop_last()).dom(), s.last().path@);
    }
}

impl View for InstallPrefix {
    type V = Map<Seq<u8>, Seq<u8>>;

    open spec fn view(&self) -> Map<Seq<u8>, Seq<u8>> {
        as_map(self.files@)
    }
}

impl InstallPrefix {
    /// Well-formed: no path occurs twice.
    pub open spec fn wf(&self) -> bool {
        unique_paths(self.files@)
    }

    /// An empty prefix.
    pub fn new() -> (r: InstallPrefix)
        ensures
            r.wf(),
            r@ == Map::<Seq<u8>, Seq<u8>>::empty(),
    {
        InstallPrefix { files: Vec::new() }
    }

    /// Index of the entry carrying `path`, if any.
    fn find_idx(&self, path: &Vec<u8>) -> (r: Option<usize>)
        ensures
            match r {
                Some(i) => i < self.files@.len() && self.files@[i as int].path@ == path@,
                None => forall|i: int| 0 <= i < self.files@.len() ==> self.files@[i].path@ != path@,
            },
    {
        let n = self.files.len();
        let mut i: usize = 0;
        while i < n
            invariant
                n == self.files@.len(),
                0 <= i <= n,
                forall|j: int| 0 <= j < i ==> self.files@[j].path@ != path@,
            decreases n - i,
        {
            if self.files[i].path == *path {
                assert(self.files@[i as int].path@ =~= path@);
                return Some(i);
            }
            assert(self.files@[i as int].path@ != path@);
            i = i + 1;
        }
        None
    }

    /// Does a file exist at `path`?
    pub fn contains(&self, path: &Vec<u8>) -> (b: bool)
        ensures
            b == self@.contains_key(path@),
    {
        let r = self.find_idx(path);
        proof {
            lemma_as_map_key(self.files@, path@);
        }
        match r {
            Some(_) => true,
            None => false,
        }
    }

    /// The content of the file at `path`, if present.
    pub fn get(&self, path: &Vec<u8>) -> (r: Option<&Vec<u8>>)
        requires
            self.wf(),
        ensures
            match r {
                Some(d) => self@.contains_key(path@) && d@ == self@[path@],
                None => !self@.contains_key(path@),
            },
    {
        let r = self.find_idx(path);
        proof {
            lemma_as_map_key(self.files@, path@);
        }
        match r {
            Some(i) => {
                proof {
                    lemma_as_map_value(self.files@, i as int);
                }
                Some(&self.files[i].data)
            },
            None => None,
        }
    }

    /// Create or overwrite the file at `path`.
    pub fn put(&mut self, path: Vec<u8>, data: Vec<u8>)
        requires
            old(self).wf(),
        ensures
            final(self).wf(),
            final(self)@ == old(self)@.insert(path@, data@),
    {
        let ghost pk = path@;
        let ghost dv = data@;
        let r = self.find_idx(&path);
        match r {
            Some(i) => {
                proof {
                    lemma_as_map_remove(self.files@, i as int);
                }
                let ghost pre = self.files@;
                self.files.remove(i);
                let ghost mid = self.files@;
                assert(mid =~= pre.remove(i as int));
                assert(unique_paths(mid)) by {
                    assert(forall|j: int| 0 <= j < i ==> mid[j] == pre[j]);
                    assert(forall|j: int| i <= j < mid.len() ==> mid[j] == pre[j + 1]);
                }
                assert(forall|j: int| 0 <= j < mid.len() ==> mid[j].path@ != pk) by {
                    assert(forall|j: int| 0 <= j < i ==> mid[j] == pre[j]);
                    assert(forall|j: int| i <= j < mid.len() ==> mid[j] == pre[j + 1]);
                }
                self.files.push(FileEntry { path, data });
                assert(self.files@.drop_last() =~= mid);
                assert(unique_paths(self.files@)) by {
                    assert(forall|j: int| 0 <= j < mid.len() ==> self.files@[j] == mid[j]);
                }
                assert(self@ == as_map(mid).insert(pk, dv));
                assert(as_map(pre).remove(pk).insert(pk, dv) =~= as_map(pre).insert(pk, dv));
            },
            None => {
                let ghost pre = self.files@;
                proof {
                    lemma_as_map_key(pre, pk);
                }
                self.files.push(FileEntry { path, data });
                assert(self.files@.drop_last() =~= pre);
                assert(unique_paths(self.files@)) by {
                    assert(forall|j: int| 0 <= j < pre.len() ==> self.files@[j] == pre[j]);
                }
            },
        }
    }

    /// Delete the file at `path`; a missing file is simply left missing.
    pub fn del(&mut self, path: &Vec<u8>)
        requires
            old(self).wf(),
        ensures
            final(self).wf(),
            final(self)@ == old(self)@.remove(path@),
    {
        let r = self.find_idx(path);
        match r {
            Some(i) => {
                proof {
                    lemma_as_map_remove(self.files@, i as int);
                }
                let ghost pre = self.files@;
                self.files.remove(i);
                let ghost mid = self.files@;
                assert(unique_paths(mid)) by {
                    assert(forall|j: int| 0 <= j < i ==> mid[j] == pre[j]);
                    assert(forall|j: int| i <= j < mid.len() ==> mid[j] == pre[j + 1]);
                }
            },
            None => {
                proof {
                    lemma_as_map_key(self.files@, path@);
                    assert(old(self)@.remove(path@) =~= old(self)@);
                }
            },
        }
    }

    /// How many files the prefix holds.
    pub fn file_count(&self) -> (r: usize)
        requires
            self.wf(),
        ensures
            r == self@.dom().len(),
    {
        proof {
            lemma_as_map_len(self.files@);
        }
        self.files.len()
    }
}

} // verus!
