//! The component registry: staging installs and uninstalls of named
//! components against the prefix, recorded in a transaction.
//!
//! The registry owns the in-memory manifest.  Every file mutation goes
//! through the transaction, so any failure can roll the prefix back
//! exactly.  Uninstalling tolerates files that are already gone; a second
//! install under the same name is refused with `DuplicateComponent`.

use vstd::prelude::*;
use crate::errors::Error;
use crate::manifest::{
    man_view, manifest_bytes, manifest_path, manifest_path_vec, parse_spec, rec_view,
    ComponentRecord, Manifest,
};
use crate::paths::{clean_path, name_ok};
use crate::prefix::{FileEntry, InstallPrefix};
use crate::transaction::Transaction;

verus! {

/// A decoded component ready to install: its name and target files.
pub struct ComponentPayload {
    pub name: Vec<u8>,
    pub files: Vec<FileEntry>,
}

/// The mathematical value of one target file.
pub open spec fn file_view(f: FileEntry) -> (Seq<u8>, Seq<u8>) {
    (f.path@, f.data@)
}

/// The mathematical value of a payload's file list.
pub open spec fn files_view(fs: Seq<FileEntry>) -> Seq<(Seq<u8>, Seq<u8>)> {
    Seq::new(fs.len(), |i: int| file_view(fs[i]))
}

impl ComponentPayload {
    /// Installable: a valid name, and every target path clean and off the
    /// registry's own manifest file.
    pub open spec fn wf(&self) -> bool {
        &&& name_ok(self.name@)
        &&& forall|j: int| #![trigger self.files@[j]]
            0 <= j < self.files@.len()
                ==> clean_path(self.files@[j].path@) && self.files@[j].path@ != manifest_path()
    }
}

/// The map after inserting the first `i` files.
pub open spec fn insert_files(
    m: Map<Seq<u8>, Seq<u8>>,
    files: Seq<(Seq<u8>, Seq<u8>)>,
    i: int,
) -> Map<Seq<u8>, Seq<u8>>
    decreases i,
{
    if i <= 0 {
        m
    } else {
        insert_files(m, files, i - 1).insert(files[i - 1].0, files[i - 1].1)
    }
}

/// The map after removing the first `i` paths.
pub open spec fn remove_paths(m: Map<Seq<u8>, Seq<u8>>, paths: Seq<Seq<u8>>, i: int) -> Map<
    Seq<u8>,
    Seq<u8>,
>
    decreases i,
{
    if i <= 0 {
        m
    } else {
        remove_paths(m, paths, i - 1).remove(paths[i - 1])
    }
}

/// Some installed component carries the name `n`.
pub open spec fn man_has(m: Manifest, n: Seq<u8>) -> bool {
    exists|i: int| 0 <= i < m.components@.len() && m.components@[i].name@ == n
}

/// The index of the installed component named `n`.
pub open spec fn man_index(m: Manifest, n: Seq<u8>) -> int {
    choose|i: int| 0 <= i < m.components@.len() && m.components@[i].name@ == n
}

/// The name a component is recorded under: its own, or the rename the
/// caller asked for.
pub open spec fn installed_name(comp: &ComponentPayload, rename_to: Option<&Vec<u8>>) -> Seq<u8> {
    match rename_to {
        Some(n) => n@,
        None => comp.name@,
    }
}

/// The component registry bound to an installation prefix.
pub struct Components {
    pub manifest: Manifest,
}

impl Components {
    /// Well-formed: the manifest is.
    pub open spec fn wf(&self) -> bool {
        self.manifest.wf()
    }

    /// Open the registry on a prefix.  A missing manifest file means that
    /// nothing is installed; a manifest of an unsupported version fails
    /// with `BadInstallerVersion`, an unreadable one with
    /// `CorruptManifest`.
    pub fn open(prefix: &InstallPrefix) -> (r: Result<Components, Error>)
        requires
            prefix.wf(),
        ensures
            match r {
                Ok(c) => c.wf() && (if prefix@.contains_key(manifest_path()) {
                    parse_spec(prefix@[manifest_path()])
                        == Ok::<Seq<(Seq<u8>, Seq<Seq<u8>>)>, Error>(man_view(c.manifest))
                } else {
                    c.manifest.components@.len() == 0
                }),
                Err(e) => prefix@.contains_key(manifest_path())
                    && parse_spec(prefix@[manifest_path()])
                        == Err::<Seq<(Seq<u8>, Seq<Seq<u8>>)>, Error>(e),
            },
    {
        let mp = manifest_path_vec();
        match prefix.get(&mp) {
            None => Ok(Components { manifest: Manifest::new() }),
            Some(d) => match Manifest::parse(d) {
                Ok(m) => Ok(Components { manifest: m }),
                Err(e) => Err(e),
            },
        }
    }

    /// The names of the installed components, in manifest order.
    pub fn list(&self) -> (r: Vec<Vec<u8>>)
        ensures
            r@.len() == self.manifest.components@.len(),
            forall|i: int| #![trigger r@[i]]
                0 <= i < r@.len() ==> r@[i]@ == self.manifest.components@[i].name@,
    {
        let n = self.manifest.components.len();
        let mut r: Vec<Vec<u8>> = Vec::new();
        let mut i: usize = 0;
        while i < n
            invariant
                n == self.manifest.components@.len(),
                0 <= i <= n,
                r@.len() == i,
                forall|k: int| #![trigger r@[k]]
                    0 <= k < i ==> r@[k]@ == self.manifest.components@[k].name@,
            decreases n - i,
        {
            let name = self.manifest.components[i].name.clone();
            assert(name@ =~= self.manifest.components@[i as int].name@);
            r.push(name);
            i = i + 1;
        }
        r
    }

    /// Stage the install of a decoded component: write every target file
    /// through the transaction, then record the component in the manifest
    /// and persist it.  With `rename_to` the component is recorded under
    /// that name instead of its own.  A name that is already installed is
    /// refused with `DuplicateComponent` and changes nothing.
    pub fn install(
        &mut self,
        comp: &ComponentPayload,
        rename_to: Option<&Vec<u8>>,
        prefix: &mut InstallPrefix,
        tx: &mut Transaction,
    ) -> (r: Result<(), Error>)
        requires
            old(self).wf(),
            comp.wf(),
            rename_to matches Some(n) ==> name_ok(n@),
            old(prefix).wf(),
            old(tx).wf_for(old(prefix)@),
        ensures
            final(self).wf(),
            final(prefix).wf(),
            final(tx).wf_for(final(prefix)@),
            final(tx).start == old(tx).start,
            match r {
                Ok(_) => {
                    &&& !man_has(old(self).manifest, installed_name(comp, rename_to))
                    &&& final(self).manifest.components@.len()
                        == old(self).manifest.components@.len() + 1
                    &&& forall|k: int| #![trigger final(self).manifest.components@[k]]
                        0 <= k < old(self).manifest.components@.len()
                            ==> final(self).manifest.components@[k]
                                == old(self).manifest.components@[k]
                    &&& rec_view(final(self).manifest.components@.last())
                        == (installed_name(comp, rename_to), Seq::new(
                        comp.files@.len(),
                        |j: int| comp.files@[j].path@,
                    ))
                    &&& final(prefix)@ == insert_files(
                        old(prefix)@,
                        files_view(comp.files@),
                        comp.files@.len() as int,
                    ).insert(manifest_path(), manifest_bytes(final(self).manifest))
                },
                Err(e) => {
                    &&& e == Error::DuplicateComponent
                    &&& man_has(old(self).manifest, installed_name(comp, rename_to))
                    &&& *final(self) == *old(self)
                    &&& final(prefix)@ == old(prefix)@
                    &&& *final(tx) == *old(tx)
                },
            },
    {
        let used_name: &Vec<u8> = match rename_to {
            Some(n) => n,
            None => &comp.name,
        };
        assert(used_name@ == installed_name(comp, rename_to));
        match self.manifest.find(used_name) {
            Some(ix) => {
                proof {
                    assert(self.manifest.components@[ix as int].name@ == used_name@);
                }
                return Err(Error::DuplicateComponent);
            },
            None => {},
        }
        assert(!man_has(old(self).manifest, used_name@));
        let ghost fs0 = prefix@;
        let n = comp.files.len();
        let mut i: usize = 0;
        while i < n
            invariant
                n == comp.files@.len(),
                0 <= i <= n,
                comp.wf(),
                prefix.wf(),
                tx.wf_for(prefix@),
                tx.start == old(tx).start,
                prefix@ == insert_files(fs0, files_view(comp.files@), i as int),
            decreases n - i,
        {
            let f = &comp.files[i];
            let data = f.data.clone();
            assert(data@ =~= f.data@);
            tx.write_file(prefix, &f.path, data);
            assert(files_view(comp.files@)[i as int] == (f.path@, f.data@));
            i = i + 1;
        }
        let name = used_name.clone();
        assert(name@ =~= used_name@);
        let mut paths: Vec<Vec<u8>> = Vec::new();
        let mut j: usize = 0;
        while j < n
            invariant
                n == comp.files@.len(),
                0 <= j <= n,
                comp.wf(),
                paths@.len() == j,
                forall|t: int| #![trigger paths@[t]]
                    0 <= t < j ==> paths@[t]@ == comp.files@[t].path@,
            decreases n - j,
        {
            let p = comp.files[j].path.clone();
            assert(p@ =~= comp.files@[j as int].path@);
            paths.push(p);
            j = j + 1;
        }
        let rec = ComponentRecord { name, paths };
        let ghost pre = self.manifest.components@;
        self.manifest.components.push(rec);
        assert(self.manifest.wf()) by {
            assert(forall|k: int| 0 <= k < pre.len() ==> self.manifest.components@[k] == pre[k]);
            assert(self.manifest.components@.last().name@ == used_name@);
            assert(forall|k: int| 0 <= k < pre.len() ==> pre[k].name@ != used_name@);
        }
        assert(rec_view(self.manifest.components@.last())
            =~= (used_name@, Seq::new(comp.files@.len(), |t: int| comp.files@[t].path@)));
        let bytes = self.manifest.serialize();
        let mp = manifest_path_vec();
        tx.write_file(prefix, &mp, bytes);
        Ok(())
    }

    /// Stage the uninstall of the installed component named `name`:
    /// remove every file it owns through the transaction (files already
    /// gone are simply skipped), then drop it from the manifest and
    /// persist the manifest.
    pub fn uninstall(&mut self, name: &Vec<u8>, prefix: &mut InstallPrefix, tx: &mut Transaction)
        requires
            old(self).wf(),
            old(prefix).wf(),
            old(tx).wf_for(old(prefix)@),
            man_has(old(self).manifest, name@),
        ensures
            final(self).wf(),
            final(prefix).wf(),
            final(tx).wf_for(final(prefix)@),
            final(tx).start == old(tx).start,
            ({
                let k = man_index(old(self).manifest, name@);
                &&& 0 <= k < old(self).manifest.components@.len()
                &&& old(self).manifest.components@[k].name@ == name@
                &&& final(self).manifest.components@ == old(self).manifest.components@.remove(k)
                &&& final(prefix)@ == remove_paths(
                    old(prefix)@,
                    rec_view(old(self).manifest.components@[k]).1,
                    old(self).manifest.components@[k].paths@.len() as int,
                ).insert(manifest_path(), manifest_bytes(final(self).manifest))
            }),
    {
        proof {
            let w = choose|i: int|
                0 <= i < self.manifest.components@.len()
                    && self.manifest.components@[i].name@ == name@;
            assert(self.manifest.components@[w].name@ == name@);
        }
        let ix = match self.manifest.find(name) {
            Some(ix) => ix,
            None => {
                proof {
                    assert(false);
                }
                return ;
            },
        };
        proof {
            let k = man_index(old(self).manifest, name@);
            assert(0 <= k < self.manifest.components@.len()
                && self.manifest.components@[k].name@ == name@);
            if k < ix as int {
                assert(self.manifest.components@[k].name@
                    != self.manifest.components@[ix as int].name@);
                assert(false);
            }
            if (ix as int) < k {
                assert(self.manifest.components@[ix as int].name@
                    != self.manifest.components@[k].name@);
                assert(false);
            }
        }
        let rec = self.manifest.components.remove(ix);
        let ghost pre = old(self).manifest.components@;
        assert(self.manifest.wf()) by {
            assert(forall|t: int| 0 <= t < ix ==> self.manifest.components@[t] == pre[t]);
            assert(forall|t: int|
                ix <= t < self.manifest.components@.len()
                    ==> self.manifest.components@[t] == pre[t + 1]);
        }
        let ghost fs0 = prefix@;
        let m = rec.paths.len();
        let mut j: usize = 0;
        while j < m
            invariant
                m == rec.paths@.len(),
                0 <= j <= m,
                prefix.wf(),
                tx.wf_for(prefix@),
                tx.start == old(tx).start,
                prefix@ == remove_paths(fs0, rec_view(rec).1, j as int),
            decreases m - j,
        {
            tx.remove_file(prefix, &rec.paths[j]);
            assert(rec_view(rec).1[j as int] == rec.paths@[j as int]@);
            j = j + 1;
        }
        let bytes = self.manifest.serialize();
        let mp = manifest_path_vec();
        tx.write_file(prefix, &mp, bytes);
        assert(rec_view(rec).1 =~= rec_view(old(self).manifest.components@[man_index(
            old(self).manifest,
            name@,
        )]).1);
    }
}

} // verus!
