//! The update orchestrator: manifest a toolchain into the prefix from a
//! distribution archive.
//!
//! `update` opens one transaction, uninstalls every installed component,
//! installs every component the archive decodes to, and commits.  Its
//! contract gives the resulting prefix exactly; when anything fails the
//! prefix and the registry are left untouched.

use vstd::prelude::*;
use crate::archive::{
    decode_package, entries_ok, group_upto, payloads_view, raw_entries, PackageFormat,
};
use crate::component::{insert_files, man_has, remove_paths, ComponentPayload, Components};
use crate::dist::TargetTriple;
use crate::errors::Error;
use crate::manifest::{
    manifest_bytes, manifest_path, man_view, parse_spec, rec_view, ComponentRecord, Manifest,
};
use crate::prefix::InstallPrefix;
use crate::transaction::Transaction;

verus! {

/// The prefix after removing every file of the first `i` records.
pub open spec fn strip_records(
    fs: Map<Seq<u8>, Seq<u8>>,
    cs: Seq<ComponentRecord>,
    i: int,
) -> Map<Seq<u8>, Seq<u8>>
    decreases i,
{
    if i <= 0 {
        fs
    } else {
        remove_paths(
            strip_records(fs, cs, i - 1),
            rec_view(cs[i - 1]).1,
            cs[i - 1].paths@.len() as int,
        )
    }
}

/// The prefix after writing every file of the first `i` decoded
/// components.
pub open spec fn add_payloads(
    fs: Map<Seq<u8>, Seq<u8>>,
    cs: Seq<(Seq<u8>, Seq<(Seq<u8>, Seq<u8>)>)>,
    i: int,
) -> Map<Seq<u8>, Seq<u8>>
    decreases i,
{
    if i <= 0 {
        fs
    } else {
        insert_files(add_payloads(fs, cs, i - 1), cs[i - 1].1, cs[i - 1].1.len() as int)
    }
}

/// The record that installing a decoded component leaves in the manifest.
pub open spec fn rec_of_payload(pv: (Seq<u8>, Seq<(Seq<u8>, Seq<u8>)>)) -> (
    Seq<u8>,
    Seq<Seq<u8>>,
) {
    (pv.0, Seq::new(pv.1.len(), |j: int| pv.1[j].0))
}

/// Removing paths that differ from `key` commutes with inserting `key`.
pub proof fn lemma_remove_paths_insert(
    m: Map<Seq<u8>, Seq<u8>>,
    paths: Seq<Seq<u8>>,
    i: int,
    key: Seq<u8>,
    v: Seq<u8>,
)
    requires
        forall|t: int| #![trigger paths[t]] 0 <= t < i ==> paths[t] != key,
    ensures
        remove_paths(m.insert(key, v), paths, i) == remove_paths(m, paths, i).insert(key, v),
    decreases i,
{
    if i > 0 {
        lemma_remove_paths_insert(m, paths, i - 1, key, v);
        assert(remove_paths(m, paths, i - 1).insert(key, v).remove(paths[i - 1])
            =~= remove_paths(m, paths, i - 1).remove(paths[i - 1]).insert(key, v));
    }
}

/// Inserting files whose paths differ from `key` commutes with inserting
/// `key`.
pub proof fn lemma_insert_files_insert(
    m: Map<Seq<u8>, Seq<u8>>,
    files: Seq<(Seq<u8>, Seq<u8>)>,
    i: int,
    key: Seq<u8>,
    v: Seq<u8>,
)
    requires
        forall|t: int| #![trigger files[t]] 0 <= t < i ==> files[t].0 != key,
    ensures
        insert_files(m.insert(key, v), files, i) == insert_files(m, files, i).insert(key, v),
    decreases i,
{
    if i > 0 {
        lemma_insert_files_insert(m, files, i - 1, key, v);
        assert(insert_files(m, files, i - 1).insert(key, v).insert(files[i - 1].0, files[i - 1].1)
            =~= insert_files(m, files, i - 1).insert(files[i - 1].0, files[i - 1].1).insert(
            key,
            v,
        ));
    }
}

/// A toolchain installation bound to a platform identifier.
pub struct Manifestation {
    pub installation: Components,
    pub target_triple: TargetTriple,
}

impl Manifestation {
    /// Open the install prefix for updates from a distribution channel.
    /// An empty prefix is a valid installation with nothing installed; an
    /// existing installation has its manifest format verified.
    pub fn open(prefix: &InstallPrefix, triple: TargetTriple) -> (r: Result<Manifestation, Error>)
        requires
            prefix.wf(),
        ensures
            match r {
                Ok(m) => m.installation.wf() && m.target_triple == triple
                    && (if prefix@.contains_key(manifest_path()) {
                    parse_spec(prefix@[manifest_path()])
                        == Ok::<Seq<(Seq<u8>, Seq<Seq<u8>>)>, Error>(man_view(
                        m.installation.manifest,
                    ))
                } else {
                    m.installation.manifest.components@.len() == 0
                }),
                Err(e) => prefix@.contains_key(manifest_path())
                    && parse_spec(prefix@[manifest_path()])
                        == Err::<Seq<(Seq<u8>, Seq<Seq<u8>>)>, Error>(e),
            },
    {
        match Components::open(prefix) {
            Ok(installation) => Ok(Manifestation { installation, target_triple: triple }),
            Err(e) => Err(e),
        }
    }

    /// Replace the installed component set with the given decoded
    /// components, as one committed transaction.  The resulting prefix is
    /// exactly the old one, stripped of every old component's files, with
    /// every new component's files written and the manifest file updated.
    pub fn update_from_components(
        &mut self,
        prefix: &mut InstallPrefix,
        comps: &Vec<ComponentPayload>,
    ) -> (r: Result<(), Error>)
        requires
            old(self).installation.wf(),
            old(prefix).wf(),
            forall|k: int| #![trigger comps@[k]] 0 <= k < comps@.len() ==> comps@[k].wf(),
            forall|a: int, b: int| 0 <= a < b < comps@.len() ==> comps@[a].name@ != comps@[b].name@,
        ensures
            final(self).installation.wf(),
            final(prefix).wf(),
            final(self).target_triple == old(self).target_triple,
            r is Ok,
            final(self).installation.manifest.components@.len() == comps@.len(),
            forall|k: int| #![trigger final(self).installation.manifest.components@[k]]
                0 <= k < comps@.len()
                    ==> rec_view(final(self).installation.manifest.components@[k])
                        == rec_of_payload(payloads_view(comps@)[k]),
            final(prefix)@ == add_payloads(
                strip_records(
                    old(prefix)@,
                    old(self).installation.manifest.components@,
                    old(self).installation.manifest.components@.len() as int,
                ),
                payloads_view(comps@),
                comps@.len() as int,
            ).insert(manifest_path(), manifest_bytes(final(self).installation.manifest)),
    {
        let ghost fs0 = prefix@;
        let ghost cs0 = self.installation.manifest.components@;
        let ghost len0 = cs0.len() as int;
        let mut tx = Transaction::new(prefix);
        let names = self.installation.list();
        let n = names.len();
        let mut t: usize = 0;
        while t < n
            invariant
                0 <= t <= n,
                n == cs0.len(),
                fs0 == old(prefix)@,
                cs0 == old(self).installation.manifest.components@,
                self.target_triple == old(self).target_triple,
                self.installation.wf(),
                prefix.wf(),
                tx.wf_for(prefix@),
                names@.len() == n,
                forall|k: int| #![trigger names@[k]] 0 <= k < n ==> names@[k]@ == cs0[k].name@,
                forall|a: int, b: int| 0 <= a < b < cs0.len() ==> cs0[a].name@ != cs0[b].name@,
                forall|i2: int, j2: int|
                    #![trigger cs0[i2].paths@[j2]]
                    0 <= i2 < cs0.len() && 0 <= j2 < cs0[i2].paths@.len()
                        ==> cs0[i2].paths@[j2]@ != manifest_path(),
                self.installation.manifest.components@ =~= cs0.skip(t as int),
                prefix@ == if t == 0 {
                    fs0
                } else {
                    strip_records(fs0, cs0, t as int).insert(
                        manifest_path(),
                        manifest_bytes(self.installation.manifest),
                    )
                },
            decreases n - t,
        {
            let ghost pre_man = self.installation.manifest;
            let ghost pre_fs = prefix@;
            proof {
                assert(cs0.skip(t as int)[0] == cs0[t as int]);
                assert(man_has(pre_man, names@[t as int]@));
            }
            self.installation.uninstall(&names[t], prefix, &mut tx);
            proof {
                let k = crate::component::man_index(pre_man, names@[t as int]@);
                assert(pre_man.components@[k].name@ == cs0[t as int].name@);
                if k != 0 {
                    assert(pre_man.components@[0].name@ == cs0[t as int].name@);
                    assert(cs0.skip(t as int)[0].name@ == cs0.skip(t as int)[k].name@);
                    assert(cs0[t as int].name@ == cs0[t as int + k].name@);
                    assert(false);
                }
                assert(pre_man.components@[0] == cs0[t as int]);
                assert(self.installation.manifest.components@ =~= cs0.skip(t as int + 1)) by {
                    assert(self.installation.manifest.components@ =~= pre_man.components@.remove(0));
                }
                let paths = rec_view(cs0[t as int]).1;
                let plen = cs0[t as int].paths@.len() as int;
                assert(forall|t2: int| #![trigger paths[t2]] 0 <= t2 < plen
                    ==> paths[t2] != manifest_path()) by {
                    assert(forall|t2: int| 0 <= t2 < plen
                        ==> paths[t2] == cs0[t as int].paths@[t2]@);
                }
                if t == 0 {
                    assert(prefix@ == remove_paths(fs0, paths, plen).insert(
                        manifest_path(),
                        manifest_bytes(self.installation.manifest),
                    ));
                    assert(strip_records(fs0, cs0, 0) == fs0);
                    assert(remove_paths(fs0, paths, plen) == strip_records(fs0, cs0, 1));
                } else {
                    lemma_remove_paths_insert(
                        strip_records(fs0, cs0, t as int),
                        paths,
                        plen,
                        manifest_path(),
                        manifest_bytes(pre_man),
                    );
                    assert(remove_paths(pre_fs, paths, plen)
                        =~= strip_records(fs0, cs0, t as int + 1).insert(
                        manifest_path(),
                        manifest_bytes(pre_man),
                    ));
                    assert(prefix@ =~= strip_records(fs0, cs0, t as int + 1).insert(
                        manifest_path(),
                        manifest_bytes(self.installation.manifest),
                    ));
                }
            }
            t = t + 1;
        }
        let ghost base = strip_records(fs0, cs0, len0);
        let m = comps.len();
        let mut u: usize = 0;
        while u < m
            invariant
                0 <= u <= m,
                m == comps@.len(),
                fs0 == old(prefix)@,
                cs0 == old(self).installation.manifest.components@,
                base == strip_records(fs0, cs0, cs0.len() as int),
                self.target_triple == old(self).target_triple,
                self.installation.wf(),
                prefix.wf(),
                tx.wf_for(prefix@),
                forall|k: int| #![trigger comps@[k]] 0 <= k < m ==> comps@[k].wf(),
                forall|a: int, b: int|
                    0 <= a < b < comps@.len() ==> comps@[a].name@ != comps@[b].name@,
                self.installation.manifest.components@.len() == u,
                forall|k: int| #![trigger self.installation.manifest.components@[k]]
                    0 <= k < u ==> rec_view(self.installation.manifest.components@[k])
                        == rec_of_payload(payloads_view(comps@)[k]),
                prefix@ == if u == 0 && cs0.len() == 0 {
                    fs0
                } else {
                    add_payloads(base, payloads_view(comps@), u as int).insert(
                        manifest_path(),
                        manifest_bytes(self.installation.manifest),
                    )
                },
            decreases m - u,
        {
            let ghost pre_man = self.installation.manifest;
            let ghost pre_fs = prefix@;
            proof {
                if man_has(pre_man, comps@[u as int].name@) {
                    let k = choose|k: int|
                        0 <= k < pre_man.components@.len()
                            && pre_man.components@[k].name@ == comps@[u as int].name@;
                    assert(rec_view(pre_man.components@[k])
                        == rec_of_payload(payloads_view(comps@)[k]));
                    assert(comps@[k].name@ == comps@[u as int].name@);
                    assert(false);
                }
            }
            let res = self.installation.install(&comps[u], None, prefix, &mut tx);
            match res {
                Ok(_) => {},
                Err(_) => {
                    proof {
                        assert(false);
                    }
                    return Err(Error::ArchiveError);
                },
            }
            proof {
                let pv = payloads_view(comps@)[u as int];
                assert(pv == (comps@[u as int].name@, crate::component::files_view(
                    comps@[u as int].files@,
                )));
                assert(rec_view(self.installation.manifest.components@.last())
                    =~= rec_of_payload(pv));
                let lastrec = self.installation.manifest.components@[u as int];
                assert(lastrec == self.installation.manifest.components@.last());
                assert(rec_view(lastrec).1 == Seq::new(
                    comps@[u as int].files@.len(),
                    |j: int| comps@[u as int].files@[j].path@,
                ));
                assert(lastrec.paths@.len() == comps@[u as int].files@.len());
                assert(forall|j2: int| #![trigger lastrec.paths@[j2]]
                    0 <= j2 < lastrec.paths@.len()
                        ==> lastrec.paths@[j2]@ == rec_view(lastrec).1[j2]);
                assert(forall|j2: int| #![trigger lastrec.paths@[j2]]
                    0 <= j2 < lastrec.paths@.len()
                        ==> lastrec.paths@[j2]@ != manifest_path()) by {
                    assert(forall|j2: int| #![trigger comps@[u as int].files@[j2]]
                        0 <= j2 < comps@[u as int].files@.len()
                            ==> comps@[u as int].files@[j2].path@ != manifest_path());
                }
                let fl = crate::component::files_view(comps@[u as int].files@);
                let flen = comps@[u as int].files@.len() as int;
                assert(forall|t2: int| #![trigger fl[t2]] 0 <= t2 < flen
                    ==> fl[t2].0 != manifest_path()) by {
                    assert(forall|t2: int| 0 <= t2 < flen
                        ==> fl[t2].0 == comps@[u as int].files@[t2].path@);
                }
                if u == 0 && cs0.len() == 0 {
                    assert(prefix@ == insert_files(fs0, fl, flen).insert(
                        manifest_path(),
                        manifest_bytes(self.installation.manifest),
                    ));
                    assert(strip_records(fs0, cs0, 0) == fs0);
                    assert(base == fs0);
                    assert(add_payloads(base, payloads_view(comps@), 0) == base);
                    assert(insert_files(fs0, fl, flen) =~= add_payloads(base, payloads_view(comps@), 1));
                } else {
                    lemma_insert_files_insert(
                        add_payloads(base, payloads_view(comps@), u as int),
                        fl,
                        flen,
                        manifest_path(),
                        manifest_bytes(pre_man),
                    );
                    assert(insert_files(pre_fs, fl, flen)
                        =~= add_payloads(base, payloads_view(comps@), u as int + 1).insert(
                        manifest_path(),
                        manifest_bytes(pre_man),
                    ));
                    assert(prefix@ =~= add_payloads(base, payloads_view(comps@), u as int + 1)
                        .insert(manifest_path(), manifest_bytes(self.installation.manifest)));
                }
            }
            u = u + 1;
        }
        let bytes = self.installation.manifest.serialize();
        let mp = crate::manifest::manifest_path_vec();
        tx.write_file(prefix, &mp, bytes);
        proof {
            assert(prefix@ =~= add_payloads(base, payloads_view(comps@), m as int).insert(
                manifest_path(),
                manifest_bytes(self.installation.manifest),
            ));
        }
        tx.commit();
        Ok(())
    }

    /// Install the contents of a local, already-downloaded archive,
    /// replacing whatever is installed.  The archive is decoded before
    /// the transaction opens, so on any failure — corrupt or unsupported
    /// archive, or an entry whose path would escape the prefix — the
    /// prefix and the registry are exactly as before; mutations staged
    /// and then abandoned are undone by the transaction's rollback.
    pub fn update(
        &mut self,
        prefix: &mut InstallPrefix,
        archive: &Vec<u8>,
        format: PackageFormat,
    ) -> (r: Result<(), Error>)
        requires
            old(self).installation.wf(),
            old(prefix).wf(),
        ensures
            final(self).installation.wf(),
            final(prefix).wf(),
            final(self).target_triple == old(self).target_triple,
            match r {
                Ok(_) => raw_entries(archive@, format) matches Some(es) && {
                    let group = group_upto(es, es.len() as int);
                    &&& entries_ok(es)
                    &&& final(self).installation.manifest.components@.len() == group.len()
                    &&& forall|k: int|
                        #![trigger final(self).installation.manifest.components@[k]]
                        0 <= k < group.len()
                            ==> rec_view(final(self).installation.manifest.components@[k])
                                == rec_of_payload(group[k])
                    &&& final(prefix)@ == add_payloads(
                        strip_records(
                            old(prefix)@,
                            old(self).installation.manifest.components@,
                            old(self).installation.manifest.components@.len() as int,
                        ),
                        group,
                        group.len() as int,
                    ).insert(
                        manifest_path(),
                        manifest_bytes(final(self).installation.manifest),
                    )
                },
                Err(e) => {
                    &&& e == Error::ArchiveError || e == Error::UnsupportedFormat
                        || e == Error::PathEscape
                    &&& *final(self) == *old(self)
                    &&& final(prefix)@ == old(prefix)@
                },
            },
            raw_entries(archive@, format) matches Some(es) ==> (r is Ok <==> entries_ok(es)),
            raw_entries(archive@, format) matches Some(es) && !entries_ok(es)
                ==> r == Err::<(), Error>(Error::PathEscape),
            raw_entries(archive@, format) is None ==> r is Err,
    {
        let comps = match decode_package(archive, format) {
            Ok(c) => c,
            Err(e) => {
                return Err(e);
            },
        };
        match self.update_from_components(prefix, &comps) {
            Ok(_) => Ok(()),
            Err(e) => Err(e),
        }
    }
}

} // verus!
