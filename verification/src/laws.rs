//! The engine's cross-cutting guarantees, stated and proved once.
//!
//! Atomicity itself is the contract of `Transaction::rollback` together
//! with the `wf_for` clause every staged operation preserves; the laws
//! here cover what spans several operations: the install/uninstall round
//! trip, format parity, and the rejection of escaping paths.

use vstd::prelude::*;
use crate::archive::{add_entry, entries_ok, group_upto, pv_has, pv_index, raw_entries, PackageFormat};
use crate::component::{insert_files, remove_paths};
use crate::manifest::{manifest_path, ComponentRecord};
use crate::manifestation::{add_payloads, lemma_remove_paths_insert, strip_records};
use crate::paths::{clean_path, dotdot_seg_at, first_seg, SLASH};

verus! {

/// Removing the paths of freshly inserted files restores the map.
pub proof fn lemma_insert_then_remove(
    fs: Map<Seq<u8>, Seq<u8>>,
    files: Seq<(Seq<u8>, Seq<u8>)>,
    ps: Seq<Seq<u8>>,
    n: int,
)
    requires
        0 <= n <= files.len(),
        ps.len() == files.len(),
        forall|t: int| #![trigger ps[t]] 0 <= t < files.len() ==> ps[t] == files[t].0,
        forall|t: int| #![trigger files[t]] 0 <= t < n ==> !fs.contains_key(files[t].0),
        forall|a: int, b: int| 0 <= a < b < n ==> files[a].0 != files[b].0,
    ensures
        remove_paths(insert_files(fs, files, n), ps, n) == fs,
    decreases n,
{
    if n > 0 {
        lemma_insert_then_remove(fs, files, ps, n - 1);
        let k = files[n - 1].0;
        let v = files[n - 1].1;
        let m1 = insert_files(fs, files, n - 1);
        assert(forall|t: int| #![trigger ps[t]] 0 <= t < n - 1 ==> ps[t] != k);
        lemma_remove_paths_insert(m1, ps, n - 1, k, v);
        assert(remove_paths(insert_files(fs, files, n), ps, n)
            == remove_paths(m1, ps, n - 1).insert(k, v).remove(k));
        assert(fs.insert(k, v).remove(k) =~= fs);
    }
}

/// Round trip: installing a component whose target files are all new,
/// then uninstalling it, leaves the prefix as it was — up to the
/// registry's own manifest file, which install and uninstall each
/// rewrite.  The two sides of the equality are the prefix maps that the
/// contracts of `Components::install` and `Components::uninstall` give
/// for an install followed by an uninstall of the same component.
pub proof fn lemma_install_uninstall_round_trip(
    fs: Map<Seq<u8>, Seq<u8>>,
    files: Seq<(Seq<u8>, Seq<u8>)>,
    ps: Seq<Seq<u8>>,
    b1: Seq<u8>,
    b2: Seq<u8>,
)
    requires
        ps.len() == files.len(),
        forall|t: int| #![trigger ps[t]] 0 <= t < files.len() ==> ps[t] == files[t].0,
        forall|t: int| #![trigger files[t]]
            0 <= t < files.len() ==> !fs.contains_key(files[t].0) && files[t].0 != manifest_path(),
        forall|a: int, b: int| 0 <= a < b < files.len() ==> files[a].0 != files[b].0,
    ensures
        remove_paths(
            insert_files(fs, files, files.len() as int).insert(manifest_path(), b1),
            ps,
            files.len() as int,
        ).insert(manifest_path(), b2) == fs.insert(manifest_path(), b2),
{
    let n = files.len() as int;
    let m = insert_files(fs, files, n);
    assert(forall|t: int| #![trigger ps[t]] 0 <= t < n ==> ps[t] != manifest_path());
    lemma_remove_paths_insert(m, ps, n, manifest_path(), b1);
    lemma_insert_then_remove(fs, files, ps, n);
    assert(remove_paths(m.insert(manifest_path(), b1), ps, n).insert(manifest_path(), b2)
        =~= fs.insert(manifest_path(), b2));
}

/// The prefix an update stages, as a function of the starting prefix,
/// the installed records, and the decoded archive entries.
pub open spec fn staged_prefix(
    fs: Map<Seq<u8>, Seq<u8>>,
    cs: Seq<ComponentRecord>,
    es: Seq<(Seq<u8>, Seq<u8>)>,
) -> Map<Seq<u8>, Seq<u8>> {
    add_payloads(
        strip_records(fs, cs, cs.len() as int),
        group_upto(es, es.len() as int),
        group_upto(es, es.len() as int).len() as int,
    )
}

/// The prefix an archive stages on a given installation, or `None` when
/// the archive does not decode.
pub open spec fn staged_from(
    fs: Map<Seq<u8>, Seq<u8>>,
    cs: Seq<ComponentRecord>,
    b: Seq<u8>,
    format: PackageFormat,
) -> Option<Map<Seq<u8>, Seq<u8>>> {
    match raw_entries(b, format) {
        Some(es) => Some(staged_prefix(fs, cs, es)),
        None => None,
    }
}

/// Format parity: the staged file tree depends on the decoded entries
/// alone, never on which container carried them.  Two archives — one
/// gzip-tar, one zip — that decode to the same entries update any
/// installation identically.
pub proof fn lemma_format_parity(
    a: Seq<u8>,
    z: Seq<u8>,
    fs: Map<Seq<u8>, Seq<u8>>,
    cs: Seq<ComponentRecord>,
)
    requires
        raw_entries(a, PackageFormat::TarGz) == raw_entries(z, PackageFormat::Zip),
    ensures
        staged_from(fs, cs, a, PackageFormat::TarGz) == staged_from(fs, cs, z, PackageFormat::Zip),
{
}

/// Path safety: an entry whose path is absolute or climbs through a
/// parent directory is not clean, so decoding refuses the whole archive
/// with `PathEscape` and an update leaves the prefix untouched.
pub proof fn lemma_path_escape(es: Seq<(Seq<u8>, Seq<u8>)>, i: int, d: int)
    requires
        0 <= i < es.len(),
        (es[i].0.len() > 0 && es[i].0[0] == SLASH) || dotdot_seg_at(es[i].0, d),
    ensures
        !entries_ok(es),
{
    assert(!clean_path(es[i].0));
}


/// Duplicate guard at the orchestrator: grouping archive entries by their
/// leading path segment can never yield two components of one name, so an
/// update cannot even ask the registry to install a name twice.  Within
/// the registry the guard itself is exact: `Components::install` refuses
/// an installed name with `DuplicateComponent` and changes nothing.
pub proof fn lemma_group_names_distinct(es: Seq<(Seq<u8>, Seq<u8>)>, n: int)
    requires
        0 <= n <= es.len(),
    ensures
        forall|a: int, b: int|
            0 <= a < b < group_upto(es, n).len()
                ==> group_upto(es, n)[a].0 != group_upto(es, n)[b].0,
    decreases n,
{
    if n > 0 {
        lemma_group_names_distinct(es, n - 1);
        let g = group_upto(es, n - 1);
        let g2 = group_upto(es, n);
        let nm = first_seg(es[n - 1].0);
        assert(g2 == add_entry(g, es[n - 1]));
        if pv_has(g, nm) {
            let k = pv_index(g, nm);
            assert(0 <= k < g.len() && g[k].0 == nm);
            assert(forall|t: int| 0 <= t < g2.len() ==> g2[t].0 == g[t].0);
        } else {
            assert(forall|a: int, b: int| 0 <= a < b < g2.len() ==> g2[a].0 != g2[b].0) by {
                assert(forall|t: int| 0 <= t < g.len() ==> g2[t].0 == g[t].0);
                assert(forall|t: int| 0 <= t < g.len() ==> g[t].0 != nm);
                assert(g2[g.len() as int].0 == nm);
            }
        }
    }
}

/// Every file a decoded component brings lies under the directory its
/// name heads: the first segment of each of its paths is the component's
/// name.
pub proof fn lemma_group_paths_first_seg(es: Seq<(Seq<u8>, Seq<u8>)>, n: int)
    requires
        0 <= n <= es.len(),
    ensures
        forall|k: int, j: int|
            #![trigger group_upto(es, n)[k].1[j]]
            0 <= k < group_upto(es, n).len() && 0 <= j < group_upto(es, n)[k].1.len()
                ==> first_seg(group_upto(es, n)[k].1[j].0) == group_upto(es, n)[k].0,
    decreases n,
{
    if n > 0 {
        lemma_group_paths_first_seg(es, n - 1);
        let g = group_upto(es, n - 1);
        let g2 = group_upto(es, n);
        let e = es[n - 1];
        let nm = first_seg(e.0);
        assert(g2 == add_entry(g, e));
        if pv_has(g, nm) {
            let k0 = pv_index(g, nm);
            assert(0 <= k0 < g.len() && g[k0].0 == nm);
            assert(forall|k: int, j: int|
                #![trigger g2[k].1[j]]
                0 <= k < g2.len() && 0 <= j < g2[k].1.len()
                    ==> first_seg(g2[k].1[j].0) == g2[k].0) by {
                assert(forall|k: int| 0 <= k < g2.len() && k != k0 ==> g2[k] == g[k]);
                assert(g2[k0].0 == g[k0].0);
                assert(g2[k0].1 == g[k0].1.push(e));
                assert(forall|j: int| 0 <= j < g[k0].1.len() ==> g2[k0].1[j] == g[k0].1[j]);
                assert(g2[k0].1[g[k0].1.len() as int] == e);
                assert(first_seg(e.0) == g2[k0].0);
            }
        } else {
            assert(forall|k: int, j: int|
                #![trigger g2[k].1[j]]
                0 <= k < g2.len() && 0 <= j < g2[k].1.len()
                    ==> first_seg(g2[k].1[j].0) == g2[k].0) by {
                assert(forall|k: int| 0 <= k < g.len() ==> g2[k] == g[k]);
                assert(g2[g.len() as int] == (nm, seq![e]));
                assert(g2[g.len() as int].1[0] == e);
            }
        }
    }
}

/// Distinct decoded components own disjoint file sets: two grouped
/// components never bring a file under the same path, because each path's
/// first segment is its owner's name.  Replacing one component therefore
/// cannot silently touch another's files.
pub proof fn lemma_group_components_disjoint(
    es: Seq<(Seq<u8>, Seq<u8>)>,
    n: int,
    a: int,
    b: int,
    i: int,
    j: int,
)
    requires
        0 <= n <= es.len(),
        0 <= a < b < group_upto(es, n).len(),
        0 <= i < group_upto(es, n)[a].1.len(),
        0 <= j < group_upto(es, n)[b].1.len(),
    ensures
        group_upto(es, n)[a].1[i].0 != group_upto(es, n)[b].1[j].0,
{
    lemma_group_names_distinct(es, n);
    lemma_group_paths_first_seg(es, n);
    let g = group_upto(es, n);
    assert(first_seg(g[a].1[i].0) == g[a].0);
    assert(first_seg(g[b].1[j].0) == g[b].0);
    assert(g[a].0 != g[b].0);
}


/// A key a map lacks stays absent under removals.
proof fn lemma_remove_paths_absent(m: Map<Seq<u8>, Seq<u8>>, ps: Seq<Seq<u8>>, i: int, key: Seq<u8>)
    requires
        !m.contains_key(key),
    ensures
        !remove_paths(m, ps, i).contains_key(key),
    decreases i,
{
    if i > 0 {
        lemma_remove_paths_absent(m, ps, i - 1, key);
    }
}

/// Every listed path is gone after the removals.
proof fn lemma_remove_paths_removes(m: Map<Seq<u8>, Seq<u8>>, ps: Seq<Seq<u8>>, i: int, j: int)
    requires
        0 <= j < i,
    ensures
        !remove_paths(m, ps, i).contains_key(ps[j]),
    decreases i,
{
    if j < i - 1 {
        lemma_remove_paths_removes(m, ps, i - 1, j);
    }
}

/// A key a map lacks stays absent under insertions of other keys.
proof fn lemma_insert_files_absent(
    m: Map<Seq<u8>, Seq<u8>>,
    files: Seq<(Seq<u8>, Seq<u8>)>,
    i: int,
    key: Seq<u8>,
)
    requires
        !m.contains_key(key),
        forall|t: int| #![trigger files[t]] 0 <= t < i ==> files[t].0 != key,
    ensures
        !insert_files(m, files, i).contains_key(key),
    decreases i,
{
    if i > 0 {
        lemma_insert_files_absent(m, files, i - 1, key);
    }
}

/// A path recorded for the component at `k` is gone once the first `i > k`
/// records are stripped.
proof fn lemma_strip_removes(
    fs: Map<Seq<u8>, Seq<u8>>,
    cs: Seq<ComponentRecord>,
    k: int,
    j: int,
    i: int,
)
    requires
        0 <= k < i <= cs.len(),
        0 <= j < cs[k].paths@.len(),
    ensures
        !strip_records(fs, cs, i).contains_key(cs[k].paths@[j]@),
    decreases i,
{
    if i == k + 1 {
        assert(crate::manifest::rec_view(cs[k]).1[j] == cs[k].paths@[j]@);
        lemma_remove_paths_removes(
            strip_records(fs, cs, k),
            crate::manifest::rec_view(cs[k]).1,
            cs[k].paths@.len() as int,
            j,
        );
    } else {
        lemma_strip_removes(fs, cs, k, j, i - 1);
        lemma_remove_paths_absent(
            strip_records(fs, cs, i - 1),
            crate::manifest::rec_view(cs[i - 1]).1,
            cs[i - 1].paths@.len() as int,
            cs[k].paths@[j]@,
        );
    }
}

/// A key a map lacks stays absent when components whose files all have
/// other paths are written.
proof fn lemma_add_payloads_absent(
    m: Map<Seq<u8>, Seq<u8>>,
    g: Seq<(Seq<u8>, Seq<(Seq<u8>, Seq<u8>)>)>,
    i: int,
    key: Seq<u8>,
)
    requires
        0 <= i <= g.len(),
        !m.contains_key(key),
        forall|t: int, j: int|
            #![trigger g[t].1[j]]
            0 <= t < i && 0 <= j < g[t].1.len() ==> g[t].1[j].0 != key,
    ensures
        !add_payloads(m, g, i).contains_key(key),
    decreases i,
{
    if i > 0 {
        lemma_add_payloads_absent(m, g, i - 1, key);
        lemma_insert_files_absent(
            add_payloads(m, g, i - 1),
            g[i - 1].1,
            g[i - 1].1.len() as int,
            key,
        );
    }
}

/// Replacement is complete: when the new archive no longer carries a
/// component, none of the files its record owned survives the update —
/// provided, as the decoder guarantees for every installed record, that
/// the file lies under the directory the component's name heads.  With
/// `Manifestation::update`'s postcondition this settles the end-to-end
/// scenario: after updating an installation of `core` and `docs` with an
/// archive holding only `core`, every `docs` file is gone.
pub proof fn lemma_update_drops_removed_component(
    fs: Map<Seq<u8>, Seq<u8>>,
    cs: Seq<ComponentRecord>,
    es: Seq<(Seq<u8>, Seq<u8>)>,
    mbytes: Seq<u8>,
    k: int,
    j: int,
)
    requires
        0 <= k < cs.len(),
        0 <= j < cs[k].paths@.len(),
        first_seg(cs[k].paths@[j]@) == cs[k].name@,
        cs[k].paths@[j]@ != manifest_path(),
        forall|t: int|
            0 <= t < group_upto(es, es.len() as int).len()
                ==> #[trigger] group_upto(es, es.len() as int)[t].0 != cs[k].name@,
    ensures
        !staged_prefix(fs, cs, es).insert(manifest_path(), mbytes).contains_key(
            cs[k].paths@[j]@,
        ),
{
    let p = cs[k].paths@[j]@;
    let g = group_upto(es, es.len() as int);
    lemma_strip_removes(fs, cs, k, j, cs.len() as int);
    lemma_group_paths_first_seg(es, es.len() as int);
    assert(forall|t: int, j2: int|
        #![trigger g[t].1[j2]]
        0 <= t < g.len() && 0 <= j2 < g[t].1.len() ==> g[t].1[j2].0 != p) by {
        assert(forall|t: int, j2: int|
            #![trigger g[t].1[j2]]
            0 <= t < g.len() && 0 <= j2 < g[t].1.len() && g[t].1[j2].0 == p
                ==> first_seg(g[t].1[j2].0) == g[t].0 && g[t].0 != cs[k].name@);
    }
    lemma_add_payloads_absent(strip_records(fs, cs, cs.len() as int), g, g.len() as int, p);
}


/// Stripping records whose paths all differ from `key` commutes with
/// inserting `key`.
proof fn lemma_strip_insert(
    m: Map<Seq<u8>, Seq<u8>>,
    cs: Seq<ComponentRecord>,
    n: int,
    key: Seq<u8>,
    v: Seq<u8>,
)
    requires
        n <= cs.len(),
        forall|k: int, j: int|
            #![trigger cs[k].paths@[j]]
            0 <= k < n && 0 <= j < cs[k].paths@.len() ==> cs[k].paths@[j]@ != key,
    ensures
        strip_records(m.insert(key, v), cs, n) == strip_records(m, cs, n).insert(key, v),
    decreases n,
{
    if n > 0 {
        lemma_strip_insert(m, cs, n - 1, key, v);
        let ps = crate::manifest::rec_view(cs[n - 1]).1;
        let plen = cs[n - 1].paths@.len() as int;
        assert(forall|t: int| #![trigger ps[t]] 0 <= t < plen ==> ps[t] != key) by {
            assert(forall|t: int| #![trigger ps[t]]
                0 <= t < plen ==> ps[t] == cs[n - 1].paths@[t]@);
        }
        lemma_remove_paths_insert(strip_records(m, cs, n - 1), ps, plen, key, v);
    }
}

/// Stripping records commutes with writing files none of them own.
proof fn lemma_strip_insert_files(
    m: Map<Seq<u8>, Seq<u8>>,
    cs: Seq<ComponentRecord>,
    n: int,
    files: Seq<(Seq<u8>, Seq<u8>)>,
    i: int,
)
    requires
        n <= cs.len(),
        0 <= i <= files.len(),
        forall|k: int, j: int|
            #![trigger cs[k].paths@[j]]
            0 <= k < n && 0 <= j < cs[k].paths@.len()
                ==> forall|t: int| #![trigger files[t]]
                    0 <= t < i ==> cs[k].paths@[j]@ != files[t].0,
    ensures
        strip_records(insert_files(m, files, i), cs, n)
            == insert_files(strip_records(m, cs, n), files, i),
    decreases i,
{
    if i > 0 {
        lemma_strip_insert_files(m, cs, n, files, i - 1);
        lemma_strip_insert(
            insert_files(m, files, i - 1),
            cs,
            n,
            files[i - 1].0,
            files[i - 1].1,
        );
    }
}

/// Installing a list of fresh components and then stripping exactly their
/// records restores the starting prefix.
proof fn lemma_install_all_then_strip_all(
    base: Map<Seq<u8>, Seq<u8>>,
    g: Seq<(Seq<u8>, Seq<(Seq<u8>, Seq<u8>)>)>,
    cs: Seq<ComponentRecord>,
    n: int,
)
    requires
        0 <= n <= g.len(),
        n <= cs.len(),
        forall|k: int| #![trigger cs[k].paths@]
            0 <= k < n ==> cs[k].paths@.len() == g[k].1.len(),
        forall|k: int, j: int|
            #![trigger cs[k].paths@[j]]
            0 <= k < n && 0 <= j < cs[k].paths@.len() ==> cs[k].paths@[j]@ == g[k].1[j].0,
        forall|a: int, i: int, b: int, j: int|
            #![trigger g[a].1[i], g[b].1[j]]
            0 <= a < n && 0 <= b < n && 0 <= i < g[a].1.len() && 0 <= j < g[b].1.len()
                && (a != b || i != j) ==> g[a].1[i].0 != g[b].1[j].0,
        forall|a: int, i: int|
            #![trigger g[a].1[i]]
            0 <= a < n && 0 <= i < g[a].1.len() ==> !base.contains_key(g[a].1[i].0),
    ensures
        strip_records(add_payloads(base, g, n), cs, n) == base,
    decreases n,
{
    if n > 0 {
        lemma_install_all_then_strip_all(base, g, cs, n - 1);
        let f = g[n - 1].1;
        let flen = f.len() as int;
        let prev = add_payloads(base, g, n - 1);
        assert(add_payloads(base, g, n) == insert_files(prev, f, flen));
        assert(forall|k: int, j: int|
            #![trigger cs[k].paths@[j]]
            0 <= k < n - 1 && 0 <= j < cs[k].paths@.len()
                ==> forall|t: int| #![trigger f[t]]
                    0 <= t < flen ==> cs[k].paths@[j]@ != f[t].0) by {
            assert(forall|k: int, j: int, t: int|
                #![trigger cs[k].paths@[j], f[t]]
                0 <= k < n - 1 && 0 <= j < cs[k].paths@.len() && 0 <= t < flen
                    ==> cs[k].paths@[j]@ == g[k].1[j].0 && g[k].1[j].0 != g[n - 1].1[t].0);
        }
        lemma_strip_insert_files(prev, cs, n - 1, f, flen);
        assert(strip_records(insert_files(prev, f, flen), cs, n - 1)
            == insert_files(base, f, flen));
        let ps = crate::manifest::rec_view(cs[n - 1]).1;
        let plen = cs[n - 1].paths@.len() as int;
        assert(ps.len() == flen && plen == flen);
        assert(forall|t: int| #![trigger ps[t]] 0 <= t < flen ==> ps[t] == f[t].0) by {
            assert(forall|t: int| #![trigger ps[t]]
                0 <= t < flen ==> ps[t] == cs[n - 1].paths@[t]@);
        }
        assert(forall|t: int| #![trigger f[t]] 0 <= t < flen ==> !base.contains_key(f[t].0));
        assert(forall|a: int, b: int| 0 <= a < b < flen ==> f[a].0 != f[b].0);
        lemma_insert_then_remove(base, f, ps, flen);
        assert(strip_records(add_payloads(base, g, n), cs, n)
            == remove_paths(insert_files(base, f, flen), ps, flen));
    }
}

/// Round trip at the orchestrator: a successful update that installed the
/// decoded components `g` into `base` (all their files fresh there,
/// pairwise distinct, none the manifest file), followed by an update
/// whose archive decodes to zero components, restores `base` up to the
/// manifest file's own bookkeeping.  The left-hand side is exactly the
/// final prefix that `Manifestation::update`'s postconditions give for
/// the two calls; the second update stages an empty component list, so
/// its effect is precisely the strip of the first update's records.
pub proof fn lemma_update_then_empty_round_trip(
    base: Map<Seq<u8>, Seq<u8>>,
    g: Seq<(Seq<u8>, Seq<(Seq<u8>, Seq<u8>)>)>,
    cs: Seq<ComponentRecord>,
    b1: Seq<u8>,
    b2: Seq<u8>,
)
    requires
        cs.len() == g.len(),
        forall|k: int| #![trigger cs[k].paths@]
            0 <= k < cs.len() ==> cs[k].paths@.len() == g[k].1.len(),
        forall|k: int, j: int|
            #![trigger cs[k].paths@[j]]
            0 <= k < cs.len() && 0 <= j < cs[k].paths@.len()
                ==> cs[k].paths@[j]@ == g[k].1[j].0,
        forall|a: int, i: int, b: int, j: int|
            #![trigger g[a].1[i], g[b].1[j]]
            0 <= a < g.len() && 0 <= b < g.len() && 0 <= i < g[a].1.len() && 0 <= j < g[b].1.len()
                && (a != b || i != j) ==> g[a].1[i].0 != g[b].1[j].0,
        forall|a: int, i: int|
            #![trigger g[a].1[i]]
            0 <= a < g.len() && 0 <= i < g[a].1.len()
                ==> !base.contains_key(g[a].1[i].0) && g[a].1[i].0 != manifest_path(),
    ensures
        strip_records(
            add_payloads(base, g, g.len() as int).insert(manifest_path(), b1),
            cs,
            cs.len() as int,
        ).insert(manifest_path(), b2) == base.insert(manifest_path(), b2),
{
    let n = g.len() as int;
    assert(forall|k: int, j: int|
        #![trigger cs[k].paths@[j]]
        0 <= k < n && 0 <= j < cs[k].paths@.len() ==> cs[k].paths@[j]@ != manifest_path());
    lemma_strip_insert(add_payloads(base, g, n), cs, n, manifest_path(), b1);
    lemma_install_all_then_strip_all(base, g, cs, n);
    assert(strip_records(add_payloads(base, g, n), cs, n).insert(manifest_path(), b1).insert(
        manifest_path(),
        b2,
    ) =~= base.insert(manifest_path(), b2));
}

} // verus!
