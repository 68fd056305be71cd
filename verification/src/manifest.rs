//! The persisted manifest: which files belong to which installed component.
//!
//! On disk the manifest is a line-based byte file.  The first line is the
//! format version tag; every further line is a one-byte tag followed by
//! content: a `n` line starts a component, a `p` line adds one of its
//! paths.  An unknown version tag fails with `BadInstallerVersion`; any
//! other malformed content fails with `CorruptManifest`.

use vstd::prelude::*;
use crate::errors::Error;
use crate::paths::{clean_path, name_ok, NEWLINE};

verus! {

/// Byte value of `1`, the only supported format version tag.
pub const VERSION_BYTE: u8 = 49;

/// Byte value of `n`: the line names a component.
pub const NAME_TAG: u8 = 110;

/// Byte value of `p`: the line adds a path to the last component.
pub const PATH_TAG: u8 = 112;

/// The reserved path of the manifest file inside the prefix: `manifest`.
pub open spec fn manifest_path() -> Seq<u8> {
    seq![109u8, 97u8, 110u8, 105u8, 102u8, 101u8, 115u8, 116u8]
}

/// The manifest file's path as a vector.
pub fn manifest_path_vec() -> (r: Vec<u8>)
    ensures
        r@ == manifest_path(),
{
    let mut r: Vec<u8> = Vec::new();
    r.push(109);
    r.push(97);
    r.push(110);
    r.push(105);
    r.push(102);
    r.push(101);
    r.push(115);
    r.push(116);
    assert(r@ =~= manifest_path());
    r
}

/// One installed component: its name and the paths it owns.
pub struct ComponentRecord {
    pub name: Vec<u8>,
    pub paths: Vec<Vec<u8>>,
}

/// The manifest: the ordered list of installed components.
pub struct Manifest {
    pub components: Vec<ComponentRecord>,
}

/// The mathematical value of a record: its name and path sequences.
pub open spec fn rec_view(c: ComponentRecord) -> (Seq<u8>, Seq<Seq<u8>>) {
    (c.name@, Seq::new(c.paths@.len(), |j: int| c.paths@[j]@))
}

/// The mathematical value of a manifest.
pub open spec fn man_view(m: Manifest) -> Seq<(Seq<u8>, Seq<Seq<u8>>)> {
    Seq::new(m.components@.len(), |i: int| rec_view(m.components@[i]))
}

/// Some record of `acc` carries the name `n`.
pub open spec fn has_name(acc: Seq<(Seq<u8>, Seq<Seq<u8>>)>, n: Seq<u8>) -> bool {
    exists|i: int| 0 <= i < acc.len() && acc[i].0 == n
}

impl Manifest {
    /// Well-formed: names are valid and unique, every path is clean.
    pub open spec fn wf(&self) -> bool {
        &&& forall|i: int| #![trigger self.components@[i]]
            0 <= i < self.components@.len() ==> name_ok(self.components@[i].name@)
        &&& forall|i: int, j: int|
            0 <= i < j < self.components@.len()
                ==> self.components@[i].name@ != self.components@[j].name@
        &&& forall|i: int, j: int|
            #![trigger self.components@[i].paths@[j]]
            0 <= i < self.components@.len() && 0 <= j < self.components@[i].paths@.len()
                ==> clean_path(self.components@[i].paths@[j]@)
                    && self.components@[i].paths@[j]@ != manifest_path()
    }

    /// An empty manifest: nothing installed.
    pub fn new() -> (r: Manifest)
        ensures
            r.wf(),
            r.components@.len() == 0,
    {
        Manifest { components: Vec::new() }
    }

    /// Index of the record carrying `name`, if any.
    pub fn find(&self, name: &Vec<u8>) -> (r: Option<usize>)
        ensures
            match r {
                Some(i) => i < self.components@.len() && self.components@[i as int].name@ == name@,
                None => forall|i: int|
                    0 <= i < self.components@.len() ==> self.components@[i].name@ != name@,
            },
    {
        let n = self.components.len();
        let mut i: usize = 0;
        while i < n
            invariant
                n == self.components@.len(),
                0 <= i <= n,
                forall|j: int| 0 <= j < i ==> self.components@[j].name@ != name@,
            decreases n - i,
        {
            if self.components[i].name == *name {
                assert(self.components@[i as int].name@ =~= name@);
                return Some(i);
            }
            assert(self.components@[i as int].name@ != name@);
            i = i + 1;
        }
        None
    }

}

/// The serialized bytes of the first `i` paths of a record.
pub open spec fn paths_bytes(ps: Seq<Vec<u8>>, i: int) -> Seq<u8>
    decreases i,
{
    if i <= 0 {
        Seq::empty()
    } else {
        paths_bytes(ps, i - 1) + seq![PATH_TAG] + ps[i - 1]@ + seq![NEWLINE]
    }
}

/// The serialized bytes of one record.
pub open spec fn record_bytes(c: ComponentRecord) -> Seq<u8> {
    seq![NAME_TAG] + c.name@ + seq![NEWLINE] + paths_bytes(c.paths@, c.paths@.len() as int)
}

/// The serialized bytes of the first `i` records.
pub open spec fn records_bytes(cs: Seq<ComponentRecord>, i: int) -> Seq<u8>
    decreases i,
{
    if i <= 0 {
        Seq::empty()
    } else {
        records_bytes(cs, i - 1) + record_bytes(cs[i - 1])
    }
}

/// The serialized bytes of a whole manifest.
pub open spec fn manifest_bytes(m: Manifest) -> Seq<u8> {
    seq![VERSION_BYTE, NEWLINE] + records_bytes(m.components@, m.components@.len() as int)
}

impl Manifest {
    /// Serialize the manifest into its on-disk byte form.
    pub fn serialize(&self) -> (r: Vec<u8>)
        ensures
            r@ == manifest_bytes(*self),
    {
        let mut out: Vec<u8> = Vec::new();
        out.push(VERSION_BYTE);
        out.push(NEWLINE);
        assert(out@ =~= seq![VERSION_BYTE, NEWLINE]);
        let n = self.components.len();
        let mut i: usize = 0;
        while i < n
            invariant
                n == self.components@.len(),
                0 <= i <= n,
                out@ == seq![VERSION_BYTE, NEWLINE] + records_bytes(self.components@, i as int),
            decreases n - i,
        {
            let c = &self.components[i];
            let ghost base = out@;
            out.push(NAME_TAG);
            out.extend_from_slice(c.name.as_slice());
            out.push(NEWLINE);
            assert(out@ =~= base + seq![NAME_TAG] + c.name@ + seq![NEWLINE]);
            let ghost rec_base = out@;
            let m = c.paths.len();
            let mut j: usize = 0;
            while j < m
                invariant
                    m == c.paths@.len(),
                    0 <= j <= m,
                    out@ == rec_base + paths_bytes(c.paths@, j as int),
                decreases m - j,
            {
                let ghost pbase = out@;
                out.push(PATH_TAG);
                out.extend_from_slice(c.paths[j].as_slice());
                out.push(NEWLINE);
                assert(out@ =~= pbase + seq![PATH_TAG] + c.paths@[j as int]@ + seq![NEWLINE]);
                j = j + 1;
            }
            assert(out@ =~= base + record_bytes(self.components@[i as int]));
            i = i + 1;
        }
        out
    }
}

/// Index of the first newline at or after `i`, or `-1` if none follows.
pub open spec fn find_nl(b: Seq<u8>, i: int) -> int
    decreases b.len() - i,
{
    if i < 0 || i >= b.len() {
        -1
    } else if b[i] == NEWLINE {
        i
    } else {
        find_nl(b, i + 1)
    }
}

/// Parse the body lines starting at `i`, extending the records of `acc`.
pub open spec fn parse_lines(
    b: Seq<u8>,
    i: int,
    acc: Seq<(Seq<u8>, Seq<Seq<u8>>)>,
) -> Option<Seq<(Seq<u8>, Seq<Seq<u8>>)>>
    decreases b.len() - i,
{
    if i >= b.len() {
        Some(acc)
    } else {
        let e = find_nl(b, i);
        if e < i || e >= b.len() || e == i {
            None
        } else {
            let content = b.subrange(i + 1, e);
            if b[i] == NAME_TAG {
                if name_ok(content) && !has_name(acc, content) {
                    parse_lines(b, e + 1, acc.push((content, Seq::empty())))
                } else {
                    None
                }
            } else if b[i] == PATH_TAG {
                if acc.len() > 0 && clean_path(content) && content != manifest_path() {
                    let k = acc.len() - 1;
                    parse_lines(b, e + 1, acc.update(k as int, (acc[k as int].0, acc[k as int].1.push(content))))
                } else {
                    None
                }
            } else {
                None
            }
        }
    }
}

/// The outcome of parsing manifest bytes.
pub open spec fn parse_spec(b: Seq<u8>) -> Result<Seq<(Seq<u8>, Seq<Seq<u8>>)>, Error> {
    let e0 = find_nl(b, 0);
    if e0 < 0 {
        Err(Error::CorruptManifest)
    } else if !(e0 == 1 && b[0] == VERSION_BYTE) {
        Err(Error::BadInstallerVersion)
    } else {
        match parse_lines(b, 2, Seq::empty()) {
            Some(rs) => Ok(rs),
            None => Err(Error::CorruptManifest),
        }
    }
}

/// Scan for the next newline.
fn scan_nl(data: &Vec<u8>, from: usize) -> (r: Option<usize>)
    requires
        from <= data@.len(),
    ensures
        match r {
            Some(e) => from <= e < data@.len() && find_nl(data@, from as int) == e,
            None => find_nl(data@, from as int) == -1,
        },
{
    let n = data.len();
    let mut j = from;
    while j < n && data[j] != NEWLINE
        invariant
            from <= j <= n,
            n == data@.len(),
            find_nl(data@, from as int) == find_nl(data@, j as int),
        decreases n - j,
    {
        j = j + 1;
    }
    if j < n {
        Some(j)
    } else {
        None
    }
}

/// Copy `data[from..to]` into a fresh vector.
pub fn copy_range(data: &Vec<u8>, from: usize, to: usize) -> (r: Vec<u8>)
    requires
        from <= to <= data@.len(),
    ensures
        r@ == data@.subrange(from as int, to as int),
{
    let mut r: Vec<u8> = Vec::new();
    let mut j = from;
    while j < to
        invariant
            from <= j <= to <= data@.len(),
            r@.len() == j - from,
            forall|t: int| #![trigger r@[t]] 0 <= t < r@.len() ==> r@[t] == data@[from + t],
        decreases to - j,
    {
        r.push(data[j]);
        j = j + 1;
    }
    assert(r@ =~= data@.subrange(from as int, to as int));
    r
}

/// Decide `name_ok` for a byte vector.
pub fn is_name_ok(n: &Vec<u8>) -> (b: bool)
    ensures
        b == name_ok(n@),
{
    let len = n.len();
    if len == 0 {
        return false;
    }
    let mut i: usize = 0;
    while i < len
        invariant
            len == n@.len(),
            0 <= i <= len,
            forall|j: int| #![trigger n@[j]]
                0 <= j < i ==> n@[j] != crate::paths::SLASH && n@[j] != NEWLINE,
        decreases len - i,
    {
        let c = n[i];
        if c == crate::paths::SLASH || c == NEWLINE {
            return false;
        }
        i = i + 1;
    }
    true
}

impl Manifest {
    /// Parse manifest bytes; the result is exactly what `parse_spec` says.
    pub fn parse(data: &Vec<u8>) -> (r: Result<Manifest, Error>)
        ensures
            match r {
                Ok(m) => m.wf() && parse_spec(data@)
                    == Ok::<Seq<(Seq<u8>, Seq<Seq<u8>>)>, Error>(man_view(m)),
                Err(e) => parse_spec(data@) == Err::<Seq<(Seq<u8>, Seq<Seq<u8>>)>, Error>(e),
            },
    {
        let e0 = match scan_nl(data, 0) {
            Some(e) => e,
            None => {
                return Err(Error::CorruptManifest);
            },
        };
        if !(e0 == 1 && data[0] == VERSION_BYTE) {
            return Err(Error::BadInstallerVersion);
        }
        let n = data.len();
        let mut m = Manifest { components: Vec::new() };
        let mut i: usize = 2;
        assert(man_view(m) =~= Seq::<(Seq<u8>, Seq<Seq<u8>>)>::empty());
        while i < n
            invariant
                2 <= i <= n,
                n == data@.len(),
                find_nl(data@, 0) == 1,
                data@[0] == VERSION_BYTE,
                m.wf(),
                parse_lines(data@, 2, Seq::empty()) == parse_lines(data@, i as int, man_view(m)),
            decreases n - i,
        {
            let e = match scan_nl(data, i) {
                Some(e) => e,
                None => {
                    return Err(Error::CorruptManifest);
                },
            };
            if e == i {
                return Err(Error::CorruptManifest);
            }
            let tag = data[i];
            let content = copy_range(data, i + 1, e);
            let ghost acc0 = man_view(m);
            if tag == NAME_TAG {
                if !is_name_ok(&content) {
                    return Err(Error::CorruptManifest);
                }
                match m.find(&content) {
                    Some(ix) => {
                        proof {
                            assert(acc0[ix as int].0 == content@);
                            assert(has_name(acc0, content@));
                        }
                        return Err(Error::CorruptManifest);
                    },
                    None => {},
                }
                assert(!has_name(acc0, content@));
                m.components.push(ComponentRecord { name: content, paths: Vec::new() });
                assert(man_view(m) =~= acc0.push((data@.subrange(i + 1, e as int), Seq::empty()))) by {
                    assert(forall|k: int| 0 <= k < acc0.len()
                        ==> rec_view(m.components@[k]) =~= acc0[k]);
                    assert(rec_view(m.components@[acc0.len() as int])
                        =~= (data@.subrange(i + 1, e as int), Seq::<Seq<u8>>::empty()));
                }
            } else if tag == PATH_TAG {
                if m.components.len() == 0 {
                    return Err(Error::CorruptManifest);
                }
                if !crate::paths::is_clean_path(&content) {
                    return Err(Error::CorruptManifest);
                }
                let mpv = manifest_path_vec();
                if content == mpv {
                    proof {
                        assert(content@ =~= manifest_path());
                    }
                    return Err(Error::CorruptManifest);
                }
                proof {
                    if content@ == manifest_path() {
                        assert(content@ =~= mpv@);
                        assert(false);
                    }
                }
                let ghost kk = acc0.len() - 1;
                let mut last = match m.components.pop() {
                    Some(c) => c,
                    None => {
                        return Err(Error::CorruptManifest);
                    },
                };
                last.paths.push(content);
                m.components.push(last);
                assert(man_view(m) =~= acc0.update(
                    kk as int,
                    (acc0[kk as int].0, acc0[kk as int].1.push(data@.subrange(i + 1, e as int))),
                )) by {
                    assert(forall|k: int| 0 <= k < acc0.len() - 1
                        ==> rec_view(m.components@[k]) =~= acc0[k]);
                    assert(rec_view(m.components@[kk as int])
                        =~= (acc0[kk as int].0, acc0[kk as int].1.push(data@.subrange(i + 1, e as int))));
                }
            } else {
                return Err(Error::CorruptManifest);
            }
            i = e + 1;
        }
        assert(parse_lines(data@, i as int, man_view(m))
            == Some::<Seq<(Seq<u8>, Seq<Seq<u8>>)>>(man_view(m)));
        Ok(m)
    }
}


/// The serialized bytes of the records from `j` on.
pub open spec fn records_suffix(cs: Seq<ComponentRecord>, j: int) -> Seq<u8>
    decreases cs.len() - j,
{
    if j < 0 || j >= cs.len() {
        Seq::empty()
    } else {
        record_bytes(cs[j]) + records_suffix(cs, j + 1)
    }
}

/// The serialized bytes of the paths from `k` on.
pub open spec fn paths_suffix(ps: Seq<Vec<u8>>, k: int) -> Seq<u8>
    decreases ps.len() - k,
{
    if k < 0 || k >= ps.len() {
        Seq::empty()
    } else {
        seq![PATH_TAG] + ps[k]@ + seq![NEWLINE] + paths_suffix(ps, k + 1)
    }
}

/// Prefix and suffix serializations of the records meet in the middle.
proof fn lemma_records_bridge(cs: Seq<ComponentRecord>, k: int)
    requires
        0 <= k <= cs.len(),
    ensures
        records_bytes(cs, cs.len() as int) == records_bytes(cs, k) + records_suffix(cs, k),
    decreases cs.len() - k,
{
    if k == cs.len() {
        assert(records_bytes(cs, k) + records_suffix(cs, k) =~= records_bytes(cs, k));
    } else {
        lemma_records_bridge(cs, k + 1);
        assert(records_bytes(cs, k + 1) == records_bytes(cs, k) + record_bytes(cs[k]));
        assert(records_bytes(cs, k) + record_bytes(cs[k]) + records_suffix(cs, k + 1)
            =~= records_bytes(cs, k) + records_suffix(cs, k));
    }
}

/// Prefix and suffix serializations of the paths meet in the middle.
proof fn lemma_paths_bridge(ps: Seq<Vec<u8>>, k: int)
    requires
        0 <= k <= ps.len(),
    ensures
        paths_bytes(ps, ps.len() as int) == paths_bytes(ps, k) + paths_suffix(ps, k),
    decreases ps.len() - k,
{
    if k == ps.len() {
        assert(paths_bytes(ps, k) + paths_suffix(ps, k) =~= paths_bytes(ps, k));
    } else {
        lemma_paths_bridge(ps, k + 1);
        assert(paths_bytes(ps, k + 1) == paths_bytes(ps, k) + seq![PATH_TAG] + ps[k]@
            + seq![NEWLINE]);
        assert(paths_bytes(ps, k) + seq![PATH_TAG] + ps[k]@ + seq![NEWLINE] + paths_suffix(
            ps,
            k + 1,
        ) =~= paths_bytes(ps, k) + paths_suffix(ps, k));
    }
}

/// A stretch of non-newline bytes ends at its first following newline.
proof fn lemma_find_nl_seg(b: Seq<u8>, i: int, n: int)
    requires
        0 <= i,
        0 <= n,
        i + n < b.len(),
        forall|t: int| #![trigger b[t]] i <= t < i + n ==> b[t] != NEWLINE,
        b[i + n] == NEWLINE,
    ensures
        find_nl(b, i) == i + n,
    decreases n,
{
    if n > 0 {
        lemma_find_nl_seg(b, i + 1, n - 1);
    }
}

/// Parsing the serialized records from `j` on, with the first `j` records
/// already accumulated, yields the whole manifest.
proof fn lemma_parse_records(b: Seq<u8>, m: Manifest, j: int, i: int)
    requires
        m.wf(),
        0 <= j <= m.components@.len(),
        0 <= i <= b.len(),
        b.subrange(i, b.len() as int) == records_suffix(m.components@, j),
    ensures
        parse_lines(b, i, man_view(m).take(j)) == Some(man_view(m)),
    decreases m.components@.len() - j, 1int, 0int,
{
    let cs = m.components@;
    let acc = man_view(m).take(j);
    if j == cs.len() {
        assert(records_suffix(cs, j) =~= Seq::<u8>::empty());
        assert(b.subrange(i, b.len() as int).len() == 0);
        assert(i == b.len());
        assert(acc =~= man_view(m));
    } else {
        let name = cs[j].name@;
        let ps = cs[j].paths@;
        let suf = records_suffix(cs, j);
        assert(suf == record_bytes(cs[j]) + records_suffix(cs, j + 1));
        lemma_paths_bridge(ps, 0);
        assert(paths_bytes(ps, ps.len() as int) =~= paths_suffix(ps, 0));
        let tail = paths_suffix(ps, 0) + records_suffix(cs, j + 1);
        assert(suf =~= seq![NAME_TAG] + name + seq![NEWLINE] + tail);
        assert(suf.len() == 2 + name.len() + tail.len());
        assert(forall|t: int| #![trigger suf[t]]
            0 <= t < suf.len() ==> b[i + t] == suf[t]) by {
            assert(forall|t: int| #![trigger suf[t]]
                0 <= t < suf.len() ==> b.subrange(i, b.len() as int)[t] == suf[t]);
        }
        assert(i + suf.len() == b.len());
        let e = i + 1 + name.len() as int;
        assert(b[i] == NAME_TAG) by {
            assert(suf[0] == NAME_TAG);
            assert(b[i + 0] == suf[0]);
        }
        assert(forall|t: int| #![trigger name[t]]
            0 <= t < name.len() ==> b[i + 1 + t] == name[t]) by {
            assert(forall|t: int| #![trigger name[t]]
                0 <= t < name.len() ==> suf[1 + t] == name[t]);
            assert(forall|t: int| #![trigger name[t]]
                0 <= t < name.len() ==> b[i + (1 + t)] == suf[1 + t]);
        }
        assert(b[e] == NEWLINE) by {
            assert(suf[1 + name.len() as int] == NEWLINE);
            assert(b[i + (1 + name.len() as int)] == suf[1 + name.len() as int]);
        }
        assert(name_ok(name));
        assert(forall|t2: int| #![trigger b[t2]]
            i <= t2 < i + 1 + name.len() ==> b[t2] != NEWLINE) by {
            assert(forall|t2: int| #![trigger b[t2]]
                i < t2 < i + 1 + name.len() ==> b[t2] == name[t2 - i - 1]);
        }
        lemma_find_nl_seg(b, i, 1 + name.len() as int);
        assert(find_nl(b, i) == e);
        assert(b.subrange(i + 1, e) =~= name);
        assert(!has_name(acc, name)) by {
            if has_name(acc, name) {
                let w = choose|w: int| 0 <= w < acc.len() && acc[w].0 == name;
                assert(acc[w] == man_view(m)[w]);
                assert(cs[w].name@ == cs[j].name@);
                assert(false);
            }
        }
        assert(b.subrange(e + 1, b.len() as int) =~= tail) by {
            assert(forall|t: int| #![trigger tail[t]]
                0 <= t < tail.len() ==> suf[2 + name.len() + t] == tail[t]);
            assert(forall|t: int| #![trigger tail[t]]
                0 <= t < tail.len() ==> b[i + (2 + name.len() + t)] == suf[2 + name.len() + t]);
        }
        lemma_parse_paths(b, m, j, 0, e + 1);
        let acc2 = acc.push((name, Seq::<Seq<u8>>::empty()));
        assert(acc2 == man_view(m).take(j).push((cs[j].name@, rec_view(cs[j]).1.take(0)))) by {
            assert(rec_view(cs[j]).1.take(0) =~= Seq::<Seq<u8>>::empty());
        }
        assert(parse_lines(b, i, acc) == parse_lines(b, e + 1, acc2));
    }
}

/// Parsing the serialized paths of record `j` from `k` on, then the later
/// records, yields the whole manifest.
proof fn lemma_parse_paths(b: Seq<u8>, m: Manifest, j: int, k: int, i: int)
    requires
        m.wf(),
        0 <= j < m.components@.len(),
        0 <= k <= m.components@[j].paths@.len(),
        0 <= i <= b.len(),
        b.subrange(i, b.len() as int) == paths_suffix(m.components@[j].paths@, k)
            + records_suffix(m.components@, j + 1),
    ensures
        parse_lines(
            b,
            i,
            man_view(m).take(j).push((m.components@[j].name@, rec_view(m.components@[j]).1.take(k))),
        ) == Some(man_view(m)),
    decreases m.components@.len() - j, 0int, m.components@[j].paths@.len() - k,
{
    let cs = m.components@;
    let ps = cs[j].paths@;
    let acc = man_view(m).take(j).push((cs[j].name@, rec_view(cs[j]).1.take(k)));
    if k == ps.len() {
        assert(paths_suffix(ps, k) =~= Seq::<u8>::empty());
        assert(b.subrange(i, b.len() as int) =~= records_suffix(cs, j + 1));
        assert(acc =~= man_view(m).take(j + 1)) by {
            assert(rec_view(cs[j]).1.take(k) =~= rec_view(cs[j]).1);
            assert(man_view(m)[j] == rec_view(cs[j]));
        }
        lemma_parse_records(b, m, j + 1, i);
        assert(parse_lines(b, i, acc) == parse_lines(b, i, man_view(m).take(j + 1)));
    } else {
        let pp = ps[k]@;
        let suf = paths_suffix(ps, k) + records_suffix(cs, j + 1);
        assert(b.subrange(i, b.len() as int) == suf);
        let tail = paths_suffix(ps, k + 1) + records_suffix(cs, j + 1);
        assert(suf =~= seq![PATH_TAG] + pp + seq![NEWLINE] + tail);
        assert(suf.len() == 2 + pp.len() + tail.len());
        assert(forall|t: int| #![trigger suf[t]]
            0 <= t < suf.len() ==> b[i + t] == suf[t]) by {
            assert(forall|t: int| #![trigger suf[t]]
                0 <= t < suf.len() ==> b.subrange(i, b.len() as int)[t] == suf[t]);
        }
        assert(i + suf.len() == b.len());
        let e = i + 1 + pp.len() as int;
        assert(b[i] == PATH_TAG) by {
            assert(suf[0] == PATH_TAG);
            assert(b[i + 0] == suf[0]);
        }
        assert(forall|t: int| #![trigger pp[t]]
            0 <= t < pp.len() ==> b[i + 1 + t] == pp[t]) by {
            assert(forall|t: int| #![trigger pp[t]]
                0 <= t < pp.len() ==> suf[1 + t] == pp[t]);
            assert(forall|t: int| #![trigger pp[t]]
                0 <= t < pp.len() ==> b[i + (1 + t)] == suf[1 + t]);
        }
        assert(b[e] == NEWLINE) by {
            assert(suf[1 + pp.len() as int] == NEWLINE);
            assert(b[i + (1 + pp.len() as int)] == suf[1 + pp.len() as int]);
        }
        assert(clean_path(pp));
        assert(pp != manifest_path());
        assert(forall|t2: int| #![trigger b[t2]]
            i <= t2 < i + 1 + pp.len() ==> b[t2] != NEWLINE) by {
            assert(forall|t2: int| #![trigger b[t2]]
                i < t2 < i + 1 + pp.len() ==> b[t2] == pp[t2 - i - 1]);
        }
        lemma_find_nl_seg(b, i, 1 + pp.len() as int);
        assert(find_nl(b, i) == e);
        assert(b.subrange(i + 1, e) =~= pp);
        assert(b.subrange(e + 1, b.len() as int) =~= tail) by {
            assert(forall|t: int| #![trigger tail[t]]
                0 <= t < tail.len() ==> suf[2 + pp.len() + t] == tail[t]);
            assert(forall|t: int| #![trigger tail[t]]
                0 <= t < tail.len() ==> b[i + (2 + pp.len() + t)] == suf[2 + pp.len() + t]);
        }
        lemma_parse_paths(b, m, j, k + 1, e + 1);
        assert(acc.len() > 0);
        let acc2 = acc.update(
            acc.len() - 1,
            (acc[acc.len() - 1].0, acc[acc.len() - 1].1.push(pp)),
        );
        assert(acc2 =~= man_view(m).take(j).push((
            cs[j].name@,
            rec_view(cs[j]).1.take(k + 1),
        ))) by {
            assert(acc[acc.len() - 1].0 == cs[j].name@);
            assert(acc[acc.len() - 1].1.push(pp) =~= rec_view(cs[j]).1.take(k + 1)) by {
                assert(rec_view(cs[j]).1[k] == pp);
            }
        }
        assert(parse_lines(b, i, acc) == parse_lines(b, e + 1, acc2));
    }
}

/// Round trip: a well-formed manifest, serialized and parsed again, comes
/// back exactly.  Reopening a prefix that a committed transaction wrote
/// therefore sees the same registry that was persisted.
pub proof fn lemma_parse_serialize_round_trip(m: Manifest)
    requires
        m.wf(),
    ensures
        parse_spec(manifest_bytes(m)) == Ok::<Seq<(Seq<u8>, Seq<Seq<u8>>)>, Error>(man_view(m)),
{
    let b = manifest_bytes(m);
    let cs = m.components@;
    assert(b[0] == VERSION_BYTE && b[1] == NEWLINE);
    assert(find_nl(b, 0) == 1) by {
        lemma_find_nl_seg(b, 0, 1);
    }
    lemma_records_bridge(cs, 0);
    assert(records_bytes(cs, 0) =~= Seq::<u8>::empty());
    assert(b.subrange(2, b.len() as int) =~= records_suffix(cs, 0));
    lemma_parse_records(b, m, 0, 2);
    assert(man_view(m).take(0) =~= Seq::<(Seq<u8>, Seq<Seq<u8>>)>::empty());
}

} // verus!
