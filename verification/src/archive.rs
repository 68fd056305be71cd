//! Archive decoding: gzip-compressed tar and zip containers, decoded into
//! installable components.
//!
//! The container formats are parsed here and specified exactly; only the
//! two decompression primitives are taken from `flate2`, each named by an
//! uninterpreted function of its input bytes.  Every entry path is checked
//! to stay inside the prefix before a component is handed to the registry.

use vstd::prelude::*;
use crate::component::{files_view, ComponentPayload};
use crate::manifest::manifest_path;
use crate::errors::Error;
use crate::manifest::copy_range;
use crate::paths::{clean_path, first_seg, SLASH};
use crate::prefix::FileEntry;

verus! {

/// What gzip decompression yields on a byte stream: the decoded bytes,
/// or `None` when the stream is not a valid gzip member.
pub uninterp spec fn gunzip_res(b: Seq<u8>) -> Option<Seq<u8>>;

/// Relies on flate2's `read::GzDecoder`: both whether a stream decodes
/// and what it decodes to are functions of the input bytes alone; a
/// corrupt stream fails the read with an error, never a panic.
#[verifier::external_body]
fn gunzip(data: &Vec<u8>) -> (r: Option<Vec<u8>>)
    ensures
        match r {
            Some(v) => gunzip_res(data@) == Some(v@),
            None => gunzip_res(data@) is None,
        },
{
    let mut out: Vec<u8> = Vec::new();
    let mut dec = flate2::read::GzDecoder::new(data.as_slice());
    match std::io::Read::read_to_end(&mut dec, &mut out) {
        Ok(_) => Some(out),
        Err(_) => None,
    }
}

/// What raw-deflate decompression yields on a byte stream: the decoded
/// bytes, or `None` when the stream is not valid deflate.
pub uninterp spec fn inflate_res(b: Seq<u8>) -> Option<Seq<u8>>;

/// Relies on flate2's `read::DeflateDecoder`: both whether a stream
/// decodes and what it decodes to are functions of the input bytes
/// alone; a corrupt stream fails the read with an error, never a panic.
#[verifier::external_body]
fn inflate(data: &Vec<u8>) -> (r: Option<Vec<u8>>)
    ensures
        match r {
            Some(v) => inflate_res(data@) == Some(v@),
            None => inflate_res(data@) is None,
        },
{
    let mut out: Vec<u8> = Vec::new();
    let mut dec = flate2::read::DeflateDecoder::new(data.as_slice());
    match std::io::Read::read_to_end(&mut dec, &mut out) {
        Ok(_) => Some(out),
        Err(_) => None,
    }
}

/// Which container format the caller selected.
#[derive(Clone, Copy, Debug, PartialEq, Eq, Structural)]
pub enum PackageFormat {
    /// A gzip-compressed tar archive.
    TarGz,
    /// A zip archive.
    Zip,
}

/// The NUL-terminated string in `b[i..]`, at most `max` bytes.
pub open spec fn cstr(b: Seq<u8>, i: int, max: int) -> Seq<u8>
    decreases max,
{
    if max <= 0 || i < 0 || i >= b.len() || b[i] == 0 {
        Seq::empty()
    } else {
        seq![b[i]] + cstr(b, i + 1, max - 1)
    }
}

/// Largest accumulator the octal reader accepts before giving up.
pub const OCTAL_CAP: u64 = 0x0FFFFFFFFFFFFFFF;

/// The octal number in `b[i..end)`, accumulated onto `acc`: digits until a
/// NUL or space terminator; `-1` on any other byte or overflow.
pub open spec fn octal(b: Seq<u8>, i: int, end: int, acc: int) -> int
    decreases end - i,
{
    if i < 0 || i >= end || end > b.len() {
        acc
    } else if 48 <= b[i] <= 55 {
        if acc > OCTAL_CAP {
            -1
        } else {
            octal(b, i + 1, end, acc * 8 + (b[i] - 48))
        }
    } else if b[i] == 0 || b[i] == 32 {
        acc
    } else {
        -1
    }
}

/// All 512 bytes of the block at `p` are zero.
pub open spec fn zero_block(b: Seq<u8>, p: int) -> bool {
    forall|j: int| p <= j < p + 512 ==> b[j] == 0
}

/// The `(path, content)` entries of a tar stream from offset `p` on.
/// Regular-file entries are kept; directories and other entry kinds are
/// skipped past.  `None` means the stream is corrupt.
pub open spec fn tar_entries(b: Seq<u8>, p: int) -> Option<Seq<(Seq<u8>, Seq<u8>)>>
    decreases b.len() - p,
{
    if p < 0 {
        None
    } else if p == b.len() || (p + 512 <= b.len() && zero_block(b, p)) {
        Some(Seq::empty())
    } else if p + 512 > b.len() {
        None
    } else {
        let size = octal(b, p + 124, p + 136, 0);
        if size < 0 {
            None
        } else {
            let blocks = (size + 511) / 512;
            let next = p + 512 + 512 * blocks;
            if next > b.len() {
                None
            } else {
                match tar_entries(b, next) {
                    None => None,
                    Some(rest) => {
                        if b[p + 156] == 48 || b[p + 156] == 0 {
                            Some(
                                seq![(cstr(b, p, 100), b.subrange(p + 512, p + 512 + size))]
                                    + rest,
                            )
                        } else {
                            Some(rest)
                        }
                    },
                }
            }
        }
    }
}

/// The little-endian 16-bit value at `i`.
pub open spec fn le16(b: Seq<u8>, i: int) -> int {
    b[i] + 256 * b[i + 1]
}

/// The little-endian 32-bit value at `i`.
pub open spec fn le32(b: Seq<u8>, i: int) -> int {
    b[i] + 256 * b[i + 1] + 65536 * b[i + 2] + 16777216 * b[i + 3]
}

/// The `(path, content)` entries of a zip stream from offset `p` on.
/// Stored and deflated entries are kept, directory entries are skipped;
/// the central directory ends the walk.  `None` means the stream is
/// corrupt or uses an unsupported feature.
pub open spec fn zip_entries(b: Seq<u8>, p: int) -> Option<Seq<(Seq<u8>, Seq<u8>)>>
    decreases b.len() - p,
{
    if p < 0 || p + 4 > b.len() {
        None
    } else if le32(b, p) == 0x02014b50 || le32(b, p) == 0x06054b50 {
        Some(Seq::empty())
    } else if le32(b, p) != 0x04034b50 {
        None
    } else if p + 30 > b.len() {
        None
    } else {
        let flags = le16(b, p + 6);
        let method = le16(b, p + 8);
        let csize = le32(b, p + 18);
        let nlen = le16(b, p + 26);
        let elen = le16(b, p + 28);
        if (flags / 8) % 2 == 1 {
            None
        } else {
            let nstart = p + 30;
            let dstart = nstart + nlen + elen;
            let next = dstart + csize;
            if next > b.len() {
                None
            } else {
                match zip_entries(b, next) {
                    None => None,
                    Some(rest) => {
                        let name = b.subrange(nstart, nstart + nlen);
                        if nlen > 0 && b[nstart + nlen - 1] == SLASH {
                            Some(rest)
                        } else if method == 0 {
                            Some(seq![(name, b.subrange(dstart, next))] + rest)
                        } else if method == 8 {
                            match inflate_res(b.subrange(dstart, next)) {
                                Some(d) => Some(seq![(name, d)] + rest),
                                None => None,
                            }
                        } else {
                            None
                        }
                    },
                }
            }
        }
    }
}

/// Read the NUL-terminated name of at most 100 bytes at offset `p`.
fn read_cstr(data: &Vec<u8>, p: usize, max: usize) -> (r: Vec<u8>)
    requires
        p + max <= data@.len(),
    ensures
        r@ == cstr(data@, p as int, max as int),
{
    let nn = data.len();
    let mut r: Vec<u8> = Vec::new();
    let mut j: usize = 0;
    while j < max && data[p + j] != 0
        invariant
            nn == data@.len(),
            p + max <= data@.len(),
            0 <= j <= max,
            r@.len() == j,
            cstr(data@, p as int, max as int) == r@ + cstr(data@, p + j, max - j),
            forall|t: int| #![trigger r@[t]] 0 <= t < j ==> r@[t] == data@[p + t],
        decreases max - j,
    {
        let ghost pre = r@;
        r.push(data[p + j]);
        assert(pre + cstr(data@, p + j, max - j) =~= r@ + cstr(data@, p + j + 1, max - j - 1));
        j = j + 1;
    }
    assert(cstr(data@, p + j, max - j) =~= Seq::empty());
    assert(r@ =~= r@ + Seq::empty());
    r
}

/// Read the octal field `data[i..end)`.
fn read_octal(data: &Vec<u8>, i: usize, end: usize) -> (r: i64)
    requires
        i <= end <= data@.len(),
        end - i <= 32,
    ensures
        r == octal(data@, i as int, end as int, 0),
        r >= 0 ==> r <= 8 * OCTAL_CAP + 7,
{
    let nn = data.len();
    let mut acc: u64 = 0;
    let mut j = i;
    while j < end
        invariant
            nn == data@.len(),
            i <= j <= end <= data@.len(),
            acc <= 8 * OCTAL_CAP + 7,
            octal(data@, i as int, end as int, 0) == octal(data@, j as int, end as int, acc as int),
        decreases end - j,
    {
        let c = data[j];
        if 48 <= c && c <= 55 {
            if acc > OCTAL_CAP {
                return -1;
            }
            acc = acc * 8 + ((c - 48) as u64);
        } else if c == 0 || c == 32 {
            return acc as i64;
        } else {
            return -1;
        }
        j = j + 1;
    }
    acc as i64
}

/// Is the 512-byte block at `p` all zero?
fn is_zero_block(data: &Vec<u8>, p: usize) -> (r: bool)
    requires
        p + 512 <= data@.len(),
    ensures
        r == zero_block(data@, p as int),
{
    let nn = data.len();
    let mut j: usize = 0;
    while j < 512
        invariant
            nn == data@.len(),
            p + 512 <= data@.len(),
            0 <= j <= 512,
            forall|t: int| p <= t < p + j ==> data@[t] == 0,
        decreases 512 - j,
    {
        if data[p + j] != 0 {
            assert(!zero_block(data@, p as int));
            return false;
        }
        j = j + 1;
    }
    true
}

/// Parse an uncompressed tar stream into its file entries.
pub fn parse_tar(data: &Vec<u8>) -> (r: Result<Vec<FileEntry>, Error>)
    ensures
        match r {
            Ok(v) => tar_entries(data@, 0)
                == Some::<Seq<(Seq<u8>, Seq<u8>)>>(files_view(v@)),
            Err(e) => e == Error::ArchiveError
                && tar_entries(data@, 0) is None,
        },
{
    let n = data.len();
    let mut out: Vec<FileEntry> = Vec::new();
    let mut p: usize = 0;
    loop
        invariant
            0 <= p <= n,
            n == data@.len(),
            tar_entries(data@, 0) == match tar_entries(data@, p as int) {
                Some(rest) => Some(files_view(out@) + rest),
                None => None::<Seq<(Seq<u8>, Seq<u8>)>>,
            },
        ensures
            tar_entries(data@, 0) == Some::<Seq<(Seq<u8>, Seq<u8>)>>(files_view(out@)),
        decreases n - p,
    {
        if p == n {
            assert(files_view(out@) =~= files_view(out@) + Seq::empty());
            break;
        }
        if n - p < 512 {
            return Err(Error::ArchiveError);
        }
        if is_zero_block(data, p) {
            assert(files_view(out@) =~= files_view(out@) + Seq::empty());
            break;
        }
        let size_i = read_octal(data, p + 124, p + 136);
        if size_i < 0 {
            return Err(Error::ArchiveError);
        }
        let avail = n - p - 512;
        if (size_i as u64) > (avail as u64) {
            proof {
                let ssize = octal(data@, p + 124, p + 136, 0);
                assert(512 * ((ssize + 511) / 512) >= ssize) by (nonlinear_arith)
                    requires ssize >= 0;
                assert(p + 512 + 512 * ((ssize + 511) / 512) > n);
            }
            return Err(Error::ArchiveError);
        }
        let size = size_i as usize;
        let blocks = (size + 511) / 512;
        proof {
            assert(512 * ((size as int + 511) / 512) <= size as int + 511) by (nonlinear_arith);
        }
        let pad = 512 * blocks;
        if pad > avail {
            assert(p + 512 + 512 * ((octal(data@, p + 124, p + 136, 0) + 511) / 512) > n);
            return Err(Error::ArchiveError);
        }
        let next = p + 512 + pad;
        let ghost pre = out@;
        let tf = data[p + 156];
        if tf == 48 || tf == 0 {
            let name = read_cstr(data, p, 100);
            let content = copy_range(data, p + 512, p + 512 + size);
            out.push(FileEntry { path: name, data: content });
            proof {
                let e = (cstr(data@, p as int, 100), data@.subrange(p as int + 512, p + 512 + size));
                assert(files_view(out@) =~= files_view(pre).push(e));
                assert(tar_entries(data@, next as int) matches Some(rest)
                    ==> files_view(pre) + (seq![e] + rest) =~= files_view(out@) + rest);
            }
        }
        p = next;
    }
    Ok(out)
}

/// Read a little-endian 16-bit field.
fn read_le16(data: &Vec<u8>, i: usize) -> (r: u32)
    requires
        i + 2 <= data@.len(),
    ensures
        r == le16(data@, i as int),
        r <= 0xFFFF,
{
    let _nn = data.len();
    (data[i] as u32) + 256 * (data[i + 1] as u32)
}

/// Read a little-endian 32-bit field.
fn read_le32(data: &Vec<u8>, i: usize) -> (r: u64)
    requires
        i + 4 <= data@.len(),
    ensures
        r == le32(data@, i as int),
        r <= 0xFFFFFFFF,
{
    let _nn = data.len();
    (data[i] as u64) + 256 * (data[i + 1] as u64) + 65536 * (data[i + 2] as u64)
        + 16777216 * (data[i + 3] as u64)
}

/// Parse a zip stream into its file entries, inflating deflated entries.
pub fn parse_zip(data: &Vec<u8>) -> (r: Result<Vec<FileEntry>, Error>)
    ensures
        match r {
            Ok(v) => zip_entries(data@, 0)
                == Some::<Seq<(Seq<u8>, Seq<u8>)>>(files_view(v@)),
            Err(e) => zip_entries(data@, 0) is None && (e == Error::ArchiveError
                || e == Error::UnsupportedFormat),
        },
{
    let n = data.len();
    let mut out: Vec<FileEntry> = Vec::new();
    let mut p: usize = 0;
    loop
        invariant
            0 <= p <= n,
            n == data@.len(),
            zip_link(data@, p as int, files_view(out@)),
        ensures
            zip_entries(data@, 0) == Some::<Seq<(Seq<u8>, Seq<u8>)>>(files_view(out@)),
        decreases n - p,
    {
        if n - p < 4 {
            return Err(Error::ArchiveError);
        }
        let sig = read_le32(data, p);
        if sig == 0x02014b50 || sig == 0x06054b50 {
            assert(files_view(out@) =~= files_view(out@) + Seq::empty());
            break;
        }
        if sig != 0x04034b50 {
            return Err(Error::ArchiveError);
        }
        if n - p < 30 {
            return Err(Error::ArchiveError);
        }
        let flags = read_le16(data, p + 6);
        let method = read_le16(data, p + 8);
        let csize = read_le32(data, p + 18);
        let nlen = read_le16(data, p + 26);
        let elen = read_le16(data, p + 28);
        if (flags / 8) % 2 == 1 {
            return Err(Error::UnsupportedFormat);
        }
        let nstart = p + 30;
        let nl = nlen as usize;
        let el = elen as usize;
        if nl > n - nstart {
            return Err(Error::ArchiveError);
        }
        let dstart0 = nstart + nl;
        if el > n - dstart0 {
            return Err(Error::ArchiveError);
        }
        let dstart = dstart0 + el;
        if csize > (n - dstart) as u64 {
            return Err(Error::ArchiveError);
        }
        let next = dstart + (csize as usize);
        let ghost pre = out@;
        if nlen > 0 && data[nstart + (nlen as usize) - 1] == SLASH {
            p = next;
            continue;
        }
        let name = copy_range(data, nstart, nstart + (nlen as usize));
        if method == 0 {
            let content = copy_range(data, dstart, next);
            out.push(FileEntry { path: name, data: content });
            proof {
                let e = (data@.subrange(nstart as int, nstart + le16(data@, p + 26)),
                    data@.subrange(dstart as int, next as int));
                assert(files_view(out@) =~= files_view(pre).push(e));
                assert(zip_entries(data@, next as int) matches Some(rest)
                    ==> files_view(pre) + (seq![e] + rest) =~= files_view(out@) + rest);
            }
        } else if method == 8 {
            let comp = copy_range(data, dstart, next);
            let content = match inflate(&comp) {
                Some(c) => c,
                None => {
                    proof {
                        assert(inflate_res(data@.subrange(dstart as int, next as int)) is None);
                        assert(zip_entries(data@, p as int) is None);
                    }
                    return Err(Error::ArchiveError);
                },
            };
            let ghost cv = content@;
            proof {
                assert(inflate_res(data@.subrange(dstart as int, next as int)) == Some(cv));
            }
            out.push(FileEntry { path: name, data: content });
            proof {
                let e = (data@.subrange(nstart as int, nstart + le16(data@, p + 26)), cv);
                assert(files_view(out@) =~= files_view(pre).push(e));
                assert(zip_entries(data@, next as int) matches Some(rest)
                    ==> files_view(pre) + (seq![e] + rest) =~= files_view(out@) + rest);
            }
        } else {
            return Err(Error::UnsupportedFormat);
        }
        p = next;
    }
    Ok(out)
}

/// The walk from `p` with `done` already emitted reaches the same total as
/// the walk from the start.
pub open spec fn zip_link(b: Seq<u8>, p: int, done: Seq<(Seq<u8>, Seq<u8>)>) -> bool {
    zip_entries(b, 0) == match zip_entries(b, p) {
        Some(rest) => Some(done + rest),
        None => None::<Seq<(Seq<u8>, Seq<u8>)>>,
    }
}


/// The mathematical value of one decoded component.
pub open spec fn payload_view(c: ComponentPayload) -> (Seq<u8>, Seq<(Seq<u8>, Seq<u8>)>) {
    (c.name@, files_view(c.files@))
}

/// The mathematical value of a decoded component list.
pub open spec fn payloads_view(cs: Seq<ComponentPayload>) -> Seq<
    (Seq<u8>, Seq<(Seq<u8>, Seq<u8>)>),
> {
    Seq::new(cs.len(), |i: int| payload_view(cs[i]))
}

/// Some grouped component carries the name `nm`.
pub open spec fn pv_has(acc: Seq<(Seq<u8>, Seq<(Seq<u8>, Seq<u8>)>)>, nm: Seq<u8>) -> bool {
    exists|i: int| 0 <= i < acc.len() && acc[i].0 == nm
}

/// The index of the grouped component named `nm`.
pub open spec fn pv_index(acc: Seq<(Seq<u8>, Seq<(Seq<u8>, Seq<u8>)>)>, nm: Seq<u8>) -> int {
    choose|i: int| 0 <= i < acc.len() && acc[i].0 == nm
}

/// Group one archive entry under the component its first path segment
/// names: append to that component, or open a new one.
pub open spec fn add_entry(
    acc: Seq<(Seq<u8>, Seq<(Seq<u8>, Seq<u8>)>)>,
    e: (Seq<u8>, Seq<u8>),
) -> Seq<(Seq<u8>, Seq<(Seq<u8>, Seq<u8>)>)> {
    let nm = first_seg(e.0);
    if pv_has(acc, nm) {
        let k = pv_index(acc, nm);
        acc.update(k, (acc[k].0, acc[k].1.push(e)))
    } else {
        acc.push((nm, seq![e]))
    }
}

/// The components of the first `i` archive entries, in order of first
/// appearance.
pub open spec fn group_upto(es: Seq<(Seq<u8>, Seq<u8>)>, i: int) -> Seq<
    (Seq<u8>, Seq<(Seq<u8>, Seq<u8>)>),
>
    decreases i,
{
    if i <= 0 {
        Seq::empty()
    } else {
        add_entry(group_upto(es, i - 1), es[i - 1])
    }
}

/// Every entry path is clean and off the registry\'s manifest file.
pub open spec fn entries_ok(es: Seq<(Seq<u8>, Seq<u8>)>) -> bool {
    forall|j: int| #![trigger es[j]]
        0 <= j < es.len() ==> clean_path(es[j].0) && es[j].0 != manifest_path()
}

/// Group raw archive entries into installable components.  Any entry
/// whose path could escape the prefix, or would overwrite the manifest
/// file, fails the whole decode with `PathEscape`.
pub fn package_from_raw(entries: &Vec<FileEntry>) -> (r: Result<Vec<ComponentPayload>, Error>)
    ensures
        match r {
            Ok(v) => {
                &&& entries_ok(files_view(entries@))
                &&& payloads_view(v@) == group_upto(
                    files_view(entries@),
                    entries@.len() as int,
                )
                &&& forall|k: int| #![trigger v@[k]] 0 <= k < v@.len() ==> v@[k].wf()
                &&& forall|a: int, b: int|
                    0 <= a < b < v@.len() ==> v@[a].name@ != v@[b].name@
            },
            Err(e) => e == Error::PathEscape && !entries_ok(files_view(entries@)),
        },
{
    let ghost ev = files_view(entries@);
    let n = entries.len();
    let mp = crate::manifest::manifest_path_vec();
    let mut j: usize = 0;
    while j < n
        invariant
            0 <= j <= n,
            n == entries@.len(),
            mp@ == manifest_path(),
            ev == files_view(entries@),
            forall|t: int| #![trigger ev[t]]
                0 <= t < j ==> clean_path(ev[t].0) && ev[t].0 != manifest_path(),
        decreases n - j,
    {
        if !crate::paths::is_clean_path(&entries[j].path) {
            assert(!(clean_path(ev[j as int].0)));
            return Err(Error::PathEscape);
        }
        if entries[j].path == mp {
            assert(entries@[j as int].path@ =~= manifest_path());
            assert(ev[j as int].0 == manifest_path());
            return Err(Error::PathEscape);
        }
        assert(entries@[j as int].path@ != mp@);
        assert(ev[j as int].0 != manifest_path());
        j = j + 1;
    }
    assert(entries_ok(ev));
    let mut out: Vec<ComponentPayload> = Vec::new();
    let mut i: usize = 0;
    while i < n
        invariant
            0 <= i <= n,
            n == entries@.len(),
            ev == files_view(entries@),
            entries_ok(ev),
            payloads_view(out@) == group_upto(ev, i as int),
            forall|k: int| #![trigger out@[k]] 0 <= k < out@.len() ==> out@[k].wf(),
            forall|a: int, b: int| 0 <= a < b < out@.len() ==> out@[a].name@ != out@[b].name@,
        decreases n - i,
    {
        let e = &entries[i];
        let nm = crate::paths::take_first_seg(&e.path);
        proof {
            assert(ev[i as int] == (e.path@, e.data@));
            crate::paths::lemma_first_seg_clean(e.path@);
        }
        let ghost acc0 = payloads_view(out@);
        let ghost nms = first_seg(ev[i as int].0);
        assert(nm@ == nms);
        let m = out.len();
        let mut k: usize = 0;
        while k < m && !crate::dist::bytes_eq(&out[k].name, &nm)
            invariant
                0 <= k <= m,
                m == out@.len(),
                nm@ == nms,
                forall|t: int| #![trigger out@[t]] 0 <= t < k ==> out@[t].name@ != nms,
            decreases m - k,
        {
            k = k + 1;
        }
        if k < m {
            assert(out@[k as int].name@ == nms);
            proof {
                assert(acc0[k as int].0 == nms);
                assert(pv_has(acc0, nms));
                let c = pv_index(acc0, nms);
                assert(0 <= c < acc0.len() && acc0[c].0 == nms);
                if c < k as int {
                    assert(out@[c].name@ != out@[k as int].name@);
                    assert(false);
                }
                if (k as int) < c {
                    assert(out@[k as int].name@ != out@[c].name@);
                    assert(false);
                }
            }
            let ghost pre = out@;
            let mut pl = out.remove(k);
            pl.files.push(FileEntry { path: e.path.clone(), data: e.data.clone() });
            out.insert(k, pl);
            proof {
                assert(forall|t: int| 0 <= t < pre.len() && t != k as int
                    ==> out@[t] == pre[t]);
                assert(payload_view(out@[k as int])
                    =~= (acc0[k as int].0, acc0[k as int].1.push(ev[i as int])));
                assert(payloads_view(out@) =~= add_entry(acc0, ev[i as int]));
                assert(forall|a: int, b: int| 0 <= a < b < out@.len()
                    ==> out@[a].name@ != out@[b].name@) by {
                    assert(forall|t: int| 0 <= t < out@.len() ==> out@[t].name@ == pre[t].name@);
                }
            }
        } else {
            proof {
                if pv_has(acc0, nms) {
                    let c = pv_index(acc0, nms);
                    assert(out@[c].name@ == nms);
                    assert(false);
                }
            }
            let mut files: Vec<FileEntry> = Vec::new();
            files.push(FileEntry { path: e.path.clone(), data: e.data.clone() });
            let ghost pre = out@;
            out.push(ComponentPayload { name: nm, files });
            proof {
                assert(forall|t: int| 0 <= t < pre.len() ==> out@[t] == pre[t]);
                assert(payload_view(out@[pre.len() as int]) =~= (nms, seq![ev[i as int]]));
                assert(payloads_view(out@) =~= add_entry(acc0, ev[i as int]));
            }
        }
        i = i + 1;
    }
    Ok(out)
}

/// The raw entries an archive denotes under the selected format.
pub open spec fn raw_entries(b: Seq<u8>, format: PackageFormat) -> Option<
    Seq<(Seq<u8>, Seq<u8>)>,
> {
    match format {
        PackageFormat::TarGz => match gunzip_res(b) {
            Some(t) => tar_entries(t, 0),
            None => None,
        },
        PackageFormat::Zip => zip_entries(b, 0),
    }
}

/// Decode a local archive into installable components under the selected
/// format: decompress and parse the container, check every path, group
/// the entries by their leading segment.
pub fn decode_package(archive: &Vec<u8>, format: PackageFormat) -> (r: Result<
    Vec<ComponentPayload>,
    Error,
>)
    ensures
        match r {
            Ok(v) => raw_entries(archive@, format) matches Some(es) && {
                &&& entries_ok(es)
                &&& payloads_view(v@) == group_upto(es, es.len() as int)
                &&& forall|k: int| #![trigger v@[k]] 0 <= k < v@.len() ==> v@[k].wf()
                &&& forall|a: int, b: int|
                    0 <= a < b < v@.len() ==> v@[a].name@ != v@[b].name@
            },
            Err(e) => e == Error::ArchiveError || e == Error::UnsupportedFormat
                || e == Error::PathEscape,
        },
        raw_entries(archive@, format) matches Some(es) ==> (r is Ok <==> entries_ok(es)),
        raw_entries(archive@, format) matches Some(es) && !entries_ok(es)
            ==> r == Err::<Vec<ComponentPayload>, Error>(Error::PathEscape),
        raw_entries(archive@, format) is None ==> r is Err,
{
    let raw = match format {
        PackageFormat::TarGz => {
            let t = match gunzip(archive) {
                Some(t) => t,
                None => {
                    return Err(Error::ArchiveError);
                },
            };
            proof {
                assert(raw_entries(archive@, format) == tar_entries(t@, 0));
            }
            match parse_tar(&t) {
                Ok(es) => es,
                Err(e) => {
                    return Err(e);
                },
            }
        },
        PackageFormat::Zip => {
            match parse_zip(archive) {
                Ok(es) => es,
                Err(e) => {
                    return Err(e);
                },
            }
        },
    };
    match package_from_raw(&raw) {
        Ok(v) => Ok(v),
        Err(e) => Err(e),
    }
}

} // verus!
