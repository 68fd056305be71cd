use std::io::Write;

use elan_dist::archive::PackageFormat;
use elan_dist::component::{ComponentPayload, Components};
use elan_dist::manifest::manifest_path_vec;
use elan_dist::dist::{choose_download_url, discover_download_url, TargetTriple};
use elan_dist::errors::Error;
use elan_dist::manifest::Manifest;
use elan_dist::manifestation::Manifestation;
use elan_dist::paths::{is_clean_path, take_first_seg};
use elan_dist::prefix::{FileEntry, InstallPrefix};
use elan_dist::transaction::Transaction;

fn v(s: &str) -> Vec<u8> {
    s.as_bytes().to_vec()
}

/// Build an uncompressed tar stream with the tar crate.
fn tar_bytes(entries: &[(&str, &[u8])]) -> Vec<u8> {
    let mut b = tar::Builder::new(Vec::new());
    for (name, data) in entries {
        let mut h = tar::Header::new_gnu();
        h.set_size(data.len() as u64);
        h.set_path(name).unwrap();
        h.set_mode(0o644);
        h.set_cksum();
        b.append(&h, *data).unwrap();
    }
    b.into_inner().unwrap()
}

/// Gzip a byte stream with flate2.
fn gz(data: &[u8]) -> Vec<u8> {
    let mut e = flate2::write::GzEncoder::new(Vec::new(), flate2::Compression::default());
    e.write_all(data).unwrap();
    e.finish().unwrap()
}

fn targz(entries: &[(&str, &[u8])]) -> Vec<u8> {
    gz(&tar_bytes(entries))
}

/// Build a zip archive with the zip crate.
fn zip_bytes(entries: &[(&str, &[u8])], stored: bool) -> Vec<u8> {
    let cur = std::io::Cursor::new(Vec::new());
    let mut w = zip::ZipWriter::new(cur);
    let method = if stored {
        zip::CompressionMethod::Stored
    } else {
        zip::CompressionMethod::Deflated
    };
    let opts = zip::write::SimpleFileOptions::default().compression_method(method);
    for (name, data) in entries {
        w.start_file(*name, opts).unwrap();
        w.write_all(data).unwrap();
    }
    w.finish().unwrap().into_inner()
}

/// A hand-written tar stream, for entries the tar crate refuses to write.
fn raw_tar(entries: &[(&[u8], &[u8])]) -> Vec<u8> {
    let mut out = Vec::new();
    for (name, data) in entries {
        let mut h = vec![0u8; 512];
        h[..name.len()].copy_from_slice(name);
        let size = format!("{:011o}\0", data.len());
        h[124..136].copy_from_slice(size.as_bytes());
        h[156] = b'0';
        out.extend_from_slice(&h);
        out.extend_from_slice(data);
        let pad = (512 - data.len() % 512) % 512;
        out.extend(std::iter::repeat(0u8).take(pad));
    }
    out.extend(std::iter::repeat(0u8).take(1024));
    out
}

fn open_on(prefix: &InstallPrefix) -> Manifestation {
    let triple = TargetTriple::new(v("x86_64-unknown-linux-gnu"));
    Manifestation::open(prefix, triple).unwrap()
}

fn sorted_files(p: &InstallPrefix) -> Vec<(Vec<u8>, Vec<u8>)> {
    let mut all: Vec<(Vec<u8>, Vec<u8>)> = p
        .files
        .iter()
        .map(|f| (f.path.clone(), f.data.clone()))
        .collect();
    all.sort();
    all
}

#[test]
fn end_to_end_two_components_then_one() {
    let mut prefix = InstallPrefix::new();
    let mut m = open_on(&prefix);
    let a = targz(&[
        ("core/bin/lean", b"lean binary"),
        ("core/lib/init.lean", b"init"),
        ("docs/readme.md", b"docs here"),
    ]);
    m.update(&mut prefix, &a, PackageFormat::TarGz).unwrap();
    let names = m.installation.list();
    assert_eq!(names, vec![v("core"), v("docs")]);
    assert_eq!(prefix.get(&v("core/bin/lean")).unwrap(), &v("lean binary"));
    assert_eq!(prefix.get(&v("docs/readme.md")).unwrap(), &v("docs here"));

    let b = targz(&[("core/bin/lean", b"lean v2")]);
    m.update(&mut prefix, &b, PackageFormat::TarGz).unwrap();
    assert_eq!(m.installation.list(), vec![v("core")]);
    assert_eq!(prefix.get(&v("core/bin/lean")).unwrap(), &v("lean v2"));
    assert!(prefix.get(&v("docs/readme.md")).is_none());
    assert!(prefix.get(&v("core/lib/init.lean")).is_none());
    // exactly the one file plus the manifest file remain
    assert_eq!(prefix.file_count(), 2);
}

#[test]
fn format_parity_targz_zip_stored_and_deflated() {
    let entries: &[(&str, &[u8])] = &[
        ("core/bin/lean", b"the same lean binary"),
        ("docs/index.html", b"<html>docs</html>"),
    ];
    let mut p1 = InstallPrefix::new();
    let mut p2 = InstallPrefix::new();
    let mut p3 = InstallPrefix::new();
    let mut m1 = open_on(&p1);
    let mut m2 = open_on(&p2);
    let mut m3 = open_on(&p3);
    m1.update(&mut p1, &targz(entries), PackageFormat::TarGz).unwrap();
    m2.update(&mut p2, &zip_bytes(entries, true), PackageFormat::Zip).unwrap();
    m3.update(&mut p3, &zip_bytes(entries, false), PackageFormat::Zip).unwrap();
    assert_eq!(sorted_files(&p1), sorted_files(&p2));
    assert_eq!(sorted_files(&p1), sorted_files(&p3));
    assert_eq!(m1.installation.list(), m2.installation.list());
    assert_eq!(m1.installation.list(), m3.installation.list());
}

#[test]
fn path_escape_parent_dir_rejected_and_prefix_untouched() {
    let mut prefix = InstallPrefix::new();
    let mut m = open_on(&prefix);
    m.update(&mut prefix, &targz(&[("core/ok", b"x")]), PackageFormat::TarGz)
        .unwrap();
    let before = sorted_files(&prefix);
    let evil = gz(&raw_tar(&[(b"../../etc/passwd", b"root:x")]));
    let r = m.update(&mut prefix, &evil, PackageFormat::TarGz);
    assert_eq!(r, Err(Error::PathEscape));
    assert_eq!(sorted_files(&prefix), before);
    assert_eq!(m.installation.list(), vec![v("core")]);
}

#[test]
fn path_escape_absolute_path_rejected() {
    let mut prefix = InstallPrefix::new();
    let mut m = open_on(&prefix);
    let evil = gz(&raw_tar(&[(b"/etc/passwd", b"root:x")]));
    assert_eq!(
        m.update(&mut prefix, &evil, PackageFormat::TarGz),
        Err(Error::PathEscape)
    );
    assert_eq!(prefix.file_count(), 0);
}

#[test]
fn atomicity_rollback_restores_prefix_exactly() {
    let mut prefix = InstallPrefix::new();
    let mut m = open_on(&prefix);
    m.update(
        &mut prefix,
        &targz(&[("core/bin/lean", b"v1"), ("docs/a", b"da")]),
        PackageFormat::TarGz,
    )
    .unwrap();
    let before = sorted_files(&prefix);
    let manifest_before = m.installation.manifest.serialize();

    // stage an update by hand: uninstall one component, install another,
    // overwrite a file — then hit the injected failure point and roll back
    let mut tx = Transaction::new(&prefix);
    let mut c = Components {
        manifest: Manifest::parse(prefix.get(&manifest_path_vec()).unwrap()).unwrap(),
    };
    c.uninstall(&v("docs"), &mut prefix, &mut tx);
    let comp = ComponentPayload {
        name: v("extra"),
        files: vec![
            FileEntry { path: v("extra/one"), data: v("1") },
            FileEntry { path: v("core/bin/lean"), data: v("overwritten") },
        ],
    };
    c.install(&comp, None, &mut prefix, &mut tx).unwrap();
    assert!(prefix.get(&v("docs/a")).is_none());
    assert_eq!(prefix.get(&v("core/bin/lean")).unwrap(), &v("overwritten"));

    tx.rollback(&mut prefix);
    assert_eq!(sorted_files(&prefix), before);
    assert_eq!(
        prefix.get(&manifest_path_vec()).unwrap(),
        &manifest_before
    );
}

#[test]
fn idempotent_uninstall_with_externally_deleted_files() {
    let mut prefix = InstallPrefix::new();
    let mut m = open_on(&prefix);
    m.update(
        &mut prefix,
        &targz(&[("core/bin/lean", b"v1"), ("core/lib/a", b"a")]),
        PackageFormat::TarGz,
    )
    .unwrap();
    // someone removed the files behind the registry's back
    prefix.del(&v("core/bin/lean"));
    prefix.del(&v("core/lib/a"));
    let mut tx = Transaction::new(&prefix);
    m.installation.uninstall(&v("core"), &mut prefix, &mut tx);
    tx.commit();
    assert_eq!(m.installation.list(), Vec::<Vec<u8>>::new());
}

#[test]
fn round_trip_install_uninstall_leaves_no_orphans() {
    let mut prefix = InstallPrefix::new();
    prefix.put(v("unrelated.txt"), v("keep me"));
    let mut c = Components { manifest: Manifest::new() };
    let mut tx = Transaction::new(&prefix);
    let comp = ComponentPayload {
        name: v("core"),
        files: vec![
            FileEntry { path: v("core/bin/lean"), data: v("bin") },
            FileEntry { path: v("core/lib/a"), data: v("lib") },
        ],
    };
    c.install(&comp, None, &mut prefix, &mut tx).unwrap();
    c.uninstall(&v("core"), &mut prefix, &mut tx);
    tx.commit();
    assert_eq!(prefix.get(&v("unrelated.txt")).unwrap(), &v("keep me"));
    assert!(prefix.get(&v("core/bin/lean")).is_none());
    assert!(prefix.get(&v("core/lib/a")).is_none());
    // only the unrelated file and the manifest's own bookkeeping remain
    assert_eq!(prefix.file_count(), 2);
    assert_eq!(
        prefix.get(&manifest_path_vec()).unwrap(),
        &Manifest::new().serialize()
    );
}

#[test]
fn duplicate_component_refused_without_corrupting_manifest() {
    let mut prefix = InstallPrefix::new();
    let mut c = Components { manifest: Manifest::new() };
    let mut tx = Transaction::new(&prefix);
    let comp = ComponentPayload {
        name: v("core"),
        files: vec![FileEntry { path: v("core/a"), data: v("1") }],
    };
    c.install(&comp, None, &mut prefix, &mut tx).unwrap();
    let again = ComponentPayload {
        name: v("core"),
        files: vec![FileEntry { path: v("core/b"), data: v("2") }],
    };
    assert_eq!(
        c.install(&again, None, &mut prefix, &mut tx),
        Err(Error::DuplicateComponent)
    );
    tx.commit();
    assert_eq!(c.manifest.components.len(), 1);
    assert_eq!(c.manifest.components[0].paths.len(), 1);
    assert!(prefix.get(&v("core/b")).is_none());
}

#[test]
fn empty_archive_is_a_valid_noop_install() {
    let mut prefix = InstallPrefix::new();
    let mut m = open_on(&prefix);
    let empty = targz(&[]);
    m.update(&mut prefix, &empty, PackageFormat::TarGz).unwrap();
    assert_eq!(m.installation.list(), Vec::<Vec<u8>>::new());
    // only the manifest file was written
    assert_eq!(prefix.file_count(), 1);
}

#[test]
fn corrupt_archive_reports_archive_error() {
    let mut prefix = InstallPrefix::new();
    let mut m = open_on(&prefix);
    let garbage = v("this is not a gzip stream at all");
    assert_eq!(
        m.update(&mut prefix, &garbage, PackageFormat::TarGz),
        Err(Error::ArchiveError)
    );
    let garbage2 = v("PK but not really a zip file here");
    assert_eq!(
        m.update(&mut prefix, &garbage2, PackageFormat::Zip),
        Err(Error::ArchiveError)
    );
    assert_eq!(prefix.file_count(), 0);
}

#[test]
fn zip_with_data_descriptor_is_unsupported() {
    // a minimal local file header with bit 3 (data descriptor) set
    let mut z = Vec::new();
    z.extend_from_slice(&0x04034b50u32.to_le_bytes());
    z.extend_from_slice(&20u16.to_le_bytes()); // version
    z.extend_from_slice(&8u16.to_le_bytes()); // flags: bit 3
    z.extend_from_slice(&0u16.to_le_bytes()); // method
    z.extend_from_slice(&[0u8; 16]); // time, date, crc, csize, usize
    z.extend_from_slice(&1u16.to_le_bytes()); // name len
    z.extend_from_slice(&0u16.to_le_bytes()); // extra len
    z.push(b'a');
    let mut prefix = InstallPrefix::new();
    let mut m = open_on(&prefix);
    assert_eq!(
        m.update(&mut prefix, &z, PackageFormat::Zip),
        Err(Error::UnsupportedFormat)
    );
}

#[test]
fn manifest_serialize_exact_bytes() {
    let m = Manifest {
        components: vec![
            elan_dist::manifest::ComponentRecord {
                name: v("core"),
                paths: vec![v("core/bin/lean"), v("core/lib/a")],
            },
            elan_dist::manifest::ComponentRecord { name: v("docs"), paths: vec![v("docs/b")] },
        ],
    };
    assert_eq!(
        m.serialize(),
        v("1\nncore\npcore/bin/lean\npcore/lib/a\nndocs\npdocs/b\n")
    );
}

#[test]
fn manifest_parse_round_trip_and_errors() {
    let m = Manifest {
        components: vec![elan_dist::manifest::ComponentRecord {
            name: v("core"),
            paths: vec![v("core/bin/lean")],
        }],
    };
    let parsed = Manifest::parse(&m.serialize()).unwrap();
    assert_eq!(parsed.components.len(), 1);
    assert_eq!(parsed.components[0].name, v("core"));
    assert_eq!(parsed.components[0].paths, vec![v("core/bin/lean")]);

    assert!(matches!(Manifest::parse(&v("2\n")), Err(Error::BadInstallerVersion)));
    assert!(matches!(Manifest::parse(&v("")), Err(Error::CorruptManifest)));
    assert!(matches!(Manifest::parse(&v("1\nxjunk\n")), Err(Error::CorruptManifest)));
    assert!(matches!(
        Manifest::parse(&v("1\npno-component-yet\n")),
        Err(Error::CorruptManifest)
    ));
    assert!(matches!(
        Manifest::parse(&v("1\nncore\nncore\n")),
        Err(Error::CorruptManifest)
    ));
    // a record may not claim the registry's own manifest file
    assert!(matches!(
        Manifest::parse(&v("1\nncore\npmanifest\n")),
        Err(Error::CorruptManifest)
    ));
}

#[test]
fn open_rejects_future_manifest_version() {
    let mut prefix = InstallPrefix::new();
    prefix.put(manifest_path_vec(), v("9\n"));
    let triple = TargetTriple::new(v("x86_64-unknown-linux-gnu"));
    match Manifestation::open(&prefix, triple) {
        Err(Error::BadInstallerVersion) => {},
        other => panic!("expected BadInstallerVersion, got {:?}", other.is_ok()),
    }
}

#[test]
fn open_missing_manifest_means_nothing_installed() {
    let prefix = InstallPrefix::new();
    let m = open_on(&prefix);
    assert_eq!(m.installation.list(), Vec::<Vec<u8>>::new());
}

#[test]
fn clean_path_rules() {
    assert!(is_clean_path(&v("core/bin/lean")));
    assert!(is_clean_path(&v("a")));
    assert!(!is_clean_path(&v("")));
    assert!(!is_clean_path(&v("/etc/passwd")));
    assert!(!is_clean_path(&v("../../etc/passwd")));
    assert!(!is_clean_path(&v("a/../b")));
    assert!(!is_clean_path(&v("a//b")));
    assert!(!is_clean_path(&v("a/./b")));
    assert!(!is_clean_path(&v("a/b/")));
    assert!(!is_clean_path(&v("a\nb")));
    assert!(is_clean_path(&v("a.b/c.d")));
    assert!(is_clean_path(&v(".hidden/x")));
}

#[test]
fn first_segment_names_the_component() {
    assert_eq!(take_first_seg(&v("core/bin/lean")), v("core"));
    assert_eq!(take_first_seg(&v("docs")), v("docs"));
}

#[test]
fn choose_url_picks_first_matching_link() {
    let links = vec![
        v("/leanprover/lean/releases/download/v1/lean-darwin.zip"),
        v("/leanprover/lean/releases/download/v1/lean-linux.tar.gz"),
        v("/leanprover/lean/releases/download/v1/lean-linux-debug.tar.gz"),
    ];
    let triple = TargetTriple::new(v("x86_64-unknown-linux-gnu"));
    assert_eq!(
        choose_download_url(&links, &triple).unwrap(),
        v("https://github.com//leanprover/lean/releases/download/v1/lean-linux.tar.gz")
    );
    let unknown = TargetTriple::new(v("riscv64-unknown-none"));
    assert_eq!(
        choose_download_url(&links, &unknown),
        Err(Error::NoBinaryForPlatform)
    );
    let windows = TargetTriple::new(v("x86_64-pc-windows-msvc"));
    assert_eq!(
        choose_download_url(&links, &windows),
        Err(Error::NoBinaryForPlatform)
    );
}

#[test]
fn discover_url_scrapes_release_page() {
    let html = v(
        "<html><a href=\"/leanprover/lean/releases/download/v4/lean-darwin.zip\">mac</a>\
         <a href=\"/leanprover/lean/releases/download/v4/lean-linux.tar.gz\">linux</a></html>",
    );
    let triple = TargetTriple::new(v("x86_64-unknown-linux-gnu"));
    assert_eq!(
        discover_download_url(&html, &triple).unwrap(),
        v("https://github.com//leanprover/lean/releases/download/v4/lean-linux.tar.gz")
    );
    let nothing = v("<html>no links at all</html>");
    assert_eq!(
        discover_download_url(&nothing, &triple),
        Err(Error::NoBinaryForPlatform)
    );
}

#[test]
fn tar_directories_and_unknown_entries_are_skipped() {
    // a directory entry (typeflag 5) followed by a regular file
    let mut out = Vec::new();
    let mut h = vec![0u8; 512];
    h[..5].copy_from_slice(b"core/");
    h[124..136].copy_from_slice(b"00000000000\0");
    h[156] = b'5';
    out.extend_from_slice(&h);
    let mut h2 = vec![0u8; 512];
    h2[..6].copy_from_slice(b"core/a");
    h2[124..136].copy_from_slice(b"00000000003\0");
    h2[156] = b'0';
    out.extend_from_slice(&h2);
    out.extend_from_slice(b"abc");
    out.extend(std::iter::repeat(0u8).take(509));
    out.extend(std::iter::repeat(0u8).take(1024));
    let mut prefix = InstallPrefix::new();
    let mut m = open_on(&prefix);
    m.update(&mut prefix, &gz(&out), PackageFormat::TarGz).unwrap();
    assert_eq!(m.installation.list(), vec![v("core")]);
    assert_eq!(prefix.get(&v("core/a")).unwrap(), &v("abc"));
}

#[test]
fn install_with_rename_records_the_new_name() {
    let mut prefix = InstallPrefix::new();
    let mut c = Components { manifest: Manifest::new() };
    let mut tx = Transaction::new(&prefix);
    let comp = ComponentPayload {
        name: v("core"),
        files: vec![FileEntry { path: v("core/a"), data: v("1") }],
    };
    c.install(&comp, Some(&v("lean-core")), &mut prefix, &mut tx)
        .unwrap();
    tx.commit();
    assert_eq!(c.manifest.components[0].name, v("lean-core"));
    assert_eq!(prefix.get(&v("core/a")).unwrap(), &v("1"));
}
