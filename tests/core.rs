use build_pacman_repo::build_order::plan_build_order;
use build_pacman_repo::custom_makepkg::MakepkgPatch;
use build_pacman_repo::database::{Database, SrcInfo};
use build_pacman_repo::file_name::{parse, render, Compression, PackageFileName};
use build_pacman_repo::outdated::outdated_packages;
use build_pacman_repo::repository::{concat_repository_options, Repository};
use build_pacman_repo::version::{compare_runs, VersionTriple};
use std::cmp::Ordering;

fn strings(items: &[&str]) -> Vec<String> {
    items.iter().map(|s| s.to_string()).collect()
}

fn info(base: &str, names: &[&str], depends: &[&str], epoch: Option<&str>, ver: &str, rel: &str, arch: &[&str]) -> SrcInfo {
    SrcInfo {
        pkgbase: base.to_string(),
        pkgnames: strings(names),
        depends: strings(depends),
        epoch: epoch.map(|e| e.to_string()),
        pkgver: ver.to_string(),
        pkgrel: rel.to_string(),
        arch: strings(arch),
    }
}

fn outdated_names(db: &Database, present: &[&str]) -> Vec<String> {
    let desired = db.package_file_base_names();
    outdated_packages(&desired, &strings(present))
        .into_iter()
        .map(|e| e.file_name)
        .collect()
}

#[test]
fn render_gives_canonical_file_name() {
    let p = PackageFileName {
        pkgname: "foo-bar".to_string(),
        epoch: Some("2".to_string()),
        pkgver: "1.2.3".to_string(),
        pkgrel: "1".to_string(),
        arch: "x86_64".to_string(),
        compression: Compression::Zst,
    };
    assert_eq!(render(&p), "foo-bar-2:1.2.3-1-x86_64.pkg.tar.zst");
}

#[test]
fn parse_splits_fields_from_the_right() {
    let p = parse("out-of-date-by-arch-1.2.3-1-i686.pkg.tar.xz").unwrap();
    assert_eq!(p.pkgname, "out-of-date-by-arch");
    assert_eq!(p.epoch, None);
    assert_eq!(p.pkgver, "1.2.3");
    assert_eq!(p.pkgrel, "1");
    assert_eq!(p.arch, "i686");
    assert_eq!(p.compression, Compression::Xz);
}

#[test]
fn parse_reads_epoch() {
    let p = parse("a-1:2.0-3-any.pkg.tar").unwrap();
    assert_eq!(p.pkgname, "a");
    assert_eq!(p.epoch, Some("1".to_string()));
    assert_eq!(p.pkgver, "2.0");
    assert_eq!(p.compression, Compression::Tar);
}

#[test]
fn parse_rejects_unrelated_files() {
    assert!(parse("repo.db").is_err());
    assert!(parse("foo-1-x86_64.pkg.tar.zst").is_err());
    assert!(parse("foo-1.0-1-x86_64.tar.zst").is_err());
    assert_eq!(parse("repo.db").unwrap_err().file_name, "repo.db");
}

#[test]
fn parse_render_round_trip() {
    for f in [
        "linux-headers-6.1.2-1-x86_64.pkg.tar.zst",
        "x-3:1.0-2-any.pkg.tar.gz",
        "y-0.1-1-aarch64.pkg.tar.bz2",
    ] {
        assert_eq!(render(&parse(f).unwrap()), f);
    }
}

#[test]
fn duplicate_name_rejected() {
    let mut db = Database::new();
    assert!(db.insert(info("a", &["x", "y"], &[], None, "1", "1", &["any"]), "a".to_string()).is_ok());
    let err = db
        .insert(info("b", &["z", "y"], &[], None, "1", "1", &["any"]), "b".to_string())
        .unwrap_err();
    assert_eq!(err.name, "y");
    assert_eq!(err.existing_base, "a");
    assert_eq!(err.new_base, "b");
    assert_eq!(db.entries().len(), 1);
    assert!(db.name_to_base(&"z".to_string()).is_none());
}

#[test]
fn reinsert_keeps_position() {
    let mut db = Database::new();
    db.insert(info("a", &["a"], &[], None, "1", "1", &["any"]), "da".to_string()).unwrap();
    db.insert(info("b", &["b"], &[], None, "1", "1", &["any"]), "db".to_string()).unwrap();
    db.insert(info("a", &["a", "a2"], &[], None, "2", "1", &["any"]), "da2".to_string()).unwrap();
    assert_eq!(db.entries().len(), 2);
    assert_eq!(db.entries()[0].info.pkgbase, "a");
    assert_eq!(db.build_directories(&"a".to_string()).unwrap(), "da2");
    assert_eq!(db.name_to_base(&"a2".to_string()).unwrap(), "a");
    assert_eq!(db.base_to_name(&"a".to_string()).unwrap(), &strings(&["a", "a2"]));
    assert_eq!(db.infos(&"a".to_string()).unwrap().pkgver, "2");
}

#[test]
fn build_order_respects_dependencies() {
    let mut db = Database::new();
    db.insert(info("app", &["app"], &["lib", "glibc"], None, "1", "1", &["any"]), "app".to_string()).unwrap();
    db.insert(info("lib", &["lib", "lib-docs"], &["core"], None, "1", "1", &["any"]), "lib".to_string()).unwrap();
    db.insert(info("core", &["core"], &[], None, "1", "1", &["any"]), "core".to_string()).unwrap();
    assert_eq!(db.dependencies(), vec![vec![1], vec![2], vec![]]);
    assert_eq!(db.build_order().unwrap(), vec![2, 1, 0]);
}

#[test]
fn build_order_fails_on_cycle() {
    let mut db = Database::new();
    db.insert(info("a", &["a"], &["b"], None, "1", "1", &["any"]), "a".to_string()).unwrap();
    db.insert(info("b", &["b"], &["a"], None, "1", "1", &["any"]), "b".to_string()).unwrap();
    db.insert(info("c", &["c"], &[], None, "1", "1", &["any"]), "c".to_string()).unwrap();
    let err = db.build_order().unwrap_err();
    assert_eq!(err.members, vec![0, 1]);
}

#[test]
fn planner_is_first_in_first_out() {
    let g = vec![vec![2], vec![], vec![], vec![1]];
    assert_eq!(plan_build_order(&g).unwrap(), vec![1, 2, 3, 0]);
}

#[test]
fn outdated_by_release() {
    let mut db = Database::new();
    db.insert(info("p", &["p"], &[], None, "1.2.3", "1", &["any"]), "p".to_string()).unwrap();
    let out = outdated_names(&db, &["p-1.2.3-2-any.pkg.tar.zst", "p-1.0.0-1-any.pkg.tar.zst", "p-1.2.3-1-any.pkg.tar.xz"]);
    assert_eq!(out, strings(&["p-1.2.3-1-any.pkg.tar.zst"]));
}

#[test]
fn outdated_by_epoch() {
    let mut db = Database::new();
    db.insert(info("e", &["e"], &[], Some("2"), "1.2.3", "1", &["any"]), "e".to_string()).unwrap();
    let out = outdated_names(&db, &["e-1:1.2.3-1-any.pkg.tar.zst", "e-1.2.3-1-any.pkg.tar.zst"]);
    assert_eq!(out, strings(&["e-2:1.2.3-1-any.pkg.tar.zst"]));
}

#[test]
fn any_architecture_gives_one_entry() {
    let mut db = Database::new();
    db.insert(info("w", &["w"], &[], None, "1", "1", &["any"]), "w".to_string()).unwrap();
    db.insert(info("s", &["s"], &[], None, "1", "1", &["i686", "x86_64"]), "s".to_string()).unwrap();
    let desired = db.package_file_base_names();
    assert_eq!(desired.len(), 3);
    let out = outdated_names(&db, &[]);
    assert_eq!(out, strings(&["w-1-1-any.pkg.tar.zst", "s-1-1-i686.pkg.tar.zst", "s-1-1-x86_64.pkg.tar.zst"]));
}

#[test]
fn up_to_date_gives_nothing() {
    let mut db = Database::new();
    db.insert(info("u", &["u"], &[], None, "1.2.3", "1", &["any"]), "u".to_string()).unwrap();
    assert!(outdated_names(&db, &["u-1.2.3-1-any.pkg.tar.zst", "repo.db"]).is_empty());
}

#[test]
fn extra_files_do_not_change_result() {
    let mut db = Database::new();
    db.insert(info("m", &["m1", "m2"], &[], None, "1", "1", &["x86_64"]), "m".to_string()).unwrap();
    let base = outdated_names(&db, &["m1-1-1-x86_64.pkg.tar.zst"]);
    let more = outdated_names(&db, &["m1-1-1-x86_64.pkg.tar.zst", "other-1-1-any.pkg.tar.zst", "repo.db"]);
    assert_eq!(base, strings(&["m2-1-1-x86_64.pkg.tar.zst"]));
    assert_eq!(base, more);
}

#[test]
fn outdated_entry_carries_identity() {
    let mut db = Database::new();
    db.insert(info("k", &["k"], &[], Some("1"), "2", "3", &["any"]), "k".to_string()).unwrap();
    let desired = db.package_file_base_names();
    let out = outdated_packages(&desired, &Vec::new());
    assert_eq!(out.len(), 1);
    assert_eq!(out[0].package.pkgname, "k");
    assert_eq!(out[0].package.epoch, Some("1".to_string()));
    assert_eq!(out[0].package.arch, "any");
}

fn digest(hex: &str) -> [u8; 20] {
    let mut out = [0u8; 20];
    for i in 0..20 {
        out[i] = u8::from_str_radix(&hex[2 * i..2 * i + 2], 16).unwrap();
    }
    out
}

#[test]
fn find_patch_by_digest() {
    let abc = MakepkgPatch {
        custom_content: "patched",
        custom_sha1sum: [0; 20],
        original_sha1sum: digest("a9993e364706816aba3e25717850c26c9cd0d89d"),
    };
    let other = MakepkgPatch {
        custom_content: "other",
        custom_sha1sum: [0; 20],
        original_sha1sum: [1; 20],
    };
    let list = [other, abc];
    let found = MakepkgPatch::find_patch(&list, b"abc").unwrap();
    assert_eq!(found.custom_content, "patched");
    let missing = MakepkgPatch::find_patch(&list, b"").unwrap_err();
    assert_eq!(missing, digest("da39a3ee5e6b4b0d3255bfef95601890afd80709"));
    assert!(MakepkgPatch::find_patch_by_hash(&list, [1; 20]).is_ok());
}

#[test]
fn repositories_concatenate() {
    let a = Repository::Single("a".to_string());
    let b = Repository::Multiple(strings(&["b", "c"]));
    match a.concat(b) {
        Repository::Multiple(v) => assert_eq!(v, strings(&["a", "b", "c"])),
        Repository::Single(_) => panic!("expected several repositories"),
    }
    let r = concat_repository_options(None, Some(Repository::Single("x".to_string())));
    assert!(matches!(r, Some(Repository::Single(ref x)) if x == "x"));
    assert!(concat_repository_options::<String>(None, None).is_none());
}

#[test]
fn versions_compare_by_runs() {
    assert_eq!(compare_runs("1.10", "1.9"), Ordering::Greater);
    assert_eq!(compare_runs("1.010", "1.10"), Ordering::Equal);
    assert_eq!(compare_runs("1.0a", "1.0b"), Ordering::Less);
    assert_eq!(compare_runs("1.0", "1.0.1"), Ordering::Less);
    assert_eq!(compare_runs("1a", "11"), Ordering::Less);
    assert_eq!(compare_runs("", ""), Ordering::Equal);
    let v = |e: u64, ver: &str, rel: &str| VersionTriple { epoch: e, pkgver: ver.to_string(), pkgrel: rel.to_string() };
    assert_eq!(v(1, "0.1", "1").compare(&v(0, "9.9", "9")), Ordering::Greater);
    assert_eq!(v(0, "1.2.3", "2").compare(&v(0, "1.2.3", "10")), Ordering::Less);
    assert_eq!(v(0, "1.2.3", "1").compare(&v(0, "1.2.3", "1")), Ordering::Equal);
}

#[test]
fn reinsert_drops_old_names() {
    let mut db = Database::new();
    db.insert(info("a", &["a", "a-docs"], &[], None, "1", "1", &["any"]), "a".to_string()).unwrap();
    db.insert(info("a", &["a"], &[], None, "1", "2", &["any"]), "a".to_string()).unwrap();
    assert!(db.name_to_base(&"a-docs".to_string()).is_none());
    assert_eq!(db.name_to_base(&"a".to_string()).unwrap(), "a");
    db.insert(info("d", &["a-docs"], &[], None, "1", "1", &["any"]), "d".to_string()).unwrap();
    assert_eq!(db.name_to_base(&"a-docs".to_string()).unwrap(), "d");
}
