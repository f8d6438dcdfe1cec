use polylauncher::apply::{plan_entry, refuse_symlinks, FileAction, Observed};
use polylauncher::builder::{build_package, classify_file, FilePair};
use polylauncher::codec::{decode_package, encode_package, peek_version};
use polylauncher::delta::{compute_delta, modify_contents};
use polylauncher::package::{
    Delta, DeltaAlgorithm, DeltaCompression, IntegrityStage, PatchEntry, PatchError,
    PatchOperation, PatchPackage, PATCH_PACKAGE_VERSION,
};
use polylauncher::paths::resolve_entry_path;
use polylauncher::scan::sorted_union;

fn pair(path: &str, before: Option<&[u8]>, after: Option<&[u8]>) -> FilePair {
    FilePair {
        rel_path: path.to_string(),
        before: before.map(|b| b.to_vec()),
        after: after.map(|b| b.to_vec()),
    }
}

fn sample_package() -> PatchPackage {
    let delta = Delta {
        diff_algorithm: DeltaAlgorithm::Bidiff1,
        compress_algorithm: DeltaCompression::Uncompressed,
        before_hash: "abc".to_string(),
        after_hash: "déf".to_string(),
        patch: vec![9, 8, 7],
    };
    PatchPackage::new(
        PATCH_PACKAGE_VERSION,
        vec![
            PatchEntry::new(PatchOperation::Add(vec![1, 2, 3]), "a.txt".to_string()),
            PatchEntry::new(PatchOperation::Remove, "dir/b.bin".to_string()),
            PatchEntry::new(PatchOperation::Modify(delta), "c/ü.txt".to_string()),
        ],
    )
}

#[test]
fn entry_path_uses_forward_slashes() {
    let e = PatchEntry::new(PatchOperation::Remove, "sub\\dir\\f.txt".to_string());
    assert_eq!(e.rel_path, "sub/dir/f.txt");
}

#[test]
fn codec_round_trip_keeps_every_field() {
    let p = sample_package();
    let bytes = encode_package(&p);
    let q = decode_package(&bytes).expect("decodes");
    assert_eq!(q.version, PATCH_PACKAGE_VERSION);
    assert_eq!(q.entries.len(), 3);
    assert_eq!(q.entries[0].rel_path, "a.txt");
    assert!(matches!(&q.entries[0].operation, PatchOperation::Add(d) if d == &vec![1, 2, 3]));
    assert_eq!(q.entries[1].rel_path, "dir/b.bin");
    assert!(matches!(q.entries[1].operation, PatchOperation::Remove));
    assert_eq!(q.entries[2].rel_path, "c/ü.txt");
    match &q.entries[2].operation {
        PatchOperation::Modify(d) => {
            assert_eq!(d.diff_algorithm, DeltaAlgorithm::Bidiff1);
            assert_eq!(d.compress_algorithm, DeltaCompression::Uncompressed);
            assert_eq!(d.before_hash, "abc");
            assert_eq!(d.after_hash, "déf");
            assert_eq!(d.patch, vec![9, 8, 7]);
        }
        _ => panic!("expected a modify entry"),
    }
    assert_eq!(encode_package(&q), bytes);
}

#[test]
fn encoding_is_deterministic_and_starts_with_version() {
    let a = encode_package(&sample_package());
    let b = encode_package(&sample_package());
    assert_eq!(a, b);
    assert_eq!(&a[0..4], &[1, 0, 0, 0]);
    assert_eq!(peek_version(&a), Some(PATCH_PACKAGE_VERSION));
}

#[test]
fn empty_package_is_just_the_version() {
    let p = PatchPackage::new(PATCH_PACKAGE_VERSION, vec![]);
    let bytes = encode_package(&p);
    assert_eq!(bytes, vec![1, 0, 0, 0]);
    assert_eq!(decode_package(&bytes).unwrap().entries.len(), 0);
}

#[test]
fn unsupported_version_is_refused_before_entries() {
    let mut bytes = encode_package(&sample_package());
    bytes[0] = 2;
    assert!(matches!(decode_package(&bytes), Err(PatchError::UnsupportedVersion(2))));
    let garbage_after_header = vec![7, 0, 0, 0, 0xff, 0xff];
    assert!(matches!(
        decode_package(&garbage_after_header),
        Err(PatchError::UnsupportedVersion(7))
    ));
}

#[test]
fn malformed_bytes_are_corrupt() {
    assert!(matches!(decode_package(&[]), Err(PatchError::CorruptPackage)));
    assert!(matches!(decode_package(&[1, 0]), Err(PatchError::CorruptPackage)));
    assert_eq!(peek_version(&[1, 0]), None);
    let bytes = encode_package(&sample_package());
    let truncated = &bytes[..bytes.len() - 1];
    assert!(matches!(decode_package(truncated), Err(PatchError::CorruptPackage)));
    let mut bad_tag = encode_package(&PatchPackage::new(
        PATCH_PACKAGE_VERSION,
        vec![PatchEntry::new(PatchOperation::Remove, "x".to_string())],
    ));
    let last = bad_tag.len() - 1;
    bad_tag[last] = 5;
    assert!(matches!(decode_package(&bad_tag), Err(PatchError::CorruptPackage)));
    let mut huge_length = vec![1, 0, 0, 0];
    huge_length.extend_from_slice(&u64::MAX.to_le_bytes());
    assert!(matches!(decode_package(&huge_length), Err(PatchError::CorruptPackage)));
}

#[test]
fn invalid_utf8_path_is_corrupt() {
    let mut bytes = vec![1, 0, 0, 0];
    bytes.extend_from_slice(&1u64.to_le_bytes());
    bytes.push(0xff);
    bytes.push(1);
    assert!(matches!(decode_package(&bytes), Err(PatchError::CorruptPackage)));
}

#[test]
fn traversal_out_of_target_is_refused() {
    match resolve_entry_path("/srv/target", "../outside.txt") {
        Err(PatchError::PathEscape(p)) => assert_eq!(p, "../outside.txt"),
        _ => panic!("expected a path escape"),
    }
    assert!(matches!(
        resolve_entry_path("/srv/target", "/etc/passwd"),
        Err(PatchError::PathEscape(_))
    ));
    assert!(matches!(
        resolve_entry_path("/srv/target", "a/../../b"),
        Err(PatchError::PathEscape(_))
    ));
}

#[test]
fn paths_inside_target_resolve_lexically() {
    let p = resolve_entry_path("/srv/target", "sub/./x/../a.txt").unwrap();
    assert_eq!(p.to_path_string(), "/srv/target/sub/a.txt");
    assert_eq!(p.target_depth, 2);
    let q = resolve_entry_path("/srv/target/", "../target/b.txt").unwrap();
    assert_eq!(q.to_path_string(), "/srv/target/b.txt");
    let r = resolve_entry_path("work", "c.txt").unwrap();
    assert_eq!(r.to_path_string(), "work/c.txt");
}

#[test]
fn symlinked_component_is_refused() {
    let p = resolve_entry_path("/srv/target", "link/inner.txt").unwrap();
    let comps = p.component_paths();
    assert_eq!(comps, vec!["/srv", "/srv/target", "/srv/target/link", "/srv/target/link/inner.txt"]);
    let flags = vec![false, false, true, false];
    match refuse_symlinks(comps.clone(), &flags) {
        Err(PatchError::SymlinkRefused(at)) => assert_eq!(at, "/srv/target/link"),
        _ => panic!("expected a symlink refusal"),
    }
    assert!(refuse_symlinks(comps, &vec![false; 4]).is_ok());
}

#[test]
fn cleanup_stops_below_target() {
    let p = resolve_entry_path("/srv/target", "sub/only.txt").unwrap();
    assert_eq!(p.cleanup_candidates(), vec!["/srv/target/sub"]);
    let deep = resolve_entry_path("/srv/target", "a/b/c.txt").unwrap();
    assert_eq!(deep.cleanup_candidates(), vec!["/srv/target/a/b", "/srv/target/a"]);
    let top = resolve_entry_path("/srv/target", "top.txt").unwrap();
    assert!(top.cleanup_candidates().is_empty());
}

#[test]
fn deltas_carry_md5_fingerprints() {
    let d = compute_delta(b"", b"a").unwrap();
    assert_eq!(d.before_hash, "d41d8cd98f00b204e9800998ecf8427e");
    assert_eq!(d.after_hash, "0cc175b9c0f1b6a831c399e269772661");
}

#[test]
fn modify_rebuilds_after_content() {
    let d = compute_delta(b"hello", b"hello world").unwrap();
    assert_eq!(d.before_hash, "5d41402abc4b2a76b9719d911017c592".to_string());
    assert_eq!(d.after_hash, "5eb63bbbe01eeed093cb22bb8f5acdc3".to_string());
    assert_eq!(modify_contents(b"hello", &d).unwrap(), b"hello world".to_vec());
}

#[test]
fn modify_on_already_patched_file_is_noop() {
    let d = compute_delta(b"hello", b"hello world").unwrap();
    assert_eq!(modify_contents(b"hello world", &d).unwrap(), b"hello world".to_vec());
}

#[test]
fn delta_payload_is_reproducible() {
    let d1 = compute_delta(b"hello", b"hello world").unwrap();
    let d2 = compute_delta(b"hello", b"hello world").unwrap();
    assert_eq!(d1.patch, d2.patch);
    assert!(!d1.patch.is_empty());
}

#[test]
fn tampered_file_fails_integrity_check() {
    let d = compute_delta(b"hello", b"hello world").unwrap();
    match modify_contents(b"tampered", &d) {
        Err(PatchError::IntegrityMismatch { stage, expected, actual }) => {
            assert_eq!(stage, IntegrityStage::BeforeApply);
            assert_eq!(expected, "5d41402abc4b2a76b9719d911017c592".to_string());
            assert_eq!(actual, Some("07b218b924120d49a725c36b06556000".to_string()));
        }
        _ => panic!("expected an integrity mismatch"),
    }
}

#[test]
fn malformed_payload_is_corrupt() {
    let mut d = compute_delta(b"hello", b"hello world").unwrap();
    d.patch = vec![1, 2, 3];
    assert!(matches!(modify_contents(b"hello", &d), Err(PatchError::CorruptPackage)));
}

#[test]
fn corrupted_delta_fails_after_check() {
    let mut d = compute_delta(b"hello", b"hello world").unwrap();
    d.after_hash = "6c7ba9c5a141421e1c03cb9807c97c74".to_string();
    assert!(matches!(
        modify_contents(b"hello", &d),
        Err(PatchError::IntegrityMismatch { stage: IntegrityStage::AfterApply, .. })
    ));
}

#[test]
fn classification_of_one_path() {
    assert!(matches!(classify_file(pair("same", Some(b"x"), Some(b"x"))), Ok(None)));
    assert!(matches!(classify_file(pair("none", None, None)), Ok(None)));
    match classify_file(pair("gone\\f", Some(b"x"), None)) {
        Ok(Some(e)) => {
            assert_eq!(e.rel_path, "gone/f");
            assert!(matches!(e.operation, PatchOperation::Remove));
        }
        _ => panic!("expected a remove entry"),
    }
    match classify_file(pair("new", None, Some(b"abc"))) {
        Ok(Some(e)) => assert!(matches!(e.operation, PatchOperation::Add(d) if d == b"abc".to_vec())),
        _ => panic!("expected an add entry"),
    }
    match classify_file(pair("a.txt", Some(b"hello"), Some(b"hello world"))) {
        Ok(Some(e)) => match e.operation {
            PatchOperation::Modify(d) => {
                assert_eq!(d.diff_algorithm, DeltaAlgorithm::Rsync020);
                assert_eq!(d.compress_algorithm, DeltaCompression::Zstd);
                assert_eq!(d.after_hash, "5eb63bbbe01eeed093cb22bb8f5acdc3".to_string());
            }
            _ => panic!("expected a modify entry"),
        },
        _ => panic!("expected an entry"),
    }
}

#[test]
fn identical_snapshots_give_no_entries() {
    let files = vec![
        pair("a", Some(b"1"), Some(b"1")),
        pair("b/c", Some(b"22"), Some(b"22")),
    ];
    let p = build_package(files).unwrap();
    assert_eq!(p.version, PATCH_PACKAGE_VERSION);
    assert!(p.entries.is_empty());
}

#[test]
fn build_keeps_order_and_skips_unchanged() {
    let files = vec![
        pair("a", None, Some(b"new")),
        pair("b", Some(b"same"), Some(b"same")),
        pair("c", Some(b"old"), None),
        pair("d", Some(b"hello"), Some(b"hello world")),
    ];
    let p = build_package(files).unwrap();
    let paths: Vec<&str> = p.entries.iter().map(|e| e.rel_path.as_str()).collect();
    assert_eq!(paths, vec!["a", "c", "d"]);
    assert!(matches!(p.entries[0].operation, PatchOperation::Add(_)));
    assert!(matches!(p.entries[1].operation, PatchOperation::Remove));
    assert!(matches!(p.entries[2].operation, PatchOperation::Modify(_)));
}

#[test]
fn round_trip_through_bytes_and_plans() {
    let files = vec![
        pair("a.txt", Some(b"hello"), Some(b"hello world")),
        pair("add.txt", None, Some(b"fresh")),
        pair("gone.txt", Some(b"bye"), None),
    ];
    let p = build_package(files).unwrap();
    let q = decode_package(&encode_package(&p)).unwrap();
    let mut results = Vec::new();
    for e in q.entries {
        let observed = if e.rel_path == "add.txt" { Observed::Missing } else { Observed::File };
        match plan_entry(e.operation, observed, e.rel_path.clone()).unwrap() {
            FileAction::Write(data) => results.push((e.rel_path, Some(data))),
            FileAction::Delete => results.push((e.rel_path, None)),
            FileAction::Rebuild(d) => {
                results.push((e.rel_path, Some(modify_contents(b"hello", &d).unwrap())))
            }
            FileAction::Nothing => panic!("nothing to do is unexpected here"),
        }
    }
    assert_eq!(
        results,
        vec![
            ("a.txt".to_string(), Some(b"hello world".to_vec())),
            ("add.txt".to_string(), Some(b"fresh".to_vec())),
            ("gone.txt".to_string(), None),
        ]
    );
}

#[test]
fn plans_refuse_symlinks_and_repeat_removes() {
    assert!(matches!(
        plan_entry(PatchOperation::Add(vec![1]), Observed::Symlink, "l".to_string()),
        Err(PatchError::SymlinkRefused(p)) if p == "l"
    ));
    assert!(matches!(
        plan_entry(PatchOperation::Remove, Observed::Missing, "f".to_string()),
        Ok(FileAction::Nothing)
    ));
    assert!(matches!(
        plan_entry(PatchOperation::Remove, Observed::File, "f".to_string()),
        Ok(FileAction::Delete)
    ));
    let d = compute_delta(b"a", b"b").unwrap();
    assert!(matches!(
        plan_entry(PatchOperation::Modify(d), Observed::Missing, "m".to_string()),
        Err(PatchError::Io(p)) if p == "m"
    ));
}

#[test]
fn union_of_scans_is_sorted_by_text_and_deduplicated() {
    let a = vec!["b.txt".to_string(), "a/b".to_string(), "a.txt".to_string()];
    let b = vec!["a.txt".to_string(), "c".to_string(), "a".to_string()];
    assert_eq!(sorted_union(a, b), vec!["a", "a.txt", "a/b", "b.txt", "c"]);
    assert!(sorted_union(vec![], vec![]).is_empty());
}

#[test]
fn two_builds_encode_identically() {
    let files = || {
        vec![
            pair("a.txt", Some(b"hello"), Some(b"hello world")),
            pair("b.txt", None, Some(b"new")),
        ]
    };
    let one = encode_package(&build_package(files()).unwrap());
    let two = encode_package(&build_package(files()).unwrap());
    assert_eq!(one, two);
}

#[test]
fn relative_targets_refuse_climbing_out() {
    for target in [".", "", "./", "work", "../g"] {
        assert!(
            matches!(
                resolve_entry_path(target, "../outside.txt"),
                Err(PatchError::PathEscape(_))
            ),
            "target {:?}",
            target
        );
    }
    let inside = resolve_entry_path("../g", "a").unwrap();
    assert_eq!(inside.to_path_string(), "../g/a");
    assert_eq!(inside.cleanup_candidates(), Vec::<String>::new());
    let dot = resolve_entry_path(".", "sub/x.txt").unwrap();
    assert_eq!(dot.to_path_string(), "sub/x.txt");
    assert_eq!(dot.cleanup_candidates(), vec!["sub"]);
    assert!(matches!(resolve_entry_path("../g", "../h/a"), Err(PatchError::PathEscape(_))));
}

#[test]
fn root_target_cannot_be_climbed_out_of() {
    let p = resolve_entry_path("/", "../etc/x").unwrap();
    assert_eq!(p.to_path_string(), "/etc/x");
}

#[test]
fn build_refuses_absolute_and_unordered_paths() {
    let absolute = vec![pair("/etc/passwd", None, Some(b"x"))];
    assert!(matches!(build_package(absolute), Err(PatchError::PathEscape(p)) if p == "/etc/passwd"));
    let unordered = vec![pair("b", None, Some(b"x")), pair("a", None, Some(b"y"))];
    assert!(matches!(build_package(unordered), Err(PatchError::PathOrder(p)) if p == "a"));
    let colliding = vec![pair("a/b", Some(b"1"), Some(b"1")), pair("a\\b", None, Some(b"2"))];
    assert!(matches!(build_package(colliding), Err(PatchError::PathOrder(p)) if p == "a\\b"));
}
