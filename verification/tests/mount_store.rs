use minimodal_rs::errors::MiniModalError;
use minimodal_rs::mount::build_cargo_toml;
use minimodal_rs::mount::build_snapshot;
use minimodal_rs::mount::find_manifest;
use minimodal_rs::mount::path_escapes_check;
use minimodal_rs::mount::DepSpec;
use minimodal_rs::mount::FileEntry;
use minimodal_rs::mount::MountRequest;
use minimodal_rs::mount::MountResult;
use minimodal_rs::mount::ShadowStore;

fn entry(path: &str, content: &[u8]) -> FileEntry {
    FileEntry { file_path: path.to_string(), content: content.to_vec() }
}

#[test]
fn test_mount_overwrite() {
    // mounting a.src with X, then Y at the same path, leaves Y only
    let mut store = ShadowStore::new();
    let r1 = store.mount_project(MountRequest { files: vec![entry("a.src", b"X")] });
    assert!(matches!(r1, MountResult::Success(_)));
    let r2 = store.mount_project(MountRequest { files: vec![entry("a.src", b"Y")] });
    assert!(matches!(r2, MountResult::Success(_)));
    assert_eq!(store.read("a.src").expect("mounted"), b"Y");
}

#[test]
fn test_mount_keeps_other_paths() {
    let mut store = ShadowStore::new();
    store.mount_project(MountRequest {
        files: vec![entry("a.src", b"A"), entry("b.src", b"B")],
    });
    store.mount_project(MountRequest { files: vec![entry("a.src", b"A2")] });
    assert_eq!(store.read("a.src").expect("mounted"), b"A2");
    assert_eq!(store.read("b.src").expect("mounted"), b"B");
    assert!(store.read("c.src").is_none());
}

#[test]
fn test_mount_success_message() {
    let mut store = ShadowStore::new();
    match store.mount_project(MountRequest { files: vec![entry("x", b"1")] }) {
        MountResult::Success(msg) => assert_eq!(msg, "Mounted project"),
        MountResult::Failure(msg) => panic!("unexpected failure: {}", msg),
    }
}

#[test]
fn test_mount_rejects_escaping_path() {
    let mut store = ShadowStore::new();
    let r = store.mount_project(MountRequest { files: vec![entry("../evil", b"x")] });
    assert!(matches!(r, MountResult::Failure(_)));
    assert!(store.read("../evil").is_none());
}

#[test]
fn test_mount_rejects_repeated_path() {
    let mut store = ShadowStore::new();
    let r = store.mount_project(MountRequest {
        files: vec![entry("a", b"1"), entry("a", b"2")],
    });
    assert!(matches!(r, MountResult::Failure(_)));
}

#[test]
fn test_path_escapes_cases() {
    assert!(path_escapes_check(""));
    assert!(path_escapes_check("/abs/path"));
    assert!(path_escapes_check(".."));
    assert!(path_escapes_check("../x"));
    assert!(path_escapes_check("a/../b"));
    assert!(path_escapes_check("a/.."));
    assert!(!path_escapes_check("src/lib.rs"));
    assert!(!path_escapes_check("a..b"));
    assert!(!path_escapes_check("..a/b"));
    assert!(!path_escapes_check("a/..b"));
}

#[test]
fn test_build_cargo_toml_truncates_and_appends() {
    let manifest = "[package]\nname = \"x\"\n\n[dependencies]\nfoo = \"1\"\n\n[features]\nbar = []\n";
    let deps = vec![
        DepSpec { name: "serde".to_string(), version: "1.0".to_string(), pinned: false },
        DepSpec { name: "local".to_string(), version: "0.1".to_string(), pinned: true },
    ];
    let rewritten = build_cargo_toml(manifest, &deps);
    assert_eq!(
        rewritten,
        "[package]\nname = \"x\"\n\n[features]\nbar = []\n[dependencies]\nserde = \"1.0\"\n"
    );
    // exactly one dependency section remains
    assert_eq!(rewritten.matches("[dependencies]").count(), 1);
}

#[test]
fn test_build_cargo_toml_without_existing_section() {
    let manifest = "[package]\nname = \"x\"\n";
    let deps =
        vec![DepSpec { name: "serde".to_string(), version: "1.0".to_string(), pinned: false }];
    let rewritten = build_cargo_toml(manifest, &deps);
    assert_eq!(rewritten, "[package]\nname = \"x\"\n[dependencies]\nserde = \"1.0\"\n");
}

#[test]
fn test_find_manifest_single() {
    let files = vec![entry("src/lib.rs", b"x"), entry("Cargo.toml", b"[package]")];
    assert_eq!(find_manifest(&files).expect("one manifest"), 1);
}

#[test]
fn test_find_manifest_missing() {
    let files = vec![entry("src/lib.rs", b"x")];
    let e = find_manifest(&files).unwrap_err();
    assert!(matches!(e, MiniModalError::OtherError(_)));
    assert_eq!(e.message(), "Cargo.toml not found in the project");
}

#[test]
fn test_find_manifest_ambiguous() {
    let files = vec![entry("Cargo.toml", b"a"), entry("Cargo.toml", b"b")];
    let e = find_manifest(&files).unwrap_err();
    assert!(matches!(e, MiniModalError::OtherError(_)));
    assert_eq!(e.message(), "more than one manifest in the project");
}

#[test]
fn test_build_snapshot_assembles_request() {
    let files = vec![
        entry("src/main.rs", b"#[function]\nasync fn lala() {}\n#[tokio::main]\nasync fn main() {\n    lala();\n}\n"),
        entry("Cargo.toml", b"[package]\nname = \"p\"\n"),
        entry("src/lib.rs", b"pub fn id() {}\n"),
    ];
    let deps =
        vec![DepSpec { name: "serde".to_string(), version: "1".to_string(), pinned: false }];
    let req = build_snapshot(files, &deps).expect("well-formed tree");
    assert_eq!(req.files.len(), 4);
    assert_eq!(req.files[0].file_path, "src/main.rs");
    assert_eq!(req.files[1].file_path, "Cargo.toml");
    assert_eq!(
        String::from_utf8(req.files[1].content.clone()).unwrap(),
        "[package]\nname = \"p\"\n[dependencies]\nserde = \"1\"\n"
    );
    assert_eq!(req.files[2].file_path, "src/lib.rs");
    assert_eq!(req.files[3].file_path, "src/original_main.rs");
    assert_eq!(
        String::from_utf8(req.files[3].content.clone()).unwrap(),
        "async fn lala() {}\n#[tokio::main]\n"
    );
}

#[test]
fn test_build_snapshot_requires_entry_source() {
    let files = vec![entry("Cargo.toml", b"[package]\n")];
    let e = build_snapshot(files, &vec![]).unwrap_err();
    assert_eq!(e.message(), "src/main.rs does not exist");
}

#[test]
fn test_build_snapshot_requires_utf8_entry_source() {
    let files = vec![
        entry("src/main.rs", &[0xff, 0xfe]),
        entry("Cargo.toml", b"[package]\n"),
    ];
    let e = build_snapshot(files, &vec![]).unwrap_err();
    assert_eq!(e.message(), "src/main.rs is not valid UTF-8");
}
