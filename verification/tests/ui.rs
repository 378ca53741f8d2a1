use mask::digest::hex;
use mask::ui::{is_source_file, join, skips_dir, source_hash, Ui};
use sha2::{Digest, Sha256};

#[test]
fn paths_join_like_path_join() {
    assert_eq!(join("ui", "dist"), "ui/dist");
    assert_eq!(join("ui/", "dist"), "ui/dist");
    assert_eq!(join("", "dist"), "dist");
}

#[test]
fn ui_paths() {
    let ui = Ui::from_workspace("/work/mask");
    assert_eq!(ui.dir, "/work/mask/ui");
    assert_eq!(ui.dist_dir(), "/work/mask/ui/dist");
    assert_eq!(ui.index_path(), "/work/mask/ui/dist/index.html");
    assert_eq!(ui.build_hash_path(), "/work/mask/ui/dist/.build-hash");
}

#[test]
fn sources_are_typescript_files() {
    assert!(is_source_file("main.ts"));
    assert!(is_source_file("App.tsx"));
    assert!(is_source_file("a.b.tsx"));
    assert!(!is_source_file(".ts"));
    assert!(!is_source_file("ts"));
    assert!(!is_source_file("main.js"));
    assert!(!is_source_file("main.ts.bak"));
    assert!(skips_dir("node_modules"));
    assert!(skips_dir("dist"));
    assert!(skips_dir("dist-ssr"));
    assert!(!skips_dir("src"));
}

#[test]
fn source_hash_frames_paths_and_contents() {
    let sources = vec![
        ("src\\main.ts".to_string(), b"let x = 1;".to_vec()),
        ("App.tsx".to_string(), Vec::new()),
    ];
    let mut digest = Sha256::new();
    digest.update(b"src/main.ts");
    digest.update(b"\0");
    digest.update(b"let x = 1;");
    digest.update(b"\0");
    digest.update(b"App.tsx");
    digest.update(b"\0");
    digest.update(b"\0");
    let expected = format!("{:x}", digest.finalize());
    assert_eq!(source_hash(&sources), expected);
    assert_eq!(source_hash(&Vec::new()), "e3b0c44298fc1c149afbf4c8996fb92427ae41e4649b934ca495991b7852b855");
}

#[test]
fn stored_build_is_current_only_with_assets_and_same_hash() {
    assert!(Ui::build_is_current(true, Some(" abc \n"), "abc"));
    assert!(!Ui::build_is_current(false, Some("abc"), "abc"));
    assert!(!Ui::build_is_current(true, None, "abc"));
    assert!(!Ui::build_is_current(true, Some("abd"), "abc"));
}

#[test]
fn hex_is_lowercase_two_digits_per_byte() {
    assert_eq!(hex(&[0x00, 0x0f, 0xa5, 0xff]), "000fa5ff");
    assert_eq!(hex(&[]), "");
}
