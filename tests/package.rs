use diff_wasm::files::{FileMap, FileMapEntry, FileType};
use diff_wasm::package::{build_tarball_url, ensure_directories, normalize_path, strip_common_root};
use diff_wasm::session::{cache_key, Session};
use diff_wasm::tarball::{extract_tarball_bytes, files_from_members, parse_tar_bytes, tar_error_message, TarError, TarMember};
use std::io::Write;

fn file(content: &str) -> FileMapEntry {
    FileMapEntry { file_type: FileType::File, content: content.to_string() }
}

fn dir() -> FileMapEntry {
    FileMapEntry { file_type: FileType::Directory, content: String::new() }
}

fn kind(m: &FileMap, path: &str) -> Option<FileType> {
    m.get(path).map(|e| e.file_type)
}

#[test]
fn tarball_urls_by_registry() {
    assert_eq!(
        build_tarball_url("npm", "left-pad", "1.3.0").unwrap(),
        "https://registry.npmjs.org/left-pad/-/left-pad-1.3.0.tgz"
    );
    assert_eq!(
        build_tarball_url("npm", "@types/node", "20.1.0").unwrap(),
        "https://registry.npmjs.org/@types/node/-/node-20.1.0.tgz"
    );
    assert_eq!(
        build_tarball_url("crates", "serde", "1.0.0").unwrap(),
        "https://static.crates.io/crates/serde/serde-1.0.0.crate"
    );
    assert_eq!(
        build_tarball_url("zig", "ziglang/zig", "0.11.0").unwrap(),
        "https://codeload.github.com/ziglang/zig/tar.gz/0.11.0"
    );
    assert_eq!(build_tarball_url("zig", "zig", "1").unwrap_err(), "Invalid Zig package name");
    assert_eq!(build_tarball_url("zig", "/repo", "1").unwrap_err(), "Invalid Zig package name");
    assert_eq!(build_tarball_url("pypi", "x", "1").unwrap_err(), "Unsupported registry: pypi");
}

#[test]
fn normalized_paths() {
    assert_eq!(normalize_path("./package/a.js", false), "package/a.js");
    assert_eq!(normalize_path("././/x/", true), "x");
    assert_eq!(normalize_path("x/", false), "x/");
    assert_eq!(normalize_path("./", true), "");
    assert_eq!(normalize_path(".", false), "");
    assert_eq!(normalize_path("/", true), "");
}

#[test]
fn implied_directories_are_added() {
    let mut m = FileMap::new();
    m.insert("a/b/c.txt".to_string(), file("x"));
    m.insert("a//d.txt".to_string(), file("y"));
    m.insert("a/b".to_string(), file("kept"));
    ensure_directories(&mut m);
    assert_eq!(kind(&m, "a"), Some(FileType::Directory));
    assert_eq!(kind(&m, "a/b"), Some(FileType::File));
    assert_eq!(m.get("a/b").unwrap().content, "kept");
    assert_eq!(kind(&m, "a/"), None);
    assert_eq!(m.len(), 4);
}

#[test]
fn common_root_is_stripped() {
    let mut m = FileMap::new();
    m.insert("package".to_string(), dir());
    m.insert("package/index.js".to_string(), file("i"));
    m.insert("package/lib".to_string(), dir());
    let s = strip_common_root(m);
    assert_eq!(s.get("index.js").unwrap().content, "i");
    assert_eq!(kind(&s, "lib"), Some(FileType::Directory));
    assert_eq!(kind(&s, "package"), None);
    assert_eq!(s.len(), 2);

    let mut two = FileMap::new();
    two.insert("a/x".to_string(), file("1"));
    two.insert("b/y".to_string(), file("2"));
    let same = strip_common_root(two);
    assert!(same.get("a/x").is_some());

    let mut file_root = FileMap::new();
    file_root.insert("only".to_string(), file("1"));
    let kept = strip_common_root(file_root);
    assert!(kept.get("only").is_some());
}

#[test]
fn members_become_a_snapshot() {
    let members = vec![
        TarMember { path: "./package/".to_string(), is_dir: true, is_file: false, data: vec![] },
        TarMember { path: "package/src/a.rs".to_string(), is_dir: false, is_file: true, data: b"fn a() {}\n".to_vec() },
        TarMember { path: "package/link".to_string(), is_dir: false, is_file: false, data: vec![] },
        TarMember { path: "package/bad.txt".to_string(), is_dir: false, is_file: true, data: vec![0x66, 0xff] },
    ];
    let m = files_from_members(&members);
    assert_eq!(m.get("src/a.rs").unwrap().content, "fn a() {}\n");
    assert_eq!(kind(&m, "src"), Some(FileType::Directory));
    assert_eq!(m.get("bad.txt").unwrap().content, "f\u{fffd}");
    assert!(m.get("link").is_none());
    assert_eq!(m.len(), 3);
}

fn tarball() -> Vec<u8> {
    let mut builder = tar::Builder::new(Vec::new());
    let mut header = tar::Header::new_gnu();
    header.set_entry_type(tar::EntryType::Directory);
    header.set_size(0);
    header.set_mode(0o755);
    builder.append_data(&mut header, "pkg/", std::io::empty()).unwrap();
    let body = b"hello\nworld\n";
    let mut header = tar::Header::new_gnu();
    header.set_size(body.len() as u64);
    header.set_mode(0o644);
    builder.append_data(&mut header, "pkg/src/main.rs", &body[..]).unwrap();
    builder.into_inner().unwrap()
}

#[test]
fn tarball_bytes_are_unpacked() {
    let tar_bytes = tarball();
    let m = parse_tar_bytes(&tar_bytes).unwrap();
    assert_eq!(m.get("src/main.rs").unwrap().content, "hello\nworld\n");
    assert_eq!(kind(&m, "src"), Some(FileType::Directory));

    let mut enc = flate2::write::GzEncoder::new(Vec::new(), flate2::Compression::default());
    enc.write_all(&tar_bytes).unwrap();
    let gz = enc.finish().unwrap();
    let m = extract_tarball_bytes(&gz).unwrap();
    assert_eq!(m.get("src/main.rs").unwrap().content, "hello\nworld\n");
    assert_eq!(m.len(), 2);
}

#[test]
fn bad_gzip_is_reported() {
    let err = extract_tarball_bytes(&vec![1, 2, 3, 4]).err().unwrap();
    assert!(err.starts_with("Gzip decompression failed: "));
}

#[test]
fn session_diffs_by_path() {
    let mut session = Session::new();
    assert_eq!(session.get_diff_for_path("a.txt", None).err().unwrap(), "No active diff context");
    let key_from = cache_key("npm", "p", "1.0.0");
    let key_to = cache_key("npm", "p", "2.0.0");
    assert_eq!(key_from, "npm:p:1.0.0");
    let mut from = FileMap::new();
    from.insert("a.txt".to_string(), file("x\n"));
    from.insert("old.txt".to_string(), file("k\n"));
    let mut to = FileMap::new();
    to.insert("a.txt".to_string(), file("y\n"));
    to.insert("new.txt".to_string(), file("k\n"));
    session.store(key_from.clone(), from);
    session.store(key_to.clone(), to);
    assert!(session.cached("npm:p:1.0.0").is_some());
    assert!(session.cached("npm:p:3.0.0").is_none());
    session.set_active(key_from, key_to);
    let changed = session.get_diff_for_path("a.txt", None).unwrap();
    assert!(changed.is_diff);
    assert!(changed.data.starts_with("--- from/a.txt\n+++ to/a.txt"));
    let renamed = session.get_diff_for_path("new.txt", Some("old.txt")).unwrap();
    assert!(!renamed.is_diff);
    assert_eq!(renamed.data, "k\n");
    let missing = session.get_diff_for_path("zzz", None).unwrap();
    assert_eq!(missing.data, "File not present in either version.");
}

#[test]
fn corrupt_tar_is_reported() {
    let junk = vec![0x41u8; 1024];
    let err = parse_tar_bytes(&junk).err().unwrap();
    assert!(err.starts_with("Tar entry error: "), "{err}");
}

#[test]
fn tar_error_messages() {
    assert_eq!(tar_error_message(TarError::Parse("p".to_string())), "Tar parsing failed: p");
    assert_eq!(tar_error_message(TarError::Entry("e".to_string())), "Tar entry error: e");
    assert_eq!(tar_error_message(TarError::Path("x".to_string())), "Tar path error: x");
    assert_eq!(tar_error_message(TarError::Read("r".to_string())), "Tar read failed: r");
}
