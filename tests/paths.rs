use modpack::path::{
    extension, file_name, file_name_or_empty, is_source_file, join, normalize_separators, parent, strip_prefix,
    with_extension,
};
use modpack::text::trimmed;

fn s(x: &str) -> String {
    x.to_string()
}

#[test]
fn file_names() {
    assert_eq!(file_name("a/b/c.txt"), Some(s("c.txt")));
    assert_eq!(file_name("c.txt"), Some(s("c.txt")));
    assert_eq!(file_name("a/.."), None);
    assert_eq!(file_name(""), None);
    assert_eq!(file_name_or_empty("a/"), s("a"));
    assert_eq!(file_name("a/b//"), Some(s("b")));
    assert_eq!(file_name("/"), None);
}

#[test]
fn parents() {
    assert_eq!(parent("Code"), Some(s("")));
    assert_eq!(parent("a/b/Code"), Some(s("a/b")));
    assert_eq!(parent("/Code"), Some(s("/")));
    assert_eq!(parent("/"), None);
    assert_eq!(parent(""), None);
    assert_eq!(parent("Code/"), Some(s("")));
    assert_eq!(parent("a/b/"), Some(s("a")));
    assert_eq!(parent("a//b"), Some(s("a")));
}

#[test]
fn joins() {
    assert_eq!(join("assets", "icon.png"), s("assets/icon.png"));
    assert_eq!(join("assets/", "icon.png"), s("assets/icon.png"));
    assert_eq!(join("", "icon.png"), s("icon.png"));
    assert_eq!(join("a", "/abs"), s("/abs"));
}

#[test]
fn strip_prefixes() {
    assert_eq!(strip_prefix("assets/icon.png", "assets"), Some(s("icon.png")));
    assert_eq!(strip_prefix("assets/icon.png", "assets/"), Some(s("icon.png")));
    assert_eq!(strip_prefix("Code/A.cs", ""), Some(s("Code/A.cs")));
    assert_eq!(strip_prefix("assets", "assets"), Some(s("")));
    assert_eq!(strip_prefix("assetsx/a", "assets"), None);
    assert_eq!(strip_prefix("other/a", "assets"), None);
}

#[test]
fn extensions() {
    assert_eq!(extension("a/b.dll"), Some(s("dll")));
    assert_eq!(extension("a/.cs"), None);
    assert_eq!(extension("a/b."), Some(s("")));
    assert_eq!(extension("a.d/b"), None);
    assert_eq!(with_extension("/tmp/out/Lib.dll", "pdb"), s("/tmp/out/Lib.pdb"));
    assert_eq!(with_extension("Lib.dll", ""), s("Lib"));
    assert_eq!(with_extension("dir/", "pdb"), s("dir.pdb"));
    assert_eq!(with_extension("/", "pdb"), s("/"));
}

#[test]
fn source_files() {
    assert!(is_source_file("Code/A.cs"));
    assert!(is_source_file("Code/B.CS"));
    assert!(is_source_file("Code/C.cS"));
    assert!(!is_source_file("Code/notes.txt"));
    assert!(!is_source_file("Code/.cs"));
    assert!(!is_source_file("Code/a.csx"));
}

#[test]
fn separators() {
    assert_eq!(normalize_separators("Code\\\\Sub\\\\A.cs"), s("Code//Sub//A.cs"));
    assert_eq!(normalize_separators("Code\\A.cs"), s("Code/A.cs"));
    assert_eq!(normalize_separators("plain"), s("plain"));
}

#[test]
fn trimming() {
    assert_eq!(trimmed("  a b \t\n"), s("a b"));
    assert_eq!(trimmed("\u{3000}x\u{a0}"), s("x"));
    assert_eq!(trimmed("   "), s(""));
}
