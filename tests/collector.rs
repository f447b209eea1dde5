use modpack::catalog::{
    archive_plan, collect_assets_and_include, collect_files, collect_sources, find_file, Entry, File, Filter, Node,
};
use modpack::error::PackError;
use modpack::output::{
    default_output_path, directory_to_create, find_metadata, generate_output_path, packed_message, ProjectMetadata,
};

fn s(x: &str) -> String {
    x.to_string()
}

fn leaf(name: &str) -> Entry {
    Entry { name: s(name), node: Node::Leaf }
}

fn dir(name: &str, entries: Vec<Entry>) -> Entry {
    Entry { name: s(name), node: Node::Dir(entries) }
}

fn file(source: &str, target: &str) -> File {
    File { source: s(source), target: s(target) }
}

fn sorted(mut v: Vec<File>) -> Vec<(String, String)> {
    let mut r: Vec<(String, String)> = v.drain(..).map(|f| (f.source, f.target)).collect();
    r.sort();
    r
}

#[test]
fn collect_keeps_accepted_files_relative_to_root() {
    let tree = Node::Dir(vec![
        leaf("a.cs"),
        dir("sub", vec![leaf("b.CS"), leaf("c.txt"), dir("deep", vec![leaf("d.cs")])]),
        leaf("e.md"),
    ]);
    let mut files = Vec::new();
    assert_eq!(collect_files("root", &tree, "root", Filter::SourceCode, &mut files), Ok(()));
    assert_eq!(
        files,
        vec![file("root/a.cs", "a.cs"), file("root/sub/b.CS", "sub/b.CS"), file("root/sub/deep/d.cs", "sub/deep/d.cs")]
    );
}

#[test]
fn collect_result_does_not_depend_on_listing_order() {
    let one = Node::Dir(vec![leaf("x"), dir("d", vec![leaf("y"), leaf("z")])]);
    let two = Node::Dir(vec![dir("d", vec![leaf("z"), leaf("y")]), leaf("x")]);
    let mut a = Vec::new();
    let mut b = Vec::new();
    collect_files("r", &one, "r", Filter::Everything, &mut a).unwrap();
    collect_files("r", &two, "r", Filter::Everything, &mut b).unwrap();
    assert_eq!(sorted(a), sorted(b));
}

#[test]
fn collect_appends_to_existing_catalog() {
    let tree = Node::Dir(vec![leaf("x")]);
    let mut files = vec![file("keep", "keep")];
    collect_files("r", &tree, "r", Filter::Everything, &mut files).unwrap();
    assert_eq!(files, vec![file("keep", "keep"), file("r/x", "x")]);
}

#[test]
fn collect_outside_base_fails() {
    let tree = Node::Dir(vec![leaf("x")]);
    let mut files = Vec::new();
    assert_eq!(
        collect_files("r", &tree, "other", Filter::Everything, &mut files),
        Err(PackError::OutsideBase { path: s("r/x"), base: s("other") })
    );
    assert!(files.is_empty());
}

#[test]
fn failed_collect_leaves_catalog_unchanged() {
    let tree = Node::Dir(vec![leaf("a"), leaf("b")]);
    let mut files = vec![file("keep", "keep")];
    let r = collect_files("r", &tree, "r/a", Filter::Everything, &mut files);
    assert_eq!(r, Err(PackError::OutsideBase { path: s("r/b"), base: s("r/a") }));
    assert_eq!(files, vec![file("keep", "keep")]);
}

#[test]
fn collect_single_file_root() {
    let mut files = Vec::new();
    collect_files("LICENSE", &Node::Leaf, "LICENSE", Filter::Everything, &mut files).unwrap();
    assert_eq!(files, vec![file("LICENSE", "")]);
}

#[test]
fn assets_and_extras() {
    let assets = vec![s("assets"), s("missing")];
    let listings = vec![Some(Node::Dir(vec![leaf("icon.png"), leaf("mod.json")])), None];
    let extras = vec![s("LICENSE"), s("dir/Locals"), s("..")];
    let mut files = Vec::new();
    collect_assets_and_include(&assets, &listings, &extras, &mut files).unwrap();
    assert_eq!(
        files,
        vec![
            file("assets/icon.png", "icon.png"),
            file("assets/mod.json", "mod.json"),
            file("LICENSE", "LICENSE"),
            file("dir/Locals", "Locals"),
            file("..", ""),
        ]
    );
}

#[test]
fn sources_keep_directory_name() {
    let sources = vec![s("Code"), s("code"), s("src")];
    let listings = vec![Some(Node::Dir(vec![leaf("A.cs"), leaf("notes.txt")])), None, None];
    let mut files = Vec::new();
    collect_sources(&sources, &listings, &mut files).unwrap();
    assert_eq!(files, vec![file("Code/A.cs", "Code/A.cs")]);
}

#[test]
fn sources_under_nested_directory() {
    let sources = vec![s("proj/Code")];
    let listings = vec![Some(Node::Dir(vec![dir("Sub", vec![leaf("B.cs")])]))];
    let mut files = Vec::new();
    collect_sources(&sources, &listings, &mut files).unwrap();
    assert_eq!(files, vec![file("proj/Code/Sub/B.cs", "Code/Sub/B.cs")]);
}

#[test]
fn sources_written_with_trailing_separator() {
    let sources = vec![s("Code/")];
    let listings = vec![Some(Node::Dir(vec![leaf("A.cs")]))];
    let mut files = Vec::new();
    collect_sources(&sources, &listings, &mut files).unwrap();
    assert_eq!(files, vec![file("Code/A.cs", "Code/A.cs")]);
}

#[test]
fn extras_written_with_trailing_separator() {
    let mut files = Vec::new();
    collect_assets_and_include(&vec![], &vec![], &vec![s("Locals/")], &mut files).unwrap();
    assert_eq!(files, vec![file("Locals/", "Locals")]);
}

#[test]
fn find_first_present_file() {
    let files = vec![file("a/mod.json", "mod.json"), file("b/mod.json", "mod.json"), file("c/x", "x")];
    assert_eq!(find_file(&files, &vec![false, true, true], "mod.json"), Some(s("b/mod.json")));
    assert_eq!(find_file(&files, &vec![true, true, true], "mod.json"), Some(s("a/mod.json")));
    assert_eq!(find_file(&files, &vec![false, false, true], "mod.json"), None);
    assert_eq!(find_metadata(&files, &vec![true, false, false]), Some(s("a/mod.json")));
}

#[test]
fn plan_skips_missing_and_normalizes() {
    let files = vec![file("a", "x\\a"), file("gone", "gone"), file("d", "d")];
    let plan = archive_plan(&files, &vec![true, false, false]);
    assert_eq!(plan, vec![file("a", "x/a")]);
}

#[test]
fn plan_is_repeatable() {
    let files = vec![file("a", "a"), file("b", "sub\\b"), file("c", "c")];
    let regular = vec![true, true, false];
    let first = archive_plan(&files, &regular);
    let second = archive_plan(&files, &regular);
    assert_eq!(first, second);
    let all = vec![true; first.len()];
    assert_eq!(archive_plan(&first, &all), first);
}

#[test]
fn output_path_from_metadata() {
    let meta = ProjectMetadata { name: s("Foo"), version: s("1.2.3") };
    let out = generate_output_path(&None, &Some(meta)).unwrap();
    assert_eq!(out, s("bin/Mod/Foo-1.2.3.zip"));
    assert_eq!(directory_to_create(&out), Some(s("bin/Mod")));
}

#[test]
fn output_path_explicit() {
    let meta = ProjectMetadata { name: s("Foo"), version: s("1.2.3") };
    assert_eq!(generate_output_path(&Some(s("out.zip")), &Some(meta)), Ok(s("out.zip")));
    assert_eq!(directory_to_create("out.zip"), None);
    assert_eq!(directory_to_create("/out.zip"), Some(s("/")));
}

#[test]
fn output_path_without_metadata() {
    assert_eq!(generate_output_path(&None, &None), Err(PackError::MissingMetadata));
}

#[test]
fn default_path() {
    let meta = ProjectMetadata { name: s("Demo"), version: s("0.1.0") };
    assert_eq!(default_output_path(&meta), s("bin/Mod/Demo-0.1.0.zip"));
}

#[test]
fn end_to_end_without_compiling() {
    let assets = vec![s("assets")];
    let listings = vec![Some(Node::Dir(vec![leaf("icon.png"), leaf("mod.json")]))];
    let mut files = Vec::new();
    collect_assets_and_include(&assets, &listings, &vec![], &mut files).unwrap();
    let present = vec![true; files.len()];
    let meta_path = find_metadata(&files, &present).unwrap();
    assert_eq!(meta_path, s("assets/mod.json"));
    let meta = ProjectMetadata { name: s("Demo"), version: s("0.1.0") };
    let out = generate_output_path(&None, &Some(meta)).unwrap();
    assert_eq!(out, s("bin/Mod/Demo-0.1.0.zip"));
    let sources = vec![s("Code")];
    let code = vec![Some(Node::Dir(vec![leaf("A.cs"), leaf("notes.txt")]))];
    collect_sources(&sources, &code, &mut files).unwrap();
    let regular = vec![true; files.len()];
    let plan = archive_plan(&files, &regular);
    let targets: Vec<String> = plan.iter().map(|f| f.target.clone()).collect();
    assert_eq!(targets, vec![s("icon.png"), s("mod.json"), s("Code/A.cs")]);
    assert!(!targets.contains(&s("Code/notes.txt")));
}

#[test]
fn packed_message_links_to_archive() {
    assert_eq!(
        packed_message("C:\\work\\Demo-0.1.0.zip"),
        s("Packed mod at: \x1b]8;;file://C:/work/Demo-0.1.0.zip\x1b\\C:\\work\\Demo-0.1.0.zip\x1b]8;;\x1b\\")
    );
    assert_eq!(
        packed_message("/w/a.zip"),
        s("Packed mod at: \x1b]8;;file:///w/a.zip\x1b\\/w/a.zip\x1b]8;;\x1b\\")
    );
}
