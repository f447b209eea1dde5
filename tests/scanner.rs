use modpack::catalog::File;
use modpack::error::PackError;
use modpack::scan::{
    command_from_words, debug_companions, found_in_log, get_dotnet_build, keep_present, parse_build_command, record_build,
};

fn s(x: &str) -> String {
    x.to_string()
}

#[test]
fn reported_path_after_arrow() {
    assert_eq!(get_dotnet_build("CSC -> /tmp/out/Lib.dll"), Some(s("/tmp/out/Lib.dll")));
}

#[test]
fn reported_path_is_trimmed() {
    assert_eq!(get_dotnet_build("  Lib -> \t /tmp/out/Lib.dll  \r"), Some(s("/tmp/out/Lib.dll")));
}

#[test]
fn reported_path_follows_last_arrow() {
    assert_eq!(get_dotnet_build("a -> b -> c/d.dll"), Some(s("c/d.dll")));
}

#[test]
fn line_without_arrow_reports_nothing() {
    assert_eq!(get_dotnet_build("Build succeeded."), None);
    assert_eq!(get_dotnet_build("a->b"), None);
    assert_eq!(get_dotnet_build(""), None);
}

#[test]
fn arrow_at_end_reports_empty_path() {
    assert_eq!(get_dotnet_build("x -> "), Some(s("")));
}

#[test]
fn build_without_markers_fails() {
    let lines = ["Restoring packages", "Build succeeded.", "  0 Warning(s)"];
    let mut artifacts: Vec<String> = Vec::new();
    for l in lines.iter() {
        if let Some(p) = get_dotnet_build(l) {
            artifacts.push(p);
        }
    }
    let companions = debug_companions(&artifacts, true);
    let mut files = vec![File { source: s("icon.png"), target: s("icon.png") }];
    assert_eq!(record_build(&mut files, &artifacts, &companions), Err(PackError::NoCompiledFiles));
    assert_eq!(files.len(), 1);
}

#[test]
fn build_with_debug_companion_counts_two() {
    let artifact = get_dotnet_build("CSC -> /tmp/out/Lib.dll").unwrap();
    let artifacts = vec![artifact];
    let companions = debug_companions(&artifacts, true);
    assert_eq!(companions, vec![s("/tmp/out/Lib.pdb")]);
    let mut files: Vec<File> = Vec::new();
    assert_eq!(record_build(&mut files, &artifacts, &companions), Ok(2));
    assert_eq!(
        files,
        vec![
            File { source: s("/tmp/out/Lib.dll"), target: s("Lib.dll") },
            File { source: s("/tmp/out/Lib.pdb"), target: s("Lib.pdb") },
        ]
    );
}

#[test]
fn companions_not_wanted() {
    let artifacts = vec![s("out/Lib.dll")];
    assert_eq!(debug_companions(&artifacts, false), Vec::<String>::new());
}

#[test]
fn companion_of_file_without_extension() {
    let artifacts = vec![s("out/tool"), s("out/.hidden"), s("a.b/c.tar.gz")];
    assert_eq!(
        debug_companions(&artifacts, true),
        vec![s("out/tool.pdb"), s("out/.hidden.pdb"), s("a.b/c.tar.pdb")]
    );
}

#[test]
fn build_command_words() {
    let c = parse_build_command("dotnet build -c 'Release Mode'").unwrap();
    assert_eq!(c.program, s("dotnet"));
    assert_eq!(c.args, vec![s("build"), s("-c"), s("Release Mode")]);
}

#[test]
fn build_command_unbalanced_quote() {
    assert_eq!(
        parse_build_command("dotnet \"build"),
        Err(PackError::InvalidBuildCommand { command: s("dotnet \"build") })
    );
}

#[test]
fn build_command_empty() {
    assert_eq!(parse_build_command("   "), Err(PackError::EmptyBuildCommand));
}

#[test]
fn command_from_given_words() {
    assert_eq!(command_from_words("x", None), Err(PackError::InvalidBuildCommand { command: s("x") }));
    assert_eq!(command_from_words("", Some(vec![])), Err(PackError::EmptyBuildCommand));
    let c = command_from_words("make all", Some(vec![s("make"), s("all")])).unwrap();
    assert_eq!(c.program, s("make"));
    assert_eq!(c.args, vec![s("all")]);
}

#[test]
fn log_keeps_existing_reported_paths() {
    let lines = vec![s("Restoring"), s("A -> out/A.dll"), s("B -> out/B.dll"), s("x -> y -> out/C.dll")];
    let present = vec![true, true, false, true];
    assert_eq!(found_in_log(&lines, &present), vec![s("out/A.dll"), s("out/C.dll")]);
}

#[test]
fn log_without_markers_finds_nothing() {
    let lines = vec![s("Build succeeded."), s("error CS1002: ; expected")];
    let artifacts = found_in_log(&lines, &vec![true, true]);
    assert!(artifacts.is_empty());
    let candidates = debug_companions(&artifacts, true);
    let companions = keep_present(&candidates, &vec![]);
    let mut files: Vec<File> = Vec::new();
    assert_eq!(record_build(&mut files, &artifacts, &companions), Err(PackError::NoCompiledFiles));
    assert!(files.is_empty());
}

#[test]
fn companions_kept_where_present() {
    let candidates = vec![s("a.pdb"), s("b.pdb"), s("c.pdb")];
    assert_eq!(keep_present(&candidates, &vec![false, true, true]), vec![s("b.pdb"), s("c.pdb")]);
}

#[test]
fn record_build_ignores_earlier_entries() {
    let artifacts = vec![s("/o/Lib.dll")];
    let mut files = vec![File { source: s("/x/Old.dll"), target: s("Old.dll") }];
    assert_eq!(record_build(&mut files, &artifacts, &vec![]), Ok(1));
    assert_eq!(files.len(), 2);
    assert_eq!(files[1], File { source: s("/o/Lib.dll"), target: s("Lib.dll") });
}
