//! The build-output scanner: which lines of a build tool's log report a
//! produced file, which debug-symbol companions go with them, and how the
//! files found are recorded in the catalog.
use vstd::prelude::*;
use vstd::string::*;
use crate::catalog::{catalog_view, File};
use crate::error::PackError;
use crate::path::{file_name_or_empty, name_or_empty, opt_view, with_extension, with_extension_of};
use crate::text::{
    chars_of, contains, last_occurrence, last_occurrence_below, lemma_last_occurrence_below,
    occurs_at, trim, trimmed,
};

verus! {

/// The marker that a build tool writes before the path of a file it produced.
pub open spec fn arrow() -> Seq<char> {
    seq![' ', '-', '>', ' ']
}

/// The extension of debug-symbol files.
pub open spec fn debug_extension() -> Seq<char> {
    seq!['p', 'd', 'b']
}

/// The path that a log line reports as produced: what follows the last arrow,
/// without surrounding white space; `None` for a line without an arrow.
pub open spec fn reported_path(line: Seq<char>) -> Option<Seq<char>> {
    if contains(line, arrow()) {
        Some(trim(line.subrange(last_occurrence(line, arrow()) + 4, line.len() as int)))
    } else {
        None
    }
}

fn arrow_at(v: &Vec<char>, i: usize) -> (r: bool)
    ensures
        r == occurs_at(v@, arrow(), i as int),
{
    if i > v.len() || v.len() - i < 4 {
        return false;
    }
    let r = v[i] == ' ' && v[i + 1] == '-' && v[i + 2] == '>' && v[i + 3] == ' ';
    assert(r ==> v@.subrange(i as int, i + 4) =~= arrow());
    assert(v@.subrange(i as int, i + 4) == arrow() ==> r) by {
        if v@.subrange(i as int, i + 4) == arrow() {
            assert(v@[i as int] == v@.subrange(i as int, i + 4)[0]);
            assert(v@[i + 1] == v@.subrange(i as int, i + 4)[1]);
            assert(v@[i + 2] == v@.subrange(i as int, i + 4)[2]);
            assert(v@[i + 3] == v@.subrange(i as int, i + 4)[3]);
        }
    }
    r
}

/// The path that `line` reports as a produced file, if it holds the arrow
/// marker. Whether that path exists is for the caller to find out.
pub fn get_dotnet_build(line: &str) -> (r: Option<String>)
    ensures
        opt_view(r) == reported_path(line@),
{
    let v = chars_of(line);
    let n = v.len();
    let mut k: usize = n;
    proof {
        lemma_last_occurrence_below(v@, arrow(), n as int + 1);
        if !occurs_at(v@, arrow(), n as int) {
            assert(last_occurrence(v@, arrow()) == last_occurrence_below(v@, arrow(), n as int));
        }
    }
    if arrow_at(&v, n) {
        assert(false);
    }
    loop
        invariant
            n == v@.len(),
            k <= n,
            v@ == line@,
            last_occurrence(v@, arrow()) == last_occurrence_below(v@, arrow(), k as int + 1),
            forall|j: int| k < j <= n ==> !occurs_at(v@, arrow(), j),
        decreases k,
    {
        if arrow_at(&v, k) {
            assert(contains(v@, arrow()));
            let rest = line.substring_char(k + 4, n);
            return Some(trimmed(rest));
        }
        if k == 0 {
            assert(!contains(v@, arrow())) by {
                if contains(v@, arrow()) {
                    let j = choose|j: int| occurs_at(v@, arrow(), j);
                    assert(0 <= j <= n);
                }
            }
            return None;
        }
        k = k - 1;
    }
}

/// Lines of the shape `<prefix> -> <path>` report `<path>` without its
/// surrounding white space, whatever arrows `<prefix>` holds, as long as the
/// arrow before `<path>` is the last one: `<path>` holds no arrow and does not
/// start with `-> `.
pub proof fn lemma_reported_path(prefix: Seq<char>, path: Seq<char>)
    requires
        !contains(path, arrow()),
        !(path.len() >= 3 && path[0] == '-' && path[1] == '>' && path[2] == ' '),
    ensures
        reported_path(prefix + arrow() + path) == Some(trim(path)),
{
    let line = prefix + arrow() + path;
    let p = prefix.len() as int;
    assert(line.subrange(p, p + 4) =~= arrow());
    assert(occurs_at(line, arrow(), p));
    assert forall|j: int| p < j < line.len() + 1 implies !occurs_at(line, arrow(), j) by {
        if occurs_at(line, arrow(), j) {
            let w = line.subrange(j, j + 4);
            assert(w[0] == line[j]);
            if j >= p + 4 {
                assert(path.subrange(j - p - 4, j - p) =~= w);
                assert(occurs_at(path, arrow(), j - p - 4));
            } else if j == p + 1 {
                assert(line[j] == '-');
            } else if j == p + 2 {
                assert(line[j] == '>');
            } else {
                assert(w[1] == line[j + 1]);
                assert(w[2] == line[j + 2]);
                assert(w[3] == line[j + 3]);
                assert(line[j + 1] == path[0]);
                assert(line[j + 2] == path[1]);
                assert(line[j + 3] == path[2]);
            }
        }
    }
    lemma_last_occurrence_below(line, arrow(), line.len() as int + 1);
    let l = last_occurrence(line, arrow());
    assert(l == p) by {
        if l > p {
            assert(!occurs_at(line, arrow(), l));
        }
        if l < p {
            assert(!occurs_at(line, arrow(), p));
        }
    }
    assert(line.subrange(p + 4, line.len() as int) =~= path);
}

/// The words of a command line as shell-like word splitting gives them, or
/// `None` where its quoting is unbalanced or it ends in an escape.
pub uninterp spec fn shell_words(s: Seq<char>) -> Option<Seq<Seq<char>>>;

/// The texts of a sequence of strings.
pub open spec fn string_views(v: Seq<String>) -> Seq<Seq<char>> {
    v.map_values(|x: String| x@)
}

/// The view of optional words.
pub open spec fn words_view(w: Option<Vec<String>>) -> Option<Seq<Seq<char>>> {
    match w {
        Some(v) => Some(string_views(v@)),
        None => None,
    }
}

/// Relies on `shlex::split`: the words of a command line, quoting and escapes
/// respected, or `None` for erroneous input; the result depends on the text alone.
#[verifier::external_body]
fn shell_split(s: &str) -> (r: Option<Vec<String>>)
    ensures
        words_view(r) == shell_words(s@),
{
    shlex::split(s)
}

/// A program to run and its arguments.
#[derive(Debug, Clone, PartialEq, Eq)]
pub struct BuildCommand {
    pub program: String,
    pub args: Vec<String>,
}

/// What a build command whose words are `words` runs: an error for words that
/// could not be split or for no word at all, else the first word as the
/// program and the others as its arguments.
pub open spec fn command_matches(command: Seq<char>, words: Option<Seq<Seq<char>>>, r: Result<BuildCommand, PackError>) -> bool {
    match words {
        None => r matches Err(PackError::InvalidBuildCommand { command: c }) && c@ == command,
        Some(w) => if w.len() == 0 {
            r == Err::<BuildCommand, PackError>(PackError::EmptyBuildCommand)
        } else {
            r matches Ok(b) && b.program@ == w[0] && string_views(b.args@) == w.drop_first()
        },
    }
}

/// The command that `command` names, given its words as split.
pub fn command_from_words(command: &str, words: Option<Vec<String>>) -> (r: Result<BuildCommand, PackError>)
    ensures
        command_matches(command@, words_view(words), r),
{
    match words {
        None => Err(PackError::InvalidBuildCommand { command: String::from_str(command) }),
        Some(w) => {
            if w.len() == 0 {
                return Err(PackError::EmptyBuildCommand);
            }
            let program = w[0].clone();
            let mut args: Vec<String> = Vec::new();
            let mut i: usize = 1;
            while i < w.len()
                invariant
                    1 <= i <= w@.len(),
                    string_views(args@) == string_views(w@).subrange(1, i as int),
                decreases w@.len() - i,
            {
                let ghost before = args@;
                args.push(w[i].clone());
                assert(args@ == before.push(w@[i as int]));
                assert(string_views(args@) =~= string_views(before).push(w@[i as int]@));
                assert(string_views(args@) =~= string_views(w@).subrange(1, i + 1));
                i = i + 1;
            }
            assert(string_views(w@).subrange(1, w@.len() as int) =~= string_views(w@).drop_first());
            Ok(BuildCommand { program, args })
        },
    }
}

/// Splits the build command string into the program and its arguments.
pub fn parse_build_command(command: &str) -> (r: Result<BuildCommand, PackError>)
    ensures
        command_matches(command@, shell_words(command@), r),
{
    let words = shell_split(command);
    command_from_words(command, words)
}

/// The debug-symbol companions to look for beside `artifacts`: each with the
/// debug extension in place of its own, or none where they are not wanted.
pub open spec fn companions_of(artifacts: Seq<Seq<char>>, wanted: bool) -> Seq<Seq<char>> {
    if wanted {
        with_debug_extension(artifacts)
    } else {
        seq![]
    }
}

/// Each of `paths` with the debug extension in place of its own.
pub open spec fn with_debug_extension(paths: Seq<Seq<char>>) -> Seq<Seq<char>> {
    paths.map_values(|a: Seq<char>| with_extension_of(a, debug_extension()))
}

/// The paths at which debug-symbol companions of `artifacts` would lie.
pub fn debug_companions(artifacts: &Vec<String>, wanted: bool) -> (r: Vec<String>)
    ensures
        string_views(r@) == companions_of(string_views(artifacts@), wanted),
{
    let mut r: Vec<String> = Vec::new();
    if !wanted {
        assert(string_views(r@) =~= seq![]);
        return r;
    }
    let ext = "pdb";
    proof {
        reveal_strlit("pdb");
        assert(ext@ =~= debug_extension());
    }
    let n = artifacts.len();
    let mut i: usize = 0;
    while i < n
        invariant
            n == artifacts@.len(),
            i <= n,
            ext@ == debug_extension(),
            string_views(r@) == with_debug_extension(string_views(artifacts@).subrange(0, i as int)),
        decreases n - i,
    {
        let ghost before = r@;
        r.push(with_extension(artifacts[i].as_str(), ext));
        assert(string_views(r@) =~= string_views(before).push(with_extension_of(artifacts@[i as int]@, debug_extension())));
        assert(string_views(r@) =~= with_debug_extension(string_views(artifacts@).subrange(0, i + 1)));
        i = i + 1;
    }
    assert(string_views(artifacts@).subrange(0, n as int) =~= string_views(artifacts@));
    r
}

/// Catalog entries for build outputs: each lands at the archive root under its file name.
pub open spec fn flat_entries(paths: Seq<Seq<char>>) -> Seq<(Seq<char>, Seq<char>)> {
    paths.map_values(|p: Seq<char>| (p, name_or_empty(p)))
}

/// Appends the build's artifacts, then the companions found, each at the
/// archive root under its file name, and returns how many were added. A
/// build that produced nothing is an error, and then the catalog is unchanged.
pub fn record_build(files: &mut Vec<File>, artifacts: &Vec<String>, companions: &Vec<String>) -> (r: Result<usize, PackError>)
    requires
        artifacts@.len() + companions@.len() <= usize::MAX,
    ensures
        (artifacts@.len() + companions@.len() == 0) <==> r == Err::<usize, PackError>(PackError::NoCompiledFiles),
        r is Err ==> final(files)@ == old(files)@,
        artifacts@.len() + companions@.len() > 0 ==> r == Ok::<usize, PackError>(
            (artifacts@.len() + companions@.len()) as usize,
        ),
        r is Ok ==> catalog_view(final(files)@) == catalog_view(old(files)@) + flat_entries(
            string_views(artifacts@) + string_views(companions@),
        ),
{
    let ghost all = string_views(artifacts@) + string_views(companions@);
    let ghost start = files@;
    let na = artifacts.len();
    let nc = companions.len();
    if na == 0 && nc == 0 {
        return Err(PackError::NoCompiledFiles);
    }
    let mut i: usize = 0;
    while i < na + nc
        invariant
            na == artifacts@.len(),
            nc == companions@.len(),
            na + nc <= usize::MAX,
            all == string_views(artifacts@) + string_views(companions@),
            i <= na + nc,
            catalog_view(files@) == catalog_view(start) + flat_entries(all.subrange(0, i as int)),
        decreases na + nc - i,
    {
        let source = if i < na {
            artifacts[i].clone()
        } else {
            companions[i - na].clone()
        };
        assert(source@ == all[i as int]);
        let target = file_name_or_empty(source.as_str());
        let ghost before = files@;
        files.push(File { source, target });
        assert(catalog_view(files@) =~= catalog_view(before) + seq![(all[i as int], name_or_empty(all[i as int]))]);
        assert(flat_entries(all.subrange(0, i + 1)) =~= flat_entries(all.subrange(0, i as int)) + seq![(all[i as int], name_or_empty(all[i as int]))]);
        i = i + 1;
    }
    assert(all.subrange(0, (na + nc) as int) =~= all);
    Ok(na + nc)
}

/// The artifacts that a build whose log is `lines` reports, where `present[i]`
/// says whether the path that line `i` reports exists: those reported paths
/// that exist, in log order.
pub open spec fn found_artifacts(lines: Seq<Seq<char>>, present: Seq<bool>) -> Seq<Seq<char>>
    decreases lines.len(),
{
    if lines.len() == 0 {
        seq![]
    } else {
        found_artifacts(lines.drop_last(), present.drop_last()) + match reported_path(lines.last()) {
            Some(p) => if present.last() {
                seq![p]
            } else {
                seq![]
            },
            None => seq![],
        }
    }
}

/// The items of `items` whose flag in `present` is set, in order.
pub open spec fn kept(items: Seq<Seq<char>>, present: Seq<bool>) -> Seq<Seq<char>>
    decreases items.len(),
{
    if items.len() == 0 {
        seq![]
    } else {
        kept(items.drop_last(), present.drop_last()) + if present.last() {
            seq![items.last()]
        } else {
            seq![]
        }
    }
}

/// The companions of `artifacts` that exist, `present` saying of each
/// companion path whether it exists.
pub open spec fn found_companions(artifacts: Seq<Seq<char>>, wanted: bool, present: Seq<bool>) -> Seq<Seq<char>> {
    kept(companions_of(artifacts, wanted), present)
}

/// The artifacts that the log `lines` reports, `present[i]` saying whether
/// the path that line `i` reports exists.
pub fn found_in_log(lines: &Vec<String>, present: &Vec<bool>) -> (r: Vec<String>)
    requires
        lines@.len() == present@.len(),
    ensures
        string_views(r@) == found_artifacts(string_views(lines@), present@),
{
    let n = lines.len();
    let mut r: Vec<String> = Vec::new();
    let mut i: usize = 0;
    while i < n
        invariant
            n == lines@.len(),
            n == present@.len(),
            i <= n,
            string_views(r@) == found_artifacts(string_views(lines@).subrange(0, i as int), present@.subrange(0, i as int)),
        decreases n - i,
    {
        let ghost before = r@;
        let ghost ls = string_views(lines@).subrange(0, i + 1);
        let ghost ps = present@.subrange(0, i + 1);
        assert(ls.drop_last() =~= string_views(lines@).subrange(0, i as int));
        assert(ps.drop_last() =~= present@.subrange(0, i as int));
        assert(ls.last() == lines@[i as int]@);
        match get_dotnet_build(lines[i].as_str()) {
            Some(p) => {
                if present[i] {
                    r.push(p);
                    assert(string_views(r@) =~= string_views(before) + seq![p@]);
                } else {
                    assert(string_views(r@) =~= string_views(before) + Seq::<Seq<char>>::empty());
                }
            },
            None => {
                assert(string_views(r@) =~= string_views(before) + Seq::<Seq<char>>::empty());
            },
        }
        i = i + 1;
    }
    assert(string_views(lines@).subrange(0, n as int) =~= string_views(lines@));
    assert(present@.subrange(0, n as int) =~= present@);
    r
}

/// The items of `items` whose flag in `present` is set, in order.
pub fn keep_present(items: &Vec<String>, present: &Vec<bool>) -> (r: Vec<String>)
    requires
        items@.len() == present@.len(),
    ensures
        string_views(r@) == kept(string_views(items@), present@),
{
    let n = items.len();
    let mut r: Vec<String> = Vec::new();
    let mut i: usize = 0;
    while i < n
        invariant
            n == items@.len(),
            n == present@.len(),
            i <= n,
            string_views(r@) == kept(string_views(items@).subrange(0, i as int), present@.subrange(0, i as int)),
        decreases n - i,
    {
        let ghost before = r@;
        let ghost xs = string_views(items@).subrange(0, i + 1);
        let ghost ps = present@.subrange(0, i + 1);
        assert(xs.drop_last() =~= string_views(items@).subrange(0, i as int));
        assert(ps.drop_last() =~= present@.subrange(0, i as int));
        if present[i] {
            r.push(items[i].clone());
            assert(string_views(r@) =~= string_views(before) + seq![items@[i as int]@]);
        } else {
            assert(string_views(r@) =~= string_views(before) + Seq::<Seq<char>>::empty());
        }
        i = i + 1;
    }
    assert(string_views(items@).subrange(0, n as int) =~= string_views(items@));
    assert(present@.subrange(0, n as int) =~= present@);
    r
}

/// A build whose log holds no arrow marker reports no artifact and no
/// companion, whatever exists on disk and however the build ended, so
/// recording it fails.
pub proof fn lemma_no_marker_no_build(lines: Seq<Seq<char>>, present: Seq<bool>, wanted: bool, companions_present: Seq<bool>)
    requires
        forall|i: int| 0 <= i < lines.len() ==> !contains(#[trigger] lines[i], arrow()),
    ensures
        found_artifacts(lines, present) == Seq::<Seq<char>>::empty(),
        found_companions(found_artifacts(lines, present), wanted, companions_present) == Seq::<Seq<char>>::empty(),
    decreases lines.len(),
{
    if lines.len() > 0 {
        let rest = lines.drop_last();
        assert forall|i: int| 0 <= i < rest.len() implies !contains(#[trigger] rest[i], arrow()) by {
            assert(rest[i] == lines[i]);
        }
        lemma_no_marker_no_build(rest, present.drop_last(), wanted, companions_present);
        assert(!contains(lines[lines.len() - 1], arrow()));
        assert(found_artifacts(lines, present) =~= seq![]);
    }
    let e = Seq::<Seq<char>>::empty();
    assert(companions_of(e, wanted) =~= e);
}

} // verus!
