//! Where the archive is written.
use vstd::prelude::*;
use vstd::string::*;
use crate::catalog::{find_file, is_named, File};
use crate::error::PackError;
use crate::path::{normalize_separators, normalized, opt_view, parent, parent_of};

verus! {

/// The project's name and version, as its metadata file gives them.
#[derive(Debug, Clone, PartialEq, Eq)]
pub struct ProjectMetadata {
    pub name: String,
    pub version: String,
}

/// The file name of the project's metadata file, `mod.json`.
pub open spec fn metadata_name() -> Seq<char> {
    seq!['m', 'o', 'd', '.', 'j', 's', 'o', 'n']
}

/// The source of the first catalog entry present on disk (`present`, one flag
/// per entry) whose file name is that of the metadata file.
pub fn find_metadata(files: &Vec<File>, present: &Vec<bool>) -> (r: Option<String>)
    requires
        files@.len() == present@.len(),
    ensures
        match r {
            Some(s) => exists|i: int|
                0 <= i < files@.len() && is_named(files@, present@, metadata_name(), i) && s@ == files@[i].source@
                    && forall|j: int| 0 <= j < i ==> !is_named(files@, present@, metadata_name(), j),
            None => forall|i: int| 0 <= i < files@.len() ==> !is_named(files@, present@, metadata_name(), i),
        },
{
    let name = "mod.json";
    proof {
        reveal_strlit("mod.json");
        assert(name@ =~= metadata_name());
    }
    find_file(files, present, name)
}

/// `bin/Mod/<name>-<version>.zip`.
pub open spec fn default_path_of(name: Seq<char>, version: Seq<char>) -> Seq<char> {
    seq!['b', 'i', 'n', '/', 'M', 'o', 'd', '/'] + name + seq!['-'] + version + seq!['.', 'z', 'i', 'p']
}

/// The archive path named after the project: `bin/Mod/<name>-<version>.zip`.
pub fn default_output_path(meta: &ProjectMetadata) -> (r: String)
    ensures
        r@ == default_path_of(meta.name@, meta.version@),
{
    let mut r = String::from_str("bin/Mod/");
    r.append(meta.name.as_str());
    r.append("-");
    r.append(meta.version.as_str());
    r.append(".zip");
    proof {
        reveal_strlit("bin/Mod/");
        reveal_strlit("-");
        reveal_strlit(".zip");
        assert(r@ =~= default_path_of(meta.name@, meta.version@));
    }
    r
}

/// The archive path: `output` where one is given, else the path named after
/// the project's metadata (`None` where no metadata file was found).
pub fn generate_output_path(output: &Option<String>, metadata: &Option<ProjectMetadata>) -> (r: Result<String, PackError>)
    ensures
        match output {
            Some(o) => r matches Ok(p) && p@ == o@,
            None => match metadata {
                Some(m) => r matches Ok(p) && p@ == default_path_of(m.name@, m.version@),
                None => r == Err::<String, PackError>(PackError::MissingMetadata),
            },
        },
{
    match output {
        Some(o) => Ok(o.clone()),
        None => match metadata {
            Some(m) => Ok(default_output_path(m)),
            None => Err(PackError::MissingMetadata),
        },
    }
}

/// The directory that must exist before the archive at `output` is written:
/// its parent, unless that is empty.
pub open spec fn directory_of(output: Seq<char>) -> Option<Seq<char>> {
    match parent_of(output) {
        Some(p) => if p.len() == 0 {
            None
        } else {
            Some(p)
        },
        None => None,
    }
}

/// The directory to create (with its ancestors, where it does not exist yet)
/// before the archive at `output` is written.
pub fn directory_to_create(output: &str) -> (r: Option<String>)
    ensures
        opt_view(r) == directory_of(output@),
{
    match parent(output) {
        Some(p) => {
            if p.as_str().unicode_len() == 0 {
                None
            } else {
                Some(p)
            }
        },
        None => None,
    }
}

/// The escape sequence that opens or closes a terminal hyperlink, before its target.
pub open spec fn link_marker() -> Seq<char> {
    seq!['\u{1b}', ']', '8', ';', ';']
}

/// The string terminator of a terminal escape sequence.
pub open spec fn terminator() -> Seq<char> {
    seq!['\u{1b}', '\\']
}

/// The closing message for the archive at `shown`: the path, as a terminal
/// hyperlink to the `file://` URL written with `/` separators.
pub open spec fn message_of(shown: Seq<char>) -> Seq<char> {
    seq!['P', 'a', 'c', 'k', 'e', 'd', ' ', 'm', 'o', 'd', ' ', 'a', 't', ':', ' '] + link_marker() + seq![
        'f',
        'i',
        'l',
        'e',
        ':',
        '/',
        '/',
    ] + normalized(shown) + terminator() + shown + link_marker() + terminator()
}

/// The message that names the archive written at the absolute path `shown`.
pub fn packed_message(shown: &str) -> (r: String)
    ensures
        r@ == message_of(shown@),
{
    let mut r = String::from_str("Packed mod at: ");
    r.append("\u{1b}]8;;");
    r.append("file://");
    let url = normalize_separators(shown);
    r.append(url.as_str());
    r.append("\u{1b}\\");
    r.append(shown);
    r.append("\u{1b}]8;;");
    r.append("\u{1b}\\");
    proof {
        reveal_strlit("Packed mod at: ");
        reveal_strlit("\u{1b}]8;;");
        reveal_strlit("file://");
        reveal_strlit("\u{1b}\\");
        assert(r@ =~= message_of(shown@));
    }
    r
}

} // verus!
