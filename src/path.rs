//! Paths as text. A path is a string whose components are separated by `/`;
//! these functions give it the meaning that `std::path::Path` gives such a
//! string, for paths that hold no `.` component and no doubled `/`.
use vstd::prelude::*;
use vstd::string::*;
use crate::text::{chars_of, find_last, last_index_of, lemma_last_index_of};

verus! {

/// The view of an optional string.
pub open spec fn opt_view(o: Option<String>) -> Option<Seq<char>> {
    match o {
        Some(s) => Some(s@),
        None => None,
    }
}

/// Index at which the last component of `p` starts.
pub open spec fn last_component_start(p: Seq<char>) -> int {
    last_index_of(p, '/') + 1
}

/// The text after the last `/` of `p` (all of `p` where it has none).
pub open spec fn last_component(p: Seq<char>) -> Seq<char> {
    p.subrange(last_component_start(p), p.len() as int)
}

/// `p` without the separators that end it, but for a leading `/`.
pub open spec fn trim_seps(p: Seq<char>) -> Seq<char>
    decreases p.len(),
{
    if p.len() > 1 && p.last() == '/' {
        trim_seps(p.drop_last())
    } else {
        p
    }
}

/// The text after the last `/` of `q`, unless that is empty, `.` or `..`.
pub open spec fn name_in(q: Seq<char>) -> Option<Seq<char>> {
    let n = last_component(q);
    if n.len() == 0 || n == seq!['.'] || n == seq!['.', '.'] {
        None
    } else {
        Some(n)
    }
}

/// The final component of `p`, unless that is `.` or `..`; separators that
/// end `p` are passed over.
pub open spec fn file_name_of(p: Seq<char>) -> Option<Seq<char>> {
    name_in(trim_seps(p))
}

/// The file name of `p`, or the empty path where it has none.
pub open spec fn name_or_empty(p: Seq<char>) -> Seq<char> {
    match file_name_of(p) {
        Some(n) => n,
        None => seq![],
    }
}

/// `p` without its final component (separators that end `p` passed over):
/// `None` for the empty path and for `/`.
pub open spec fn parent_of(p: Seq<char>) -> Option<Seq<char>> {
    let q = trim_seps(p);
    let i = last_index_of(q, '/');
    if q.len() == 0 || q == seq!['/'] {
        None
    } else if i < 0 {
        Some(seq![])
    } else if i == 0 {
        Some(seq!['/'])
    } else {
        Some(trim_seps(q.subrange(0, i)))
    }
}

/// `b` appended to `a` as a further component; an absolute `b` replaces `a`.
pub open spec fn join_of(a: Seq<char>, b: Seq<char>) -> Seq<char> {
    if a.len() == 0 || (b.len() > 0 && b[0] == '/') {
        b
    } else if a.last() == '/' {
        a + b
    } else {
        a + seq!['/'] + b
    }
}

/// `true` when `b` is a prefix of `p`.
pub open spec fn is_prefix(b: Seq<char>, p: Seq<char>) -> bool {
    b.len() <= p.len() && p.subrange(0, b.len() as int) == b
}

/// `p` relative to `base`: `None` unless `base` is `p` or a whole-component prefix of it.
pub open spec fn strip_prefix_of(p: Seq<char>, base: Seq<char>) -> Option<Seq<char>> {
    if base.len() == 0 {
        Some(p)
    } else if p == base {
        Some(seq![])
    } else if base.last() == '/' && is_prefix(base, p) {
        Some(p.subrange(base.len() as int, p.len() as int))
    } else if base.len() < p.len() && is_prefix(base, p) && p[base.len() as int] == '/' {
        Some(p.subrange(base.len() as int + 1, p.len() as int))
    } else {
        None
    }
}

/// Length of the file name of `p` without its extension.
pub open spec fn stem_len(n: Seq<char>) -> int {
    let d = last_index_of(n, '.');
    if d <= 0 {
        n.len() as int
    } else {
        d
    }
}

/// The extension of `p`: what follows the last `.` of its file name, where that
/// `.` is not the name's first character.
pub open spec fn extension_of(p: Seq<char>) -> Option<Seq<char>> {
    match file_name_of(p) {
        None => None,
        Some(n) => {
            let d = last_index_of(n, '.');
            if d <= 0 {
                None
            } else {
                Some(n.subrange(d + 1, n.len() as int))
            }
        },
    }
}

/// `p` with the extension of its file name replaced by `ext` (added where it
/// has none, removed where `ext` is empty); `p` itself where it has no file name.
pub open spec fn with_extension_of(p: Seq<char>, ext: Seq<char>) -> Seq<char> {
    let q = trim_seps(p);
    match name_in(q) {
        None => p,
        Some(n) => {
            let keep = last_component_start(q) + stem_len(n);
            if ext.len() == 0 {
                q.subrange(0, keep)
            } else {
                q.subrange(0, keep) + seq!['.'] + ext
            }
        },
    }
}

/// `true` when `p` names a C# source file: its extension is `cs` in any case.
pub open spec fn is_source_path(p: Seq<char>) -> bool {
    match extension_of(p) {
        Some(e) => e.len() == 2 && (e[0] == 'c' || e[0] == 'C') && (e[1] == 's' || e[1] == 'S'),
        None => false,
    }
}

/// `t` with every `\` turned into `/`.
pub open spec fn normalized(t: Seq<char>) -> Seq<char> {
    t.map_values(|c: char| if c == '\\' { '/' } else { c })
}

fn component_start(v: &Vec<char>) -> (r: usize)
    ensures
        r == last_component_start(v@),
        r <= v@.len(),
        forall|j: int| r <= j < v@.len() ==> v@[j] != '/',
{
    proof {
        lemma_last_index_of(v@, '/');
    }
    let n = v.len();
    match find_last(v, '/') {
        Some(i) => {
            assert(i < n);
            i + 1
        },
        None => 0,
    }
}

/// `p` without the separators that end it, but for a leading `/`.
pub fn trimmed_seps(p: &str) -> (r: &str)
    ensures
        r@ == trim_seps(p@),
{
    let v = chars_of(p);
    let mut e: usize = v.len();
    proof {
        assert(v@.subrange(0, e as int) =~= v@);
    }
    while e > 1 && v[e - 1] == '/'
        invariant
            e <= v@.len(),
            trim_seps(v@) == trim_seps(v@.subrange(0, e as int)),
        decreases e,
    {
        proof {
            assert(v@.subrange(0, e as int).drop_last() =~= v@.subrange(0, e - 1));
        }
        e = e - 1;
    }
    p.substring_char(0, e)
}

/// The file name of `p`.
pub fn file_name(p: &str) -> (r: Option<String>)
    ensures
        opt_view(r) == file_name_of(p@),
{
    name_in_text(trimmed_seps(p))
}

fn name_in_text(p: &str) -> (r: Option<String>)
    ensures
        opt_view(r) == name_in(p@),
{
    let v = chars_of(p);
    let n = v.len();
    let start = component_start(&v);
    let len = n - start;
    let ghost c = v@.subrange(start as int, n as int);
    if len == 0 {
        None
    } else if len == 1 && v[start] == '.' {
        assert(c =~= seq!['.']);
        None
    } else if len == 2 && v[start] == '.' && v[start + 1] == '.' {
        assert(c =~= seq!['.', '.']);
        None
    } else {
        assert(c != seq!['.'] && c != seq!['.', '.']) by {
            if len == 1 {
                assert(c[0] != seq!['.'][0]);
            }
            if len == 2 {
                assert(c[0] != seq!['.', '.'][0] || c[1] != seq!['.', '.'][1]);
            }
        }
        Some(String::from_str(p.substring_char(start, n)))
    }
}

/// The file name of `p`, or the empty string where it has none.
pub fn file_name_or_empty(p: &str) -> (r: String)
    ensures
        r@ == name_or_empty(p@),
{
    match file_name(p) {
        Some(n) => n,
        None => String::new(),
    }
}

/// `true` when `b` is a prefix of `v`.
fn has_prefix(v: &Vec<char>, b: &Vec<char>) -> (r: bool)
    ensures
        r == is_prefix(b@, v@),
{
    if b.len() > v.len() {
        return false;
    }
    let mut i: usize = 0;
    while i < b.len()
        invariant
            b@.len() <= v@.len(),
            i <= b@.len(),
            forall|j: int| 0 <= j < i ==> v@[j] == b@[j],
        decreases b@.len() - i,
    {
        if v[i] != b[i] {
            assert(v@.subrange(0, b@.len() as int)[i as int] != b@[i as int]);
            return false;
        }
        i = i + 1;
    }
    assert(v@.subrange(0, b@.len() as int) =~= b@);
    true
}

/// The parent of `p`.
pub fn parent(p: &str) -> (r: Option<String>)
    ensures
        opt_view(r) == parent_of(p@),
{
    let q = trimmed_seps(p);
    let v = chars_of(q);
    let n = v.len();
    proof {
        lemma_last_index_of(v@, '/');
    }
    if n == 0 {
        return None;
    }
    if n == 1 && v[0] == '/' {
        assert(v@ =~= seq!['/']);
        return None;
    }
    assert(v@ != seq!['/']) by {
        if n == 1 {
            assert(v@[0] != seq!['/'][0]);
        }
    }
    match find_last(&v, '/') {
        None => Some(String::new()),
        Some(i) => {
            if i == 0 {
                let r = String::from_str("/");
                proof {
                    reveal_strlit("/");
                    assert(r@ =~= seq!['/']);
                }
                Some(r)
            } else {
                Some(String::from_str(trimmed_seps(q.substring_char(0, i))))
            }
        },
    }
}

/// `b` joined onto `a`.
pub fn join(a: &str, b: &str) -> (r: String)
    ensures
        r@ == join_of(a@, b@),
{
    let na = a.unicode_len();
    let nb = b.unicode_len();
    if na == 0 || (nb > 0 && b.get_char(0) == '/') {
        return String::from_str(b);
    }
    let mut r = String::from_str(a);
    if a.get_char(na - 1) != '/' {
        r.append("/");
        proof {
            reveal_strlit("/");
        }
    }
    r.append(b);
    proof {
        reveal_strlit("/");
        assert(a@.last() == a@[na - 1]);
    }
    r
}

/// `p` relative to `base`.
pub fn strip_prefix(p: &str, base: &str) -> (r: Option<String>)
    ensures
        opt_view(r) == strip_prefix_of(p@, base@),
{
    let v = chars_of(p);
    let b = chars_of(base);
    let np = v.len();
    let nb = b.len();
    if nb == 0 {
        return Some(String::from_str(p));
    }
    let pre = has_prefix(&v, &b);
    if pre && np == nb {
        assert(v@ =~= b@) by {
            assert(v@.subrange(0, nb as int) =~= v@);
        }
        return Some(String::new());
    }
    if !pre || np == nb {
        assert(v@ != b@) by {
            if v@ == b@ {
                assert(v@.subrange(0, nb as int) =~= v@);
            }
        }
    }
    if pre && np > nb {
        assert(v@ != b@) by {
            assert(v@.len() != b@.len());
        }
    }
    if b[nb - 1] == '/' && pre {
        assert(b@.last() == b@[nb - 1]);
        return Some(String::from_str(p.substring_char(nb, np)));
    }
    assert(b@.last() == b@[nb - 1]);
    if nb < np && pre && v[nb] == '/' {
        return Some(String::from_str(p.substring_char(nb + 1, np)));
    }
    None
}

/// `p` with its extension replaced by `ext`.
pub fn with_extension(p: &str, ext: &str) -> (r: String)
    ensures
        r@ == with_extension_of(p@, ext@),
{
    let q = trimmed_seps(p);
    let v = chars_of(q);
    let n = v.len();
    let start = component_start(&v);
    match name_in_text(q) {
        None => String::from_str(p),
        Some(name) => {
            let nv = chars_of(name.as_str());
            proof {
                lemma_last_index_of(nv@, '.');
            }
            let stem = match find_last(&nv, '.') {
                Some(d) => if d == 0 { nv.len() } else { d },
                None => nv.len(),
            };
            assert(nv@ == last_component(v@));
            let keep = start + stem;
            let mut r = String::from_str(q.substring_char(0, keep));
            if ext.unicode_len() > 0 {
                r.append(".");
                r.append(ext);
                proof {
                    reveal_strlit(".");
                }
            }
            r
        },
    }
}

/// The extension of `p`.
pub fn extension(p: &str) -> (r: Option<String>)
    ensures
        opt_view(r) == extension_of(p@),
{
    match file_name(p) {
        None => None,
        Some(name) => {
            let nv = chars_of(name.as_str());
            let n = nv.len();
            proof {
                lemma_last_index_of(nv@, '.');
            }
            match find_last(&nv, '.') {
                Some(d) => {
                    if d == 0 {
                        None
                    } else {
                        Some(String::from_str(name.as_str().substring_char(d + 1, n)))
                    }
                },
                None => None,
            }
        },
    }
}

/// Tests `is_source_path`.
pub fn is_source_file(p: &str) -> (r: bool)
    ensures
        r == is_source_path(p@),
{
    match extension(p) {
        None => false,
        Some(e) => {
            let ev = chars_of(e.as_str());
            ev.len() == 2 && (ev[0] == 'c' || ev[0] == 'C') && (ev[1] == 's' || ev[1] == 'S')
        },
    }
}

/// `t` with `/` for every `\`.
pub fn normalize_separators(t: &str) -> (r: String)
    ensures
        r@ == normalized(t@),
{
    let n = t.unicode_len();
    let mut r = String::new();
    let mut i: usize = 0;
    while i < n
        invariant
            n == t@.len(),
            i <= n,
            r@ == normalized(t@.subrange(0, i as int)),
        decreases n - i,
    {
        let c = t.get_char(i);
        if c == '\\' {
            r.append("/");
        } else {
            r.append(t.substring_char(i, i + 1));
        }
        proof {
            reveal_strlit("/");
            assert(normalized(t@.subrange(0, i + 1)) =~= normalized(t@.subrange(0, i as int)) + seq![
                if c == '\\' { '/' } else { c }]);
        }
        i = i + 1;
    }
    assert(t@.subrange(0, n as int) =~= t@);
    r
}

} // verus!
