//! The catalog of files to pack, and the collector that fills it from
//! directory trees.
use vstd::prelude::*;
use crate::error::PackError;
use crate::text::same_text;
use crate::path::{
    file_name, file_name_or_empty, file_name_of, is_source_file, is_source_path, join, join_of,
    name_or_empty, normalize_separators, normalized, parent, parent_of, strip_prefix, strip_prefix_of,
};

verus! {

/// One file to pack: where its bytes are read from, and where it lands in the archive.
#[derive(Debug, Clone, PartialEq, Eq)]
pub struct File {
    pub source: String,
    pub target: String,
}

impl View for File {
    type V = (Seq<char>, Seq<char>);

    open spec fn view(&self) -> (Seq<char>, Seq<char>) {
        (self.source@, self.target@)
    }
}

/// The catalog as a sequence of `(source, target)` pairs.
pub open spec fn catalog_view(files: Seq<File>) -> Seq<(Seq<char>, Seq<char>)> {
    files.map_values(|f: File| f@)
}

/// Which non-directory entries the collector keeps.
#[derive(Debug, Clone, Copy, PartialEq, Eq)]
pub enum Filter {
    /// Every file.
    Everything,
    /// Files whose extension is `cs`, in any case.
    SourceCode,
}

impl Filter {
    pub open spec fn accepts(self, p: Seq<char>) -> bool {
        match self {
            Filter::Everything => true,
            Filter::SourceCode => is_source_path(p),
        }
    }

    /// Tests `accepts`.
    pub fn test(&self, p: &str) -> (r: bool)
        ensures
            r == self.accepts(p@),
    {
        match self {
            Filter::Everything => true,
            Filter::SourceCode => is_source_file(p),
        }
    }
}

/// A directory tree as listed from disk. A symbolic link is a `Leaf`, whatever
/// it points to.
#[derive(Debug)]
pub enum Node {
    /// Anything that is not a directory.
    Leaf,
    /// A directory and its entries, in the order the listing gave them.
    Dir(Vec<Entry>),
}

/// A named entry of a directory.
#[derive(Debug)]
pub struct Entry {
    pub name: String,
    pub node: Node,
}

/// Paths of the non-directory descendants of `node` (found at `path`) that
/// `filter` accepts, in listing order.
pub open spec fn selected(path: Seq<char>, node: Node, filter: Filter) -> Seq<Seq<char>>
    decreases node, 0int,
{
    match node {
        Node::Leaf => if filter.accepts(path) {
            seq![path]
        } else {
            seq![]
        },
        Node::Dir(ch) => selected_list(path, ch, ch@.len() as int, filter),
    }
}

/// `selected` over the first `n` entries of the directory at `path`.
pub open spec fn selected_list(path: Seq<char>, ch: Vec<Entry>, n: int, filter: Filter) -> Seq<
    Seq<char>,
>
    decreases ch, n,
{
    if n <= 0 || n > ch@.len() {
        seq![]
    } else {
        selected_list(path, ch, n - 1, filter) + selected(
            join_of(path, ch@[n - 1].name@),
            ch@[n - 1].node,
            filter,
        )
    }
}

/// Every path of `sel` lies under `base`.
pub open spec fn all_under(sel: Seq<Seq<char>>, base: Seq<char>) -> bool {
    forall|i: int| 0 <= i < sel.len() ==> (#[trigger] strip_prefix_of(sel[i], base)) is Some
}

/// The catalog entries for the paths `sel`, each targeted relative to `base`.
pub open spec fn entries_under(sel: Seq<Seq<char>>, base: Seq<char>) -> Seq<(Seq<char>, Seq<char>)> {
    sel.map_values(|l: Seq<char>| (l, strip_prefix_of(l, base)->Some_0))
}

proof fn lemma_selected_list_prefix(path: Seq<char>, ch: Vec<Entry>, n: int, m: int, filter: Filter)
    requires
        0 <= n <= m <= ch@.len(),
    ensures
        selected_list(path, ch, m, filter).subrange(0, selected_list(path, ch, n, filter).len() as int)
            == selected_list(path, ch, n, filter),
        selected_list(path, ch, n, filter).len() <= selected_list(path, ch, m, filter).len(),
    decreases m - n,
{
    if n < m {
        lemma_selected_list_prefix(path, ch, n, m - 1, filter);
        let a = selected_list(path, ch, n, filter);
        let b = selected_list(path, ch, m - 1, filter);
        let c = selected_list(path, ch, m, filter);
        assert(c.subrange(0, a.len() as int) =~= b.subrange(0, a.len() as int));
    }
}

/// Appends to `files` an entry for each non-directory descendant of `node`
/// (found at `path`) that `filter` accepts, its target relative to `base`.
/// Fails at a file that does not lie under `base`, and then leaves `files`
/// as it was.
pub fn collect_files(path: &str, node: &Node, base: &str, filter: Filter, files: &mut Vec<File>) -> (r:
    Result<(), PackError>)
    ensures
        r is Ok <==> all_under(selected(path@, *node, filter), base@),
        r is Ok ==> catalog_view(final(files)@) == catalog_view(old(files)@) + entries_under(
            selected(path@, *node, filter),
            base@,
        ),
        r is Err ==> final(files)@ == old(files)@,
        final(files)@.len() >= old(files)@.len(),
        final(files)@.subrange(0, old(files)@.len() as int) == old(files)@,
        r matches Err(e) ==> e is OutsideBase,
{
    let n0 = files.len();
    let r = collect_into(path, node, base, filter, files);
    if r.is_err() {
        files.truncate(n0);
        assert(files@.subrange(0, n0 as int) =~= files@);
    }
    r
}

fn collect_into(path: &str, node: &Node, base: &str, filter: Filter, files: &mut Vec<File>) -> (r:
    Result<(), PackError>)
    ensures
        r is Ok <==> all_under(selected(path@, *node, filter), base@),
        r is Ok ==> catalog_view(final(files)@) == catalog_view(old(files)@) + entries_under(
            selected(path@, *node, filter),
            base@,
        ),
        final(files)@.len() >= old(files)@.len(),
        final(files)@.subrange(0, old(files)@.len() as int) == old(files)@,
        r matches Err(e) ==> e is OutsideBase,
    decreases node,
{
    match node {
        Node::Leaf => {
            if filter.test(path) {
                match strip_prefix(path, base) {
                    Some(target) => {
                        let ghost before = files@;
                        files.push(File { source: String::from_str(path), target });
                        assert(files@.subrange(0, before.len() as int) =~= before);
                        assert(catalog_view(files@) =~= catalog_view(before) + entries_under(
                            seq![path@],
                            base@,
                        ));
                        Ok(())
                    },
                    None => {
                        assert(strip_prefix_of(seq![path@][0], base@) is None);
                        Err(PackError::OutsideBase { path: String::from_str(path), base: String::from_str(base) })
                    },
                }
            } else {
                assert(catalog_view(files@) =~= catalog_view(files@) + entries_under(seq![], base@));
                Ok(())
            }
        },
        Node::Dir(ch) => {
            let n = ch.len();
            let mut i: usize = 0;
            assert(catalog_view(files@) =~= catalog_view(old(files)@) + entries_under(seq![], base@));
            while i < n
                invariant
                    n == ch@.len(),
                    i <= n,
                    *node == Node::Dir(*ch),
                    files@.len() >= old(files)@.len(),
                    files@.subrange(0, old(files)@.len() as int) == old(files)@,
                    all_under(selected_list(path@, *ch, i as int, filter), base@),
                    catalog_view(files@) == catalog_view(old(files)@) + entries_under(
                        selected_list(path@, *ch, i as int, filter),
                        base@,
                    ),
                decreases n - i,
            {
                let child = join(path, ch[i].name.as_str());
                let ghost before = files@;
                let ghost a = selected_list(path@, *ch, i as int, filter);
                let ghost b = selected(child@, ch@[i as int].node, filter);
                assert(selected_list(path@, *ch, i + 1, filter) == a + b);
                proof {
                    assert(*node == Node::Dir(*ch));
                    assert(decreases_to!(*node => (*node)->Dir_0));
                    assert(decreases_to!(*ch => ch[i as int]));
                    assert(decreases_to!(ch[i as int] => ch[i as int].node));
                    assert(decreases_to!(*node => ch[i as int].node));
                }
                let res = collect_into(child.as_str(), &ch[i].node, base, filter, files);
                assert(files@.subrange(0, old(files)@.len() as int) =~= files@.subrange(0, before.len() as int).subrange(0, old(files)@.len() as int));
                match res {
                    Ok(()) => {
                        assert(entries_under(a + b, base@) =~= entries_under(a, base@) + entries_under(b, base@));
                        assert forall|k: int| 0 <= k < (a + b).len() implies (#[trigger] strip_prefix_of((a + b)[k], base@)) is Some by {
                            if k >= a.len() {
                                assert((a + b)[k] == b[k - a.len()]);
                            }
                        }
                    },
                    Err(e) => {
                        proof {
                            lemma_selected_list_prefix(path@, *ch, i + 1, n as int, filter);
                            let k = choose|k: int| 0 <= k < b.len() && !(strip_prefix_of(b[k], base@) is Some);
                            let all = selected(path@, *node, filter);
                            assert(all == selected_list(path@, *ch, n as int, filter));
                            assert(all.subrange(0, (a + b).len() as int)[a.len() + k] == (a + b)[a.len() + k]);
                            assert(all[a.len() + k] == (a + b)[a.len() + k]);
                            assert(!(strip_prefix_of(all[a.len() + k], base@) is Some));
                        }
                        return Err(e);
                    },
                }
                i = i + 1;
            }
            Ok(())
        },
    }
}

/// The files below `node` (found at `path`) that `filter` accepts, as a set:
/// the union of what each entry of a directory holds.
pub open spec fn accepted_files(path: Seq<char>, node: Node, filter: Filter) -> Set<Seq<char>>
    decreases node, 0int,
{
    match node {
        Node::Leaf => if filter.accepts(path) {
            set![path]
        } else {
            Set::empty()
        },
        Node::Dir(ch) => accepted_files_list(path, ch, ch@.len() as int, filter),
    }
}

/// `accepted_files` over the first `n` entries of the directory at `path`.
pub open spec fn accepted_files_list(path: Seq<char>, ch: Vec<Entry>, n: int, filter: Filter) -> Set<Seq<char>>
    decreases ch, n,
{
    if n <= 0 || n > ch@.len() {
        Set::empty()
    } else {
        accepted_files_list(path, ch, n - 1, filter).union(
            accepted_files(join_of(path, ch@[n - 1].name@), ch@[n - 1].node, filter),
        )
    }
}

proof fn lemma_concat_to_set(a: Seq<Seq<char>>, b: Seq<Seq<char>>)
    ensures
        (a + b).to_set() == a.to_set().union(b.to_set()),
{
    assert forall|x: Seq<char>| (a + b).contains(x) <==> a.contains(x) || b.contains(x) by {
        if (a + b).contains(x) {
            let k = choose|k: int| 0 <= k < (a + b).len() && (a + b)[k] == x;
            if k >= a.len() {
                assert(b[k - a.len()] == x);
            }
        }
        if a.contains(x) {
            let k = choose|k: int| 0 <= k < a.len() && a[k] == x;
            assert((a + b)[k] == x);
        }
        if b.contains(x) {
            let k = choose|k: int| 0 <= k < b.len() && b[k] == x;
            assert((a + b)[a.len() + k] == x);
        }
    }
    assert((a + b).to_set() =~= a.to_set().union(b.to_set()));
}

proof fn lemma_selected_set(path: Seq<char>, node: Node, filter: Filter)
    ensures
        selected(path, node, filter).to_set() == accepted_files(path, node, filter),
    decreases node, 0int,
{
    match node {
        Node::Leaf => {
            if filter.accepts(path) {
                let one = seq![path];
                assert(one[0] == path);
                assert(one.contains(path));
                assert forall|x: Seq<char>| one.contains(x) implies x == path by {
                    let k = choose|k: int| 0 <= k < one.len() && one[k] == x;
                    assert(k == 0);
                }
                assert(one.to_set() =~= set![path]);
            } else {
                assert(Seq::<Seq<char>>::empty().to_set() =~= Set::empty());
            }
        },
        Node::Dir(ch) => {
            lemma_selected_list_set(path, ch, ch@.len() as int, filter);
        },
    }
}

proof fn lemma_selected_list_set(path: Seq<char>, ch: Vec<Entry>, n: int, filter: Filter)
    ensures
        selected_list(path, ch, n, filter).to_set() == accepted_files_list(path, ch, n, filter),
    decreases ch, n,
{
    if n <= 0 || n > ch@.len() {
        assert(Seq::<Seq<char>>::empty().to_set() =~= Set::empty());
    } else {
        lemma_selected_list_set(path, ch, n - 1, filter);
        assert(decreases_to!(ch => ch[n - 1]));
        assert(decreases_to!(ch[n - 1] => ch[n - 1].node));
        let q = join_of(path, ch@[n - 1].name@);
        lemma_selected_set(q, ch@[n - 1].node, filter);
        lemma_concat_to_set(selected_list(path, ch, n - 1, filter), selected(q, ch@[n - 1].node, filter));
    }
}

proof fn lemma_accepted_list_members(path: Seq<char>, ch: Vec<Entry>, n: int, filter: Filter, l: Seq<char>)
    requires
        0 <= n <= ch@.len(),
    ensures
        accepted_files_list(path, ch, n, filter).contains(l) <==> exists|i: int|
            0 <= i < n && #[trigger] accepted_files(join_of(path, ch@[i].name@), ch@[i].node, filter).contains(l),
    decreases n,
{
    if n > 0 {
        lemma_accepted_list_members(path, ch, n - 1, filter, l);
        let last = accepted_files(join_of(path, ch@[n - 1].name@), ch@[n - 1].node, filter);
        if accepted_files_list(path, ch, n, filter).contains(l) {
            if !accepted_files_list(path, ch, n - 1, filter).contains(l) {
                assert(last.contains(l));
            }
        }
        if exists|i: int| 0 <= i < n && #[trigger] accepted_files(join_of(path, ch@[i].name@), ch@[i].node, filter).contains(l) {
            let i = choose|i: int| 0 <= i < n && #[trigger] accepted_files(join_of(path, ch@[i].name@), ch@[i].node, filter).contains(l);
            if i < n - 1 {
                assert(accepted_files_list(path, ch, n - 1, filter).contains(l));
            }
        }
    }
}

/// Listing a directory's entries in another order, or listing one of them
/// twice, collects the same set of files.
pub proof fn lemma_listing_order(path: Seq<char>, a: Vec<Entry>, b: Vec<Entry>, filter: Filter)
    requires
        a@.to_set() == b@.to_set(),
    ensures
        accepted_files(path, Node::Dir(a), filter) == accepted_files(path, Node::Dir(b), filter),
{
    assert forall|l: Seq<char>| accepted_files(path, Node::Dir(a), filter).contains(l) implies accepted_files(
        path,
        Node::Dir(b),
        filter,
    ).contains(l) by {
        lemma_accepted_list_members(path, a, a@.len() as int, filter, l);
        lemma_accepted_list_members(path, b, b@.len() as int, filter, l);
        let i = choose|i: int| 0 <= i < a@.len() && #[trigger] accepted_files(join_of(path, a@[i].name@), a@[i].node, filter).contains(l);
        assert(a@.to_set().contains(a@[i]));
        assert(b@.contains(a@[i]));
        let j = choose|j: int| 0 <= j < b@.len() && b@[j] == a@[i];
        assert(accepted_files(join_of(path, b@[j].name@), b@[j].node, filter).contains(l));
    }
    assert forall|l: Seq<char>| accepted_files(path, Node::Dir(b), filter).contains(l) implies accepted_files(
        path,
        Node::Dir(a),
        filter,
    ).contains(l) by {
        lemma_accepted_list_members(path, a, a@.len() as int, filter, l);
        lemma_accepted_list_members(path, b, b@.len() as int, filter, l);
        let j = choose|j: int| 0 <= j < b@.len() && #[trigger] accepted_files(join_of(path, b@[j].name@), b@[j].node, filter).contains(l);
        assert(b@.to_set().contains(b@[j]));
        assert(a@.contains(b@[j]));
        let i = choose|i: int| 0 <= i < a@.len() && a@[i] == b@[j];
        assert(accepted_files(join_of(path, a@[i].name@), a@[i].node, filter).contains(l));
    }
    assert(accepted_files(path, Node::Dir(a), filter) =~= accepted_files(path, Node::Dir(b), filter));
}

/// `true` when `t` is a relative path that names something: not empty, and
/// not starting with `/`.
pub open spec fn is_component_path(t: Seq<char>) -> bool {
    t.len() > 0 && t[0] != '/'
}

/// `true` when every entry name in the tree is a relative path that names
/// something, as holds of every listing read from disk.
pub open spec fn names_relative(node: Node) -> bool
    decreases node, 0int,
{
    match node {
        Node::Leaf => true,
        Node::Dir(ch) => names_relative_list(ch, ch@.len() as int),
    }
}

/// `names_relative` over the first `n` entries of a directory.
pub open spec fn names_relative_list(ch: Vec<Entry>, n: int) -> bool
    decreases ch, n,
{
    if n <= 0 || n > ch@.len() {
        true
    } else {
        names_relative_list(ch, n - 1) && is_component_path(ch@[n - 1].name@) && names_relative(
            ch@[n - 1].node,
        )
    }
}

/// `l` lies strictly below `path`: it is `path` joined with a relative path
/// `t`, and `t` is what stripping `path` from `l` leaves.
pub open spec fn joined_below(path: Seq<char>, l: Seq<char>) -> bool {
    strip_prefix_of(l, path) matches Some(t) && is_component_path(t) && join_of(path, t) == l
}

proof fn lemma_strip_join(path: Seq<char>, t: Seq<char>)
    requires
        is_component_path(t),
    ensures
        joined_below(path, join_of(path, t)),
        strip_prefix_of(join_of(path, t), path) == Some(t),
{
    let l = join_of(path, t);
    if path.len() > 0 {
        assert(l.subrange(0, path.len() as int) =~= path);
        assert(l != path) by {
            assert(l.len() > path.len());
        }
        if path.last() == '/' {
            assert(l.subrange(path.len() as int, l.len() as int) =~= t);
        } else {
            assert(l[path.len() as int] == '/');
            assert(l.subrange(path.len() as int + 1, l.len() as int) =~= t);
        }
    }
}

proof fn lemma_join_assoc(path: Seq<char>, a: Seq<char>, b: Seq<char>)
    requires
        is_component_path(a),
        is_component_path(b),
    ensures
        is_component_path(join_of(a, b)),
        join_of(join_of(path, a), b) == join_of(path, join_of(a, b)),
{
    let ab = join_of(a, b);
    assert(ab[0] == a[0]);
    let pa = join_of(path, a);
    assert(pa.last() == a.last());
    if path.len() == 0 {
    } else if path.last() == '/' {
        assert(join_of(pa, b) =~= join_of(path, ab));
    } else {
        assert(join_of(pa, b) =~= join_of(path, ab));
    }
}

proof fn lemma_selected_joined(path: Seq<char>, node: Node, filter: Filter)
    requires
        names_relative(node),
    ensures
        node is Dir ==> forall|k: int| 0 <= k < selected(path, node, filter).len() ==> joined_below(path, #[trigger] selected(path, node, filter)[k]),
    decreases node, 0int,
{
    match node {
        Node::Leaf => {},
        Node::Dir(ch) => {
            lemma_selected_list_joined(path, ch, ch@.len() as int, filter);
            assert(selected(path, node, filter) == selected_list(path, ch, ch@.len() as int, filter));
        },
    }
}

proof fn lemma_selected_list_joined(path: Seq<char>, ch: Vec<Entry>, n: int, filter: Filter)
    requires
        names_relative_list(ch, n),
    ensures
        forall|k: int| 0 <= k < selected_list(path, ch, n, filter).len() ==> joined_below(path, #[trigger] selected_list(path, ch, n, filter)[k]),
    decreases ch, n,
{
    if n > 0 && n <= ch@.len() {
        lemma_selected_list_joined(path, ch, n - 1, filter);
        let name = ch@[n - 1].name@;
        let child = ch@[n - 1].node;
        let q = join_of(path, name);
        assert(decreases_to!(ch => ch[n - 1]));
        assert(decreases_to!(ch[n - 1] => ch[n - 1].node));
        lemma_selected_joined(q, child, filter);
        lemma_strip_join(path, name);
        let a = selected_list(path, ch, n - 1, filter);
        let b = selected(q, child, filter);
        assert forall|k: int| 0 <= k < (a + b).len() implies joined_below(path, #[trigger] (a + b)[k]) by {
            if k >= a.len() {
                let l = b[k - a.len()];
                assert((a + b)[k] == l);
                if child is Leaf {
                    assert(b =~= seq![q]);
                } else {
                    assert(joined_below(q, l));
                    let t2 = strip_prefix_of(l, q)->Some_0;
                    lemma_join_assoc(path, name, t2);
                    lemma_strip_join(path, join_of(name, t2));
                }
            }
        }
    }
}

/// `true` when `t` is one path component: not empty and without `/`.
pub open spec fn is_plain_name(t: Seq<char>) -> bool {
    t.len() > 0 && forall|i: int| 0 <= i < t.len() ==> t[i] != '/'
}

/// `true` when every directory of the tree lists distinct names, each one
/// path component, as a listing read from disk does.
pub open spec fn names_plain(node: Node) -> bool
    decreases node, 0int,
{
    match node {
        Node::Leaf => true,
        Node::Dir(ch) => names_plain_list(ch, ch@.len() as int),
    }
}

/// `names_plain` over the first `n` entries of a directory.
pub open spec fn names_plain_list(ch: Vec<Entry>, n: int) -> bool
    decreases ch, n,
{
    if n <= 0 || n > ch@.len() {
        true
    } else {
        names_plain_list(ch, n - 1) && is_plain_name(ch@[n - 1].name@) && (forall|i: int|
            0 <= i < n - 1 ==> (#[trigger] ch@[i]).name@ != ch@[n - 1].name@) && names_plain(ch@[n - 1].node)
    }
}

/// The text of `t` up to its first `/`.
pub open spec fn first_component(t: Seq<char>) -> Seq<char>
    decreases t.len(),
{
    if t.len() == 0 || t[0] == '/' {
        seq![]
    } else {
        seq![t[0]] + first_component(t.drop_first())
    }
}

/// `true` when no path occurs twice in `s`.
pub open spec fn no_repeats(s: Seq<Seq<char>>) -> bool {
    forall|i: int, j: int| 0 <= i < j < s.len() ==> s[i] != s[j]
}

proof fn lemma_first_component(name: Seq<char>, r: Seq<char>)
    requires
        forall|i: int| 0 <= i < name.len() ==> name[i] != '/',
    ensures
        first_component(name) == name,
        first_component(name + seq!['/'] + r) == name,
    decreases name.len(),
{
    if name.len() > 0 {
        let rest = name.drop_first();
        assert forall|i: int| 0 <= i < rest.len() implies rest[i] != '/' by {
            assert(rest[i] == name[i + 1]);
        }
        lemma_first_component(rest, r);
        assert((name + seq!['/'] + r).drop_first() =~= rest + seq!['/'] + r);
        assert(seq![name[0]] + rest =~= name);
    } else {
        assert(name + seq!['/'] + r =~= seq!['/'] + r);
    }
}

proof fn lemma_selected_once(path: Seq<char>, node: Node, filter: Filter)
    requires
        names_relative(node),
        names_plain(node),
    ensures
        no_repeats(selected(path, node, filter)),
    decreases node, 0int,
{
    match node {
        Node::Leaf => {},
        Node::Dir(ch) => {
            lemma_selected_list_once(path, ch, ch@.len() as int, filter);
            assert(selected(path, node, filter) == selected_list(path, ch, ch@.len() as int, filter));
        },
    }
}

proof fn lemma_selected_list_once(path: Seq<char>, ch: Vec<Entry>, n: int, filter: Filter)
    requires
        names_relative_list(ch, n),
        names_plain_list(ch, n),
        0 <= n <= ch@.len(),
    ensures
        no_repeats(selected_list(path, ch, n, filter)),
        forall|k: int| 0 <= k < selected_list(path, ch, n, filter).len() ==> exists|i: int| 0 <= i < n
            && first_component(strip_prefix_of(#[trigger] selected_list(path, ch, n, filter)[k], path)->Some_0)
                == ch@[i].name@,
    decreases ch, n,
{
    lemma_selected_list_joined(path, ch, n, filter);
    if n > 0 {
        lemma_selected_list_once(path, ch, n - 1, filter);
        let name = ch@[n - 1].name@;
        let child = ch@[n - 1].node;
        let q = join_of(path, name);
        assert(decreases_to!(ch => ch[n - 1]));
        assert(decreases_to!(ch[n - 1] => ch[n - 1].node));
        lemma_selected_once(q, child, filter);
        lemma_selected_joined(q, child, filter);
        lemma_strip_join(path, name);
        let a = selected_list(path, ch, n - 1, filter);
        let b = selected(q, child, filter);
        assert forall|k: int| 0 <= k < b.len() implies first_component(strip_prefix_of(#[trigger] b[k], path)->Some_0) == name by {
            let l = b[k];
            if child is Leaf {
                assert(b =~= seq![q]);
                lemma_first_component(name, seq![]);
            } else {
                assert(joined_below(q, l));
                let t2 = strip_prefix_of(l, q)->Some_0;
                lemma_join_assoc(path, name, t2);
                lemma_strip_join(path, join_of(name, t2));
                assert(is_plain_name(name));
                assert(name.last() == name[name.len() - 1]);
                assert(name.last() != '/');
                assert(join_of(name, t2) == name + seq!['/'] + t2);
                lemma_first_component(name, t2);
            }
        }
        assert forall|i: int, j: int| 0 <= i < j < (a + b).len() implies (a + b)[i] != (a + b)[j] by {
            if j >= a.len() && i < a.len() {
                let x = (a + b)[i];
                assert(x == a[i]);
                let m = choose|m: int| 0 <= m < n - 1 && first_component(strip_prefix_of(a[i], path)->Some_0) == ch@[m].name@;
                assert((a + b)[j] == b[j - a.len()]);
                assert(first_component(strip_prefix_of(b[j - a.len()], path)->Some_0) == name);
            } else if i >= a.len() {
                assert((a + b)[i] == b[i - a.len()]);
                assert((a + b)[j] == b[j - a.len()]);
            } else {
                assert((a + b)[i] == a[i]);
                assert((a + b)[j] == a[j]);
            }
        }
        assert forall|k: int| 0 <= k < (a + b).len() implies exists|i: int| 0 <= i < n
            && first_component(strip_prefix_of(#[trigger] (a + b)[k], path)->Some_0) == ch@[i].name@ by {
            if k >= a.len() {
                assert((a + b)[k] == b[k - a.len()]);
                assert(first_component(strip_prefix_of(b[k - a.len()], path)->Some_0) == ch@[n - 1].name@);
            } else {
                assert((a + b)[k] == a[k]);
                let m = choose|m: int| 0 <= m < n - 1 && first_component(strip_prefix_of(a[k], path)->Some_0) == ch@[m].name@;
            }
        }
    }
}

/// The entries that collecting a directory tree with its own root as base
/// adds: collecting succeeds, the sources are exactly the set of files below
/// the root that the filter accepts, whatever order the directories list them
/// in, and each source is the root joined with its target, a relative path.
/// Where each directory lists distinct names, each file comes once.
pub proof fn lemma_collect_relative(root: Seq<char>, children: Vec<Entry>, filter: Filter)
    requires
        names_relative(Node::Dir(children)),
    ensures
        all_under(selected(root, Node::Dir(children), filter), root),
        names_plain(Node::Dir(children)) ==> no_repeats(selected(root, Node::Dir(children), filter)),
        entries_under(selected(root, Node::Dir(children), filter), root).map_values(
            |e: (Seq<char>, Seq<char>)| e.0,
        ).to_set() == accepted_files(root, Node::Dir(children), filter),
        forall|k: int| 0 <= k < selected(root, Node::Dir(children), filter).len()
            ==> is_component_path(#[trigger] entries_under(selected(root, Node::Dir(children), filter), root)[k].1)
                && entries_under(selected(root, Node::Dir(children), filter), root)[k].0
                == join_of(root, entries_under(selected(root, Node::Dir(children), filter), root)[k].1),
{
    let node = Node::Dir(children);
    let sel = selected(root, node, filter);
    lemma_selected_joined(root, node, filter);
    lemma_selected_set(root, node, filter);
    if names_plain(node) {
        lemma_selected_once(root, node, filter);
    }
    assert(entries_under(sel, root).map_values(|e: (Seq<char>, Seq<char>)| e.0) =~= sel);
    assert forall|k: int| 0 <= k < sel.len() implies (#[trigger] strip_prefix_of(sel[k], root)) is Some by {
        assert(joined_below(root, sel[k]));
    }
    assert forall|k: int| 0 <= k < sel.len() implies is_component_path(#[trigger] entries_under(sel, root)[k].1)
        && entries_under(sel, root)[k].0 == join_of(root, entries_under(sel, root)[k].1) by {
        assert(joined_below(root, sel[k]));
    }
}

/// Collecting any tree with its own root as base succeeds.
pub proof fn lemma_collect_own_root(root: Seq<char>, node: Node, filter: Filter)
    requires
        names_relative(node),
    ensures
        all_under(selected(root, node, filter), root),
{
    let sel = selected(root, node, filter);
    lemma_selected_joined(root, node, filter);
    assert forall|k: int| 0 <= k < sel.len() implies (#[trigger] strip_prefix_of(sel[k], root)) is Some by {
        if node is Leaf {
            assert(sel =~= seq![root]);
        } else {
            assert(joined_below(root, sel[k]));
        }
    }
}

/// The entries that the asset directories `roots` give, each listed by the
/// matching element of `listings` (`None` where it does not exist), with every
/// file targeted relative to its own asset directory.
pub open spec fn asset_entries(roots: Seq<String>, listings: Seq<Option<Node>>, n: int) -> Seq<
    (Seq<char>, Seq<char>),
>
    decreases n,
{
    if n <= 0 {
        seq![]
    } else {
        asset_entries(roots, listings, n - 1) + match listings[n - 1] {
            Some(t) => entries_under(selected(roots[n - 1]@, t, Filter::Everything), roots[n - 1]@),
            None => seq![],
        }
    }
}

/// Every listed tree has names that start with no `/`.
pub open spec fn listings_relative(listings: Seq<Option<Node>>) -> bool {
    forall|i: int| 0 <= i < listings.len() ==> match #[trigger] listings[i] {
        Some(t) => names_relative(t),
        None => true,
    }
}

/// The entries for the extra paths: each lands at the archive root under its file name.
pub open spec fn extra_entries(extras: Seq<String>) -> Seq<(Seq<char>, Seq<char>)> {
    extras.map_values(|s: String| (s@, name_or_empty(s@)))
}

/// Appends every file of each asset directory (listed by the matching element
/// of `listings`, `None` for one that does not exist), targeted relative to
/// that directory, then an entry for each extra path at its file name.
pub fn collect_assets_and_include(
    assets: &Vec<String>,
    listings: &Vec<Option<Node>>,
    extras: &Vec<String>,
    files: &mut Vec<File>,
) -> (r: Result<(), PackError>)
    requires
        assets@.len() == listings@.len(),
    ensures
        listings_relative(listings@) ==> r is Ok,
        r is Ok <==> forall|i: int| 0 <= i < assets@.len() ==> match #[trigger] listings@[i] {
            Some(t) => all_under(selected(assets@[i]@, t, Filter::Everything), assets@[i]@),
            None => true,
        },
        r is Ok ==> catalog_view(final(files)@) == catalog_view(old(files)@) + asset_entries(
            assets@,
            listings@,
            assets@.len() as int,
        ) + extra_entries(extras@),
        final(files)@.len() >= old(files)@.len(),
        final(files)@.subrange(0, old(files)@.len() as int) == old(files)@,
{
    let n = assets.len();
    let mut i: usize = 0;
    while i < n
        invariant
            n == assets@.len(),
            n == listings@.len(),
            i <= n,
            forall|j: int| 0 <= j < i ==> match #[trigger] listings@[j] {
                Some(t) => all_under(selected(assets@[j]@, t, Filter::Everything), assets@[j]@),
                None => true,
            },
            catalog_view(files@) == catalog_view(old(files)@) + asset_entries(assets@, listings@, i as int),
            files@.len() >= old(files)@.len(),
            files@.subrange(0, old(files)@.len() as int) == old(files)@,
        decreases n - i,
    {
        let ghost before = files@;
        match &listings[i] {
            Some(tree) => {
                let root = assets[i].as_str();
                proof {
                    if names_relative(*tree) {
                        lemma_collect_own_root(root@, *tree, Filter::Everything);
                    }
                }
                let res = collect_files(root, tree, root, Filter::Everything, files);
                assert(files@.subrange(0, old(files)@.len() as int) =~= files@.subrange(0, before.len() as int).subrange(0, old(files)@.len() as int));
                if res.is_err() {
                    proof {
                        if listings_relative(listings@) {
                            assert(names_relative(*tree));
                            lemma_collect_own_root(root@, *tree, Filter::Everything);
                        }
                    }
                    return res;
                }
                assert(catalog_view(files@) == catalog_view(old(files)@) + asset_entries(assets@, listings@, i + 1));
            },
            None => {
                assert(asset_entries(assets@, listings@, i + 1) =~= asset_entries(assets@, listings@, i as int));
            },
        }
        i = i + 1;
    }
    let m = extras.len();
    let mut j: usize = 0;
    let ghost mid = files@;
    while j < m
        invariant
            m == extras@.len(),
            j <= m,
            catalog_view(files@) == catalog_view(mid) + extra_entries(extras@.subrange(0, j as int)),
            files@.len() >= old(files)@.len(),
            files@.subrange(0, old(files)@.len() as int) == old(files)@,
        decreases m - j,
    {
        let source = extras[j].clone();
        let target = file_name_or_empty(extras[j].as_str());
        let ghost before = files@;
        files.push(File { source, target });
        assert(files@.subrange(0, old(files)@.len() as int) =~= before.subrange(0, old(files)@.len() as int));
        assert(catalog_view(files@) =~= catalog_view(before) + seq![(extras@[j as int]@, name_or_empty(extras@[j as int]@))]);
        assert(extra_entries(extras@.subrange(0, j + 1)) =~= extra_entries(extras@.subrange(0, j as int)) + seq![(extras@[j as int]@, name_or_empty(extras@[j as int]@))]);
        assert(catalog_view(files@) =~= catalog_view(mid) + extra_entries(extras@.subrange(0, j + 1)));
        j = j + 1;
    }
    assert(extras@.subrange(0, m as int) =~= extras@);
    Ok(())
}

/// The base that a source directory's files are targeted relative to: its
/// parent, so that the directory's own name stays in the archive, or `.`
/// where it has none.
pub open spec fn source_base(dir: Seq<char>) -> Seq<char> {
    match parent_of(dir) {
        Some(p) => p,
        None => seq!['.'],
    }
}

/// The entries that the source directories `dirs` give (listed by the matching
/// element of `listings`): their C# source files, each targeted relative to
/// the directory's parent.
pub open spec fn source_entries(dirs: Seq<String>, listings: Seq<Option<Node>>, n: int) -> Seq<
    (Seq<char>, Seq<char>),
>
    decreases n,
{
    if n <= 0 {
        seq![]
    } else {
        source_entries(dirs, listings, n - 1) + match listings[n - 1] {
            Some(t) => entries_under(selected(dirs[n - 1]@, t, Filter::SourceCode), source_base(dirs[n - 1]@)),
            None => seq![],
        }
    }
}

/// Appends the C# source files of each source directory that exists (listed
/// by the matching element of `listings`, `None` for one that does not), each
/// targeted relative to that directory's parent.
pub fn collect_sources(sources: &Vec<String>, listings: &Vec<Option<Node>>, files: &mut Vec<File>) -> (r:
    Result<(), PackError>)
    requires
        sources@.len() == listings@.len(),
    ensures
        r is Ok <==> forall|i: int| 0 <= i < sources@.len() ==> match #[trigger] listings@[i] {
            Some(t) => all_under(selected(sources@[i]@, t, Filter::SourceCode), source_base(sources@[i]@)),
            None => true,
        },
        r is Ok ==> catalog_view(final(files)@) == catalog_view(old(files)@) + source_entries(
            sources@,
            listings@,
            sources@.len() as int,
        ),
        final(files)@.len() >= old(files)@.len(),
        final(files)@.subrange(0, old(files)@.len() as int) == old(files)@,
{
    let n = sources.len();
    let mut i: usize = 0;
    while i < n
        invariant
            n == sources@.len(),
            n == listings@.len(),
            i <= n,
            forall|j: int| 0 <= j < i ==> match #[trigger] listings@[j] {
                Some(t) => all_under(selected(sources@[j]@, t, Filter::SourceCode), source_base(sources@[j]@)),
                None => true,
            },
            catalog_view(files@) == catalog_view(old(files)@) + source_entries(sources@, listings@, i as int),
            files@.len() >= old(files)@.len(),
            files@.subrange(0, old(files)@.len() as int) == old(files)@,
        decreases n - i,
    {
        let ghost before = files@;
        match &listings[i] {
            Some(tree) => {
                let dir = sources[i].as_str();
                let base = match parent(dir) {
                    Some(p) => p,
                    None => {
                        let dot = String::from_str(".");
                        proof {
                            reveal_strlit(".");
                            assert(dot@ =~= seq!['.']);
                        }
                        dot
                    },
                };
                let res = collect_files(dir, tree, base.as_str(), Filter::SourceCode, files);
                assert(files@.subrange(0, old(files)@.len() as int) =~= files@.subrange(0, before.len() as int).subrange(0, old(files)@.len() as int));
                if res.is_err() {
                    return res;
                }
            },
            None => {
                assert(source_entries(sources@, listings@, i + 1) =~= source_entries(sources@, listings@, i as int));
            },
        }
        i = i + 1;
    }
    Ok(())
}

/// `true` when entry `i` of the catalog is present on disk and its source has
/// the file name `name`.
pub open spec fn is_named(files: Seq<File>, present: Seq<bool>, name: Seq<char>, i: int) -> bool {
    present[i] && file_name_of(files[i].source@) == Some(name)
}

/// The source of the first entry that is present on disk (as `present` says,
/// one flag per entry) and whose file name is `name`.
pub fn find_file(files: &Vec<File>, present: &Vec<bool>, name: &str) -> (r: Option<String>)
    requires
        files@.len() == present@.len(),
    ensures
        match r {
            Some(s) => exists|i: int|
                0 <= i < files@.len() && is_named(files@, present@, name@, i) && s@ == files@[i].source@
                    && forall|j: int| 0 <= j < i ==> !is_named(files@, present@, name@, j),
            None => forall|i: int| 0 <= i < files@.len() ==> !is_named(files@, present@, name@, i),
        },
{
    let n = files.len();
    let mut i: usize = 0;
    while i < n
        invariant
            n == files@.len(),
            n == present@.len(),
            i <= n,
            forall|j: int| 0 <= j < i ==> !is_named(files@, present@, name@, j),
        decreases n - i,
    {
        if present[i] {
            match file_name(files[i].source.as_str()) {
                Some(f) => {
                    if same_text(f.as_str(), name) {
                        let ghost k = i as int;
                        assert(is_named(files@, present@, name@, k));
                        return Some(files[i].source.clone());
                    }
                },
                None => {},
            }
        }
        i = i + 1;
    }
    None
}

/// What the archive holds for the catalog `cat`, whose `i`-th source is a
/// regular file where `regular[i]`: each such entry in catalog order, its
/// target written with `/` separators.
pub open spec fn plan_of(cat: Seq<(Seq<char>, Seq<char>)>, regular: Seq<bool>, n: int) -> Seq<
    (Seq<char>, Seq<char>),
>
    decreases n,
{
    if n <= 0 {
        seq![]
    } else {
        plan_of(cat, regular, n - 1) + if regular[n - 1] {
            seq![(cat[n - 1].0, normalized(cat[n - 1].1))]
        } else {
            seq![]
        }
    }
}

/// The entries the archive is written from: those of `files` whose source is a
/// regular file (`regular`, one flag per entry; `false` for one that is missing
/// or a directory), in catalog order, with targets normalized to `/`.
pub fn archive_plan(files: &Vec<File>, regular: &Vec<bool>) -> (r: Vec<File>)
    requires
        files@.len() == regular@.len(),
    ensures
        catalog_view(r@) == plan_of(catalog_view(files@), regular@, files@.len() as int),
{
    let n = files.len();
    let mut r: Vec<File> = Vec::new();
    let mut i: usize = 0;
    while i < n
        invariant
            n == files@.len(),
            n == regular@.len(),
            i <= n,
            catalog_view(r@) == plan_of(catalog_view(files@), regular@, i as int),
        decreases n - i,
    {
        let ghost before = r@;
        if regular[i] {
            let source = files[i].source.clone();
            let target = normalize_separators(files[i].target.as_str());
            r.push(File { source, target });
        }
        assert(catalog_view(r@) =~= plan_of(catalog_view(files@), regular@, i + 1));
        i = i + 1;
    }
    r
}

/// Writing the archive twice from an unchanged catalog, on a file system whose
/// regular files are unchanged, writes the same entries in the same order;
/// and planning from an already planned catalog changes nothing.
pub proof fn lemma_plan_repeatable(
    cat: Seq<(Seq<char>, Seq<char>)>,
    regular: Seq<bool>,
    cat2: Seq<(Seq<char>, Seq<char>)>,
    regular2: Seq<bool>,
)
    requires
        cat == cat2,
        regular == regular2,
        cat.len() == regular.len(),
    ensures
        plan_of(cat, regular, cat.len() as int) == plan_of(cat2, regular2, cat2.len() as int),
        plan_of(
            plan_of(cat, regular, cat.len() as int),
            Seq::new(plan_of(cat, regular, cat.len() as int).len(), |i: int| true),
            plan_of(cat, regular, cat.len() as int).len() as int,
        ) == plan_of(cat, regular, cat.len() as int),
{
    let p = plan_of(cat, regular, cat.len() as int);
    lemma_plan_normalized(cat, regular, cat.len() as int);
    lemma_replan(p, p.len() as int);
}

proof fn lemma_normalized_twice(t: Seq<char>)
    ensures
        normalized(normalized(t)) == normalized(t),
{
    assert(normalized(normalized(t)) =~= normalized(t));
}

proof fn lemma_plan_normalized(cat: Seq<(Seq<char>, Seq<char>)>, regular: Seq<bool>, n: int)
    requires
        n <= cat.len(),
        n <= regular.len(),
    ensures
        forall|k: int| 0 <= k < plan_of(cat, regular, n).len() ==> normalized(#[trigger] plan_of(cat, regular, n)[k].1)
            == plan_of(cat, regular, n)[k].1,
    decreases n,
{
    if n > 0 {
        lemma_plan_normalized(cat, regular, n - 1);
        lemma_normalized_twice(cat[n - 1].1);
        let a = plan_of(cat, regular, n - 1);
        let p = plan_of(cat, regular, n);
        assert forall|k: int| 0 <= k < p.len() implies normalized(#[trigger] p[k].1) == p[k].1 by {
            if k < a.len() {
                assert(p[k] == a[k]);
            }
        }
    }
}

proof fn lemma_replan(p: Seq<(Seq<char>, Seq<char>)>, n: int)
    requires
        0 <= n <= p.len(),
        forall|k: int| 0 <= k < p.len() ==> normalized(#[trigger] p[k].1) == p[k].1,
    ensures
        plan_of(p, Seq::new(p.len(), |i: int| true), n) == p.subrange(0, n),
    decreases n,
{
    if n > 0 {
        lemma_replan(p, n - 1);
        assert(p.subrange(0, n) =~= p.subrange(0, n - 1) + seq![p[n - 1]]);
        assert(normalized(p[n - 1].1) == p[n - 1].1);
    } else {
        assert(p.subrange(0, 0) =~= seq![]);
    }
}

} // verus!
