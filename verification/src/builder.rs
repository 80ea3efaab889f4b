//! The tree builder: from the lines of a document, each at its canonical depth,
//! to the tree that they list.

use crate::line::{line_views, IndentMeasuredString, RawLine};
use crate::text::{chars_of, string_of};
use crate::tree::{
    lemma_listing_depths, lemma_listing_injective, lemma_listing_push, listing, views, Directory,
    Entry, Node, Tree,
};
use vstd::prelude::*;

verus! {

/// Why a document lists no tree.
#[derive(Debug, Clone, Copy, PartialEq, Eq)]
pub enum StructureError {
    /// The line stands one level below a file, and a file has no entries.
    FileHasChild { source_line: usize },
    /// The line stands deeper than any directory that is open where it occurs.
    DepthJump { source_line: usize },
}

/// A name that ends in `/` names a directory.
pub open spec fn marks_directory(name: Seq<char>) -> bool {
    name.len() > 0 && name.last() == '/'
}

/// `name` without the slashes at its end.
pub open spec fn strip_slashes(name: Seq<char>) -> Seq<char>
    decreases name.len(),
{
    if marks_directory(name) {
        strip_slashes(name.drop_last())
    } else {
        name
    }
}

/// The entry that a line at its canonical depth stands for.
pub open spec fn entry_of(line: RawLine) -> Entry {
    Entry {
        depth: line.indent,
        name: strip_slashes(line.name),
        is_dir: marks_directory(line.name),
    }
}

/// The entries that the lines stand for, in order.
pub open spec fn entries_of(lines: Seq<RawLine>) -> Seq<Entry> {
    Seq::new(lines.len(), |i: int| entry_of(lines[i]))
}

/// The deepest level at which entry `i` may stand: the top level for the first
/// entry, one below the entry before it where that is a directory, else beside it.
pub open spec fn depth_limit(entries: Seq<Entry>, i: int) -> nat {
    if i <= 0 {
        0
    } else if entries[i - 1].is_dir {
        entries[i - 1].depth + 1
    } else {
        entries[i - 1].depth
    }
}

/// Entry `i` has an open directory to go into.
pub open spec fn fits(entries: Seq<Entry>, i: int) -> bool {
    entries[i].depth <= depth_limit(entries, i)
}

/// Every entry has an open directory to go into.
pub open spec fn well_nested(entries: Seq<Entry>) -> bool {
    forall|i: int| 0 <= i < entries.len() ==> fits(entries, i)
}

/// Entry `i` is the first that has no open directory to go into.
pub open spec fn first_misfit(entries: Seq<Entry>, i: int) -> bool {
    &&& 0 <= i < entries.len()
    &&& !fits(entries, i)
    &&& forall|j: int| 0 <= j < i ==> fits(entries, j)
}

/// The error for line `i`, which does not fit: it is the child of a file where it
/// stands exactly one level below a file, and a jump in depth otherwise.
pub open spec fn misfit_error(lines: Seq<RawLine>, i: int) -> StructureError {
    let entries = entries_of(lines);
    if i > 0 && !entries[i - 1].is_dir && entries[i].depth == entries[i - 1].depth + 1 {
        StructureError::FileHasChild { source_line: lines[i].source_line as usize }
    } else {
        StructureError::DepthJump { source_line: lines[i].source_line as usize }
    }
}

/// The sibling entries whose listing from depth 0 is `entries`.
pub open spec fn forest_of(entries: Seq<Entry>) -> Seq<Tree> {
    choose|ts: Seq<Tree>| listing(ts, 0) == entries
}

/// What the lines build below a root directory named `root`: the tree that they
/// list where every line fits, and otherwise the error for the first line that
/// does not.
pub open spec fn built(root: Seq<char>, lines: Seq<RawLine>) -> Result<Tree, StructureError> {
    let entries = entries_of(lines);
    if well_nested(entries) {
        Ok(Tree::Dir(root, forest_of(entries)))
    } else {
        Err(misfit_error(lines, choose|i: int| first_misfit(entries, i)))
    }
}

/// The forest of a listing is the forest that was listed.
pub proof fn lemma_forest_of_listing(ts: Seq<Tree>)
    ensures
        forest_of(listing(ts, 0)) == ts,
{
    lemma_listing_injective(forest_of(listing(ts, 0)), ts, 0);
}

/// Only one line is the first that does not fit.
pub proof fn lemma_first_misfit_unique(entries: Seq<Entry>, i: int, j: int)
    requires
        first_misfit(entries, i),
        first_misfit(entries, j),
    ensures
        i == j,
{
}

/// A file cannot have children: where a file at the top level is followed by a
/// line one level deeper, nothing is built, and the error cites that second line.
pub proof fn lemma_file_cannot_have_children(root: Seq<char>, a: RawLine, b: RawLine)
    requires
        a.indent == 0,
        !marks_directory(a.name),
        b.indent == 1,
    ensures
        built(root, seq![a, b]) == Err::<Tree, StructureError>(
            StructureError::FileHasChild { source_line: b.source_line as usize },
        ),
{
    let lines = seq![a, b];
    let entries = entries_of(lines);
    assert(first_misfit(entries, 1));
    let first = choose|i: int| first_misfit(entries, i);
    lemma_first_misfit_unique(entries, first, 1);
}

/// The models of the open directories, the root first.
pub open spec fn open_views(stack: Seq<Directory>) -> Seq<Tree> {
    Seq::new(stack.len(), |i: int| stack[i]@)
}

/// What the open directories list so far. The root has no line of its own; the
/// directory at index `k > 0` stands at depth `k - 1`, its entries at depth `k`.
pub open spec fn open_listing(open: Seq<Tree>) -> Seq<Entry>
    decreases open.len(),
{
    if open.len() == 0 {
        Seq::empty()
    } else if open.len() == 1 {
        listing(open[0].children(), 0)
    } else {
        open_listing(open.drop_last()) + seq![open.last().entry((open.len() - 2) as nat)]
            + listing(open.last().children(), (open.len() - 1) as nat)
    }
}

/// The open directories after `t` has become the last entry of the innermost one.
pub open spec fn with_entry(open: Seq<Tree>, t: Tree) -> Seq<Tree> {
    open.drop_last().push(Tree::Dir(open.last().name(), open.last().children().push(t)))
}

/// The open directories after the innermost one has been closed.
pub open spec fn closed(open: Seq<Tree>) -> Seq<Tree> {
    with_entry(open.drop_last(), open.last())
}

/// Every one of the open directories is a directory.
pub open spec fn all_directories(open: Seq<Tree>) -> bool {
    forall|k: int| 0 <= k < open.len() ==> (#[trigger] open[k]) is Dir
}

/// A file that enters the innermost open directory adds its own line.
pub proof fn lemma_with_file(open: Seq<Tree>, name: Seq<char>)
    requires
        open.len() >= 1,
        all_directories(open),
    ensures
        open_listing(with_entry(open, Tree::File(name))) == open_listing(open) + seq![
            Entry { depth: (open.len() - 1) as nat, name, is_dir: false },
        ],
{
    let t = Tree::File(name);
    let grown = with_entry(open, t);
    let depth = (open.len() - 1) as nat;
    lemma_listing_push(open.last().children(), t, depth);
    assert(grown.drop_last() =~= open.drop_last());
    if open.len() == 1 {
        assert(open_listing(grown) =~= open_listing(open) + seq![t.entry(depth)]);
    } else {
        assert(grown.last().entry((open.len() - 2) as nat) == open.last().entry(
            (open.len() - 2) as nat,
        ));
    }
}

/// Closing the innermost open directory changes nothing in what is listed.
pub proof fn lemma_closed(open: Seq<Tree>)
    requires
        open.len() >= 2,
        all_directories(open),
    ensures
        open_listing(closed(open)) == open_listing(open),
{
    reveal_with_fuel(open_listing, 2);
    let top = open.last();
    let rest = open.drop_last();
    let shut = closed(open);
    let depth = (rest.len() - 1) as nat;
    lemma_listing_push(rest.last().children(), top, depth);
    assert(shut.drop_last() =~= rest.drop_last());
    if rest.len() == 1 {
        assert(open_listing(shut) =~= open_listing(open));
    } else {
        assert(shut.last().entry((rest.len() - 2) as nat) == rest.last().entry(
            (rest.len() - 2) as nat,
        ));
    }
}

/// A directory that opens adds its own line and lists nothing yet.
pub proof fn lemma_opened(open: Seq<Tree>, name: Seq<char>)
    requires
        open.len() >= 1,
    ensures
        open_listing(open.push(Tree::Dir(name, Seq::empty()))) == open_listing(open) + seq![
            Entry { depth: (open.len() - 1) as nat, name, is_dir: true },
        ],
{
    let t = Tree::Dir(name, Seq::empty());
    let grown = open.push(t);
    assert(grown.drop_last() =~= open);
}

/// A listing starts at its own depth, and from there each entry fits behind the
/// one before it.
pub proof fn lemma_listing_fits(ts: Seq<Tree>, depth: nat)
    ensures
        listing(ts, depth).len() > 0 ==> listing(ts, depth)[0].depth == depth,
        forall|i: int| 1 <= i < listing(ts, depth).len() ==> fits(listing(ts, depth), i),
    decreases ts,
{
    if ts.len() > 0 {
        let all = listing(ts, depth);
        let head = listing(ts.drop_last(), depth);
        let below = listing(ts.last().children(), depth + 1);
        lemma_listing_fits(ts.drop_last(), depth);
        lemma_listing_depths(ts.drop_last(), depth);
        match ts.last() {
            Tree::Dir(_, inner) => {
                lemma_listing_fits(inner, depth + 1);
            },
            Tree::File(_) => {
                assert(below =~= Seq::<Entry>::empty());
            },
        }
        assert forall|i: int| 1 <= i < all.len() implies fits(all, i) by {
            if i < head.len() {
                assert(fits(head, i));
            } else if i == head.len() {
                assert(all[i - 1] == head[i - 1]);
            } else if i == head.len() + 1 {
                assert(all[i] == below[0]);
            } else {
                assert(fits(below, i - head.len() - 1));
            }
        }
    }
}

/// What a forest lists is well nested.
pub proof fn lemma_listing_well_nested(ts: Seq<Tree>)
    ensures
        well_nested(listing(ts, 0)),
{
    let es = listing(ts, 0);
    lemma_listing_fits(ts, 0);
    assert forall|i: int| 0 <= i < es.len() implies fits(es, i) by {
        if i == 0 {
            assert(depth_limit(es, 0) == 0);
        }
    }
}

/// Open directories can be closed down to any number of them, and list the same.
pub proof fn lemma_close_to(open: Seq<Tree>, target: nat) -> (shut: Seq<Tree>)
    requires
        1 <= target <= open.len(),
        all_directories(open),
    ensures
        shut.len() == target,
        all_directories(shut),
        open_listing(shut) == open_listing(open),
    decreases open.len(),
{
    if open.len() > target {
        lemma_closed(open);
        lemma_close_to(closed(open), target)
    } else {
        open
    }
}

/// Well nested entries are listed by open directories, as many as the next
/// entry could be deep, and one.
pub proof fn lemma_open_exists(entries: Seq<Entry>) -> (open: Seq<Tree>)
    requires
        well_nested(entries),
    ensures
        open.len() == depth_limit(entries, entries.len() as int) + 1,
        all_directories(open),
        open_listing(open) == entries,
    decreases entries.len(),
{
    if entries.len() == 0 {
        let open = seq![Tree::Dir(Seq::empty(), Seq::empty())];
        assert(listing(Seq::<Tree>::empty(), 0) =~= entries);
        open
    } else {
        let head = entries.drop_last();
        let e = entries.last();
        assert forall|i: int| 0 <= i < head.len() implies fits(head, i) by {
            assert(fits(entries, i));
        }
        let before = lemma_open_exists(head);
        assert(fits(entries, entries.len() - 1));
        let around = lemma_close_to(before, e.depth + 1);
        assert(entries =~= head.push(e));
        if e.is_dir {
            lemma_opened(around, e.name);
            around.push(Tree::Dir(e.name, Seq::empty()))
        } else {
            lemma_with_file(around, e.name);
            with_entry(around, Tree::File(e.name))
        }
    }
}

/// Well nested entries are the listing of a forest: the one that is built from them.
pub proof fn lemma_forest_exists(entries: Seq<Entry>)
    requires
        well_nested(entries),
    ensures
        listing(forest_of(entries), 0) == entries,
{
    let open = lemma_open_exists(entries);
    let shut = lemma_close_to(open, 1);
    assert(listing(shut[0].children(), 0) == entries);
}

/// The stored name of a line's text, and whether the text names a directory.
fn split_marker(text: &String) -> (out: (String, bool))
    ensures
        out.0@ == strip_slashes(text@),
        out.1 == marks_directory(text@),
{
    let chars = chars_of(text.as_str());
    let mut end: usize = chars.len();
    let is_dir = end > 0 && chars[end - 1] == '/';
    assert(chars@.take(end as int) =~= chars@);
    while end > 0 && chars[end - 1] == '/'
        invariant
            end <= chars.len(),
            strip_slashes(chars@) == strip_slashes(chars@.take(end as int)),
        decreases end,
    {
        assert(chars@.take(end as int).drop_last() =~= chars@.take(end - 1));
        end -= 1;
    }
    (string_of(&chars, 0, end), is_dir)
}

/// Makes `node` the last entry of the innermost open directory.
fn append_to_top(stack: &mut Vec<Directory>, node: Node)
    requires
        old(stack).len() >= 1,
    ensures
        final(stack).len() == old(stack).len(),
        open_views(final(stack)@) == with_entry(open_views(old(stack)@), node@),
{
    let mut top = stack.pop().unwrap();
    let ghost before = top.children@;
    top.children.push(node);
    stack.push(top);
    proof {
        assert(views(before.push(node)) =~= views(before).push(node@));
    }
}

/// Closes the innermost open directory: it becomes the last entry of the one around it.
fn close_top(stack: &mut Vec<Directory>)
    requires
        old(stack).len() >= 2,
    ensures
        final(stack).len() == old(stack).len() - 1,
        open_views(final(stack)@) == closed(open_views(old(stack)@)),
{
    let top = stack.pop().unwrap();
    proof {
        assert(open_views(stack@) =~= open_views(old(stack)@).drop_last());
    }
    append_to_top(stack, Node::Directory(top));
}

/// Builds the tree that the lines list below a root directory named `root_name`.
///
/// Each line's `indent` is its canonical depth. The lines are taken in order, with
/// the directories that are still open held on a stack, the root at the bottom: a
/// line at depth `d` closes the directories deeper than `d` and enters the one at
/// `d`. The result is the one tree whose pre-order listing is the lines. A line
/// that stands deeper than every open directory is rejected, with its number in
/// the document; the first such line decides.
pub fn build_tree(root_name: &str, lines: &Vec<IndentMeasuredString>) -> (res: Result<
    Node,
    StructureError,
>)
    ensures
        res is Ok <==> well_nested(entries_of(line_views(lines@))),
        res matches Ok(root) ==> root@ matches Tree::Dir(name, children) && name == root_name@
            && listing(children, 0) == entries_of(line_views(lines@)),
        res matches Err(e) ==> exists|i: int|
            first_misfit(entries_of(line_views(lines@)), i) && e == misfit_error(
                line_views(lines@),
                i,
            ),
        match res {
            Ok(root) => built(root_name@, line_views(lines@)) == Ok::<Tree, StructureError>(root@),
            Err(e) => built(root_name@, line_views(lines@)) == Err::<Tree, StructureError>(e),
        },
{
    let ghost es = entries_of(line_views(lines@));
    let mut stack: Vec<Directory> = Vec::new();
    stack.push(Directory { name: root_name.to_owned(), children: Vec::new() });
    let mut prev_is_file = false;
    let mut i: usize = 0;
    proof {
        assert(views(Seq::<Node>::empty()) =~= Seq::<Tree>::empty());
    }
    while i < lines.len()
        invariant
            0 <= i <= lines.len(),
            es == entries_of(line_views(lines@)),
            stack.len() >= 1,
            open_views(stack@)[0].name() == root_name@,
            open_listing(open_views(stack@)) == es.take(i as int),
            forall|j: int| 0 <= j < i ==> fits(es, j),
            stack.len() == depth_limit(es, i as int) + 1,
            prev_is_file == (i > 0 && !es[i - 1].is_dir),
        decreases lines.len() - i,
    {
        let level: usize = lines[i].indent;
        if level >= stack.len() {
            assert(first_misfit(es, i as int));
            let source_line: usize = lines[i].source_line;
            let e = if prev_is_file && level == stack.len() {
                StructureError::FileHasChild { source_line }
            } else {
                StructureError::DepthJump { source_line }
            };
            proof {
                let first = choose|k: int| first_misfit(es, k);
                lemma_first_misfit_unique(es, first, i as int);
            }
            return Err(e);
        }
        while stack.len() > level + 1
            invariant
                level < stack.len(),
                open_views(stack@)[0].name() == root_name@,
                open_listing(open_views(stack@)) == es.take(i as int),
            decreases stack.len(),
        {
            proof {
                lemma_closed(open_views(stack@));
            }
            close_top(&mut stack);
        }
        let (stem, is_dir) = split_marker(&lines[i].name);
        if is_dir {
            proof {
                lemma_opened(open_views(stack@), stem@);
                assert(views(Seq::<Node>::empty()) =~= Seq::<Tree>::empty());
            }
            let ghost before = open_views(stack@);
            stack.push(Directory { name: stem, children: Vec::new() });
            assert(open_views(stack@) =~= before.push(Tree::Dir(stem@, Seq::empty())));
        } else {
            proof {
                lemma_with_file(open_views(stack@), stem@);
            }
            append_to_top(&mut stack, Node::File(stem));
        }
        prev_is_file = !is_dir;
        i += 1;
    }
    while stack.len() > 1
        invariant
            stack.len() >= 1,
            open_views(stack@)[0].name() == root_name@,
            open_listing(open_views(stack@)) == es.take(i as int),
        decreases stack.len(),
    {
        proof {
            lemma_closed(open_views(stack@));
        }
        close_top(&mut stack);
    }
    let root = stack.pop().unwrap();
    proof {
        assert(es.take(i as int) =~= es);
        lemma_forest_of_listing(root@.children());
    }
    Ok(Node::Directory(root))
}

} // verus!
