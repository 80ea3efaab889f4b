//! The round trip: the schema document of a tree, read back, describes the tree
//! with its entries in the order of their names.

use crate::builder::{
    entries_of, entry_of, lemma_forest_of_listing, lemma_listing_well_nested, marks_directory,
    strip_slashes, StructureError,
};
use crate::indent::{indents, normalized, rank};
use crate::parse::parsed;
use crate::scanner::{carries_entry, lemma_first_break, measured, scanned, scanned_from};
use crate::schema::{
    document, lemma_sorted_by_name, lemma_sorted_deep_same, marker, rendered, rendered_all,
    same_entries, schema_lines, sort_each, sorted_by_name, sorted_deep, unique_names,
};
use crate::text::{
    is_space, leading_spaces, lemma_leading_spaces, lemma_trailing_spaces, trimmed,
};
use crate::tree::{listing, Entry, Tree};
use vstd::prelude::*;

verus! {

/// A name that a schema line can carry and give back: it is not empty, holds no
/// line feed, neither starts nor ends with whitespace, does not start with `#`
/// and does not end with `/`.
pub open spec fn plain(name: Seq<char>) -> bool {
    &&& name.len() > 0
    &&& !is_space(name[0])
    &&& name[0] != '#'
    &&& !is_space(name.last())
    &&& name.last() != '/'
    &&& no_break(name)
}

/// No line feed stands in `s`.
pub open spec fn no_break(s: Seq<char>) -> bool {
    forall|q: int| 0 <= q < s.len() ==> s[q] != '\n'
}

/// Every name in the tree is plain.
pub open spec fn plain_tree(t: Tree) -> bool
    decreases t,
{
    &&& plain(t.name())
    &&& match t {
        Tree::Dir(_, below) => plain_forest(below),
        Tree::File(_) => true,
    }
}

/// Every name in the sibling entries, and below them, is plain.
pub open spec fn plain_forest(ts: Seq<Tree>) -> bool
    decreases ts,
{
    forall|i: int| 0 <= i < ts.len() ==> plain_tree(#[trigger] ts[i])
}

/// Every name of the listing is plain.
pub open spec fn plain_entries(es: Seq<Entry>) -> bool {
    forall|k: int| 0 <= k < es.len() ==> plain((#[trigger] es[k]).name)
}

/// Some entry of the listing lies at depth `x`.
pub open spec fn has_depth(es: Seq<Entry>, x: nat) -> bool {
    exists|j: int| 0 <= j < es.len() && (#[trigger] es[j]).depth == x
}

/// Sorting keeps plain names plain.
pub proof fn lemma_sorted_deep_plain(ts: Seq<Tree>)
    requires
        plain_forest(ts),
    ensures
        plain_forest(sorted_deep(ts)),
    decreases ts,
{
    let each = sort_each(ts);
    assert forall|i: int| 0 <= i < each.len() implies plain_tree(#[trigger] each[i]) by {
        match ts[i] {
            Tree::Dir(_, below) => {
                lemma_sorted_deep_plain(below);
            },
            Tree::File(_) => {},
        }
    }
    lemma_sorted_by_name(each);
    let sorted = sorted_by_name(each);
    assert forall|k: int| 0 <= k < sorted.len() implies plain_tree(#[trigger] sorted[k]) by {
        let j = choose|j: int| 0 <= j < each.len() && each[j] == sorted[k];
        assert(plain_tree(each[j]));
    }
}

/// The listing of plain trees holds plain names.
pub proof fn lemma_listing_plain(ts: Seq<Tree>, depth: nat)
    requires
        plain_forest(ts),
    ensures
        plain_entries(listing(ts, depth)),
    decreases ts,
{
    if ts.len() > 0 {
        let all = listing(ts, depth);
        let head = listing(ts.drop_last(), depth);
        let below = listing(ts.last().children(), depth + 1);
        assert forall|i: int| 0 <= i < ts.drop_last().len() implies plain_tree(
            #[trigger] ts.drop_last()[i],
        ) by {
            assert(plain_tree(ts[i]));
        }
        lemma_listing_plain(ts.drop_last(), depth);
        match ts.last() {
            Tree::Dir(_, inner) => {
                lemma_listing_plain(inner, depth + 1);
            },
            Tree::File(_) => {
                assert(below =~= Seq::<Entry>::empty());
            },
        }
        assert forall|k: int| 0 <= k < all.len() implies plain((#[trigger] all[k]).name) by {
            if k < head.len() {
                assert(all[k] == head[k]);
            } else if k > head.len() {
                assert(all[k] == below[k - head.len() - 1]);
            }
        }
    }
}

/// Every depth from that of a listing down to that of one of its entries is the
/// depth of an entry.
pub proof fn lemma_listing_depths_closed(ts: Seq<Tree>, depth: nat)
    ensures
        forall|k: int, x: nat|
            #![trigger listing(ts, depth)[k], has_depth(listing(ts, depth), x)]
            0 <= k < listing(ts, depth).len() && depth <= x <= listing(ts, depth)[k].depth
                ==> has_depth(listing(ts, depth), x),
    decreases ts,
{
    if ts.len() > 0 {
        let all = listing(ts, depth);
        let head = listing(ts.drop_last(), depth);
        let below = listing(ts.last().children(), depth + 1);
        lemma_listing_depths_closed(ts.drop_last(), depth);
        match ts.last() {
            Tree::Dir(_, inner) => {
                lemma_listing_depths_closed(inner, depth + 1);
            },
            Tree::File(_) => {
                assert(below =~= Seq::<Entry>::empty());
            },
        }
        assert forall|k: int, x: nat|
            #![trigger all[k], has_depth(all, x)]
            0 <= k < all.len() && depth <= x <= all[k].depth implies has_depth(all, x) by {
            if k < head.len() {
                assert(has_depth(head, x));
                let j = choose|j: int| 0 <= j < head.len() && (#[trigger] head[j]).depth == x;
                assert(all[j].depth == x);
            } else if x == depth {
                assert(all[head.len() as int].depth == x);
            } else {
                assert(has_depth(below, x));
                let j = choose|j: int| 0 <= j < below.len() && (#[trigger] below[j]).depth == x;
                assert(all[head.len() + 1 + j].depth == x);
            }
        }
    }
}

/// The schema line of an entry with a plain name gives the entry back: four
/// whitespace characters lead it for each level of depth, and its text is the
/// name with the marker of its kind.
pub proof fn lemma_rendered_line(e: Entry)
    requires
        plain(e.name),
    ensures
        no_break(rendered(e)),
        carries_entry(rendered(e)),
        leading_spaces(rendered(e)) == 4 * e.depth,
        trimmed(rendered(e)) == e.name + marker(e.is_dir),
{
    let line = rendered(e);
    let width = 4 * e.depth;
    lemma_leading_spaces(line, width as int);
    lemma_trailing_spaces(line, line.len() as int);
    assert forall|q: int| 0 <= q < line.len() implies line[q] != '\n' by {
        if width <= q < width + e.name.len() {
            assert(line[q] == e.name[q - width]);
        }
    }
}

/// A plain name with the marker of its kind behind it tells the kind, and gives
/// the name back when the marker is stripped.
pub proof fn lemma_marked_name(name: Seq<char>, is_dir: bool)
    requires
        plain(name),
    ensures
        marks_directory(name + marker(is_dir)) == is_dir,
        strip_slashes(name + marker(is_dir)) == name,
{
    let text = name + marker(is_dir);
    if is_dir {
        assert(text.drop_last() =~= name);
        assert(strip_slashes(text) == strip_slashes(name));
    } else {
        assert(text =~= name);
    }
}

/// A document starts with its first line and a line feed; the document of the
/// other lines follows.
pub proof fn lemma_document_front(lines: Seq<Seq<char>>)
    requires
        lines.len() > 0,
    ensures
        document(lines) == lines[0] + seq!['\n'] + document(lines.drop_first()),
    decreases lines.len(),
{
    if lines.len() == 1 {
        assert(lines.drop_last() =~= Seq::<Seq<char>>::empty());
        assert(lines.drop_first() =~= Seq::<Seq<char>>::empty());
    } else {
        lemma_document_front(lines.drop_last());
        assert(lines.drop_last().drop_first() =~= lines.drop_first().drop_last());
    }
}

/// Scanning a document whose lines all carry entries, and hold no line feed,
/// measures each of them, with its number.
pub proof fn lemma_scan_document(lines: Seq<Seq<char>>, number: nat)
    requires
        forall|i: int| 0 <= i < lines.len() ==> no_break(#[trigger] lines[i]) && carries_entry(lines[i]),
    ensures
        scanned_from(document(lines), number) == Seq::new(
            lines.len(),
            |i: int| measured(lines[i], (number + i) as nat),
        ),
    decreases lines.len(),
{
    let text = document(lines);
    let want = Seq::new(lines.len(), |i: int| measured(lines[i], (number + i) as nat));
    if lines.len() == 0 {
        assert(scanned_from(text, number) =~= want);
    } else {
        let rest = lines.drop_first();
        let first = lines[0];
        lemma_document_front(lines);
        lemma_first_break(text, first.len() as int);
        assert(text.take(first.len() as int) =~= first);
        assert(text.skip(first.len() as int + 1) =~= document(rest));
        assert forall|i: int| 0 <= i < rest.len() implies no_break(#[trigger] rest[i])
            && carries_entry(rest[i]) by {
            assert(rest[i] == lines[i + 1]);
        }
        lemma_scan_document(rest, number + 1);
    }
}

/// Where the widths of a document are four times the depths of a listing, a
/// width's rank is the depth.
pub proof fn lemma_rank_of_rendered(es: Seq<Entry>, all: Seq<int>, k: int)
    requires
        all.len() == es.len(),
        forall|i: int| 0 <= i < es.len() ==> all[i] == 4 * (#[trigger] es[i]).depth,
        forall|i: int, x: nat|
            #![trigger es[i], has_depth(es, x)]
            0 <= i < es.len() && x <= es[i].depth ==> has_depth(es, x),
        0 <= k < es.len(),
    ensures
        rank(all, 4 * (es[k].depth as int)) == es[k].depth,
{
    let depth = es[k].depth;
    let below = all.to_set().filter(|y: int| y < 4 * depth);
    let steps = Seq::new(depth, |x: int| 4 * x);
    assert forall|y: int| below.contains(y) implies steps.to_set().contains(y) by {
        let j = choose|j: int| 0 <= j < all.len() && all[j] == y;
        assert(steps[es[j].depth as int] == y);
    }
    assert forall|y: int| steps.to_set().contains(y) implies below.contains(y) by {
        let x = choose|x: int| 0 <= x < steps.len() && steps[x] == y;
        assert(has_depth(es, x as nat));
        let j = choose|j: int| 0 <= j < es.len() && (#[trigger] es[j]).depth == x as nat;
        assert(all[j] == y);
    }
    assert(below =~= steps.to_set());
    steps.unique_seq_to_set();
}

/// The schema lines of a listing with plain names, put into a document, scanned
/// and normalized, stand for the entries of the listing.
pub proof fn lemma_listing_read_back(ts: Seq<Tree>)
    requires
        plain_forest(ts),
    ensures
        entries_of(normalized(scanned(document(rendered_all(listing(ts, 0)))))) == listing(ts, 0),
{
    let es = listing(ts, 0);
    let lines = rendered_all(es);
    let raw = scanned(document(lines));
    lemma_listing_plain(ts, 0);
    assert forall|i: int| 0 <= i < lines.len() implies no_break(#[trigger] lines[i])
        && carries_entry(lines[i]) by {
        lemma_rendered_line(es[i]);
    }
    lemma_scan_document(lines, 1);
    assert forall|i: int| 0 <= i < es.len() implies (#[trigger] raw[i]).indent == 4 * es[i].depth
        && raw[i].name == es[i].name + marker(es[i].is_dir) by {
        lemma_rendered_line(es[i]);
    }
    let all = indents(raw);
    lemma_listing_depths_closed(ts, 0);
    let fixed = normalized(raw);
    assert forall|i: int| 0 <= i < es.len() implies entry_of(#[trigger] fixed[i]) == es[i] by {
        lemma_rank_of_rendered(es, all, i);
        lemma_marked_name(es[i].name, es[i].is_dir);
    }
}

/// The round trip. The schema document of the entries `ts`, whose names are all
/// plain, describes below a root named `root` these same entries, in the order
/// of their names at every level: the same kinds, the same names, and the same
/// entries below each directory.
pub proof fn lemma_round_trip(root: Seq<char>, ts: Seq<Tree>)
    requires
        plain_forest(ts),
    ensures
        parsed(root, document(schema_lines(ts, 0))) == Ok::<Tree, StructureError>(
            Tree::Dir(root, sorted_deep(ts)),
        ),
{
    let sorted = sorted_deep(ts);
    let es = listing(sorted, 0);
    lemma_sorted_deep_plain(ts);
    lemma_listing_read_back(sorted);
    lemma_listing_well_nested(sorted);
    lemma_forest_of_listing(sorted);
}

/// The round trip through a directory. Let the entries `made` be created on disk,
/// no two siblings of one name and every name plain, and let `read` be what is
/// then read from the directory: the same entries, in whatever order the system
/// lists them at each level. The schema document of `read` describes `made`, with
/// the entries in the order of their names.
pub proof fn lemma_round_trip_of_directory(root: Seq<char>, made: Seq<Tree>, read: Seq<Tree>)
    requires
        plain_forest(made),
        unique_names(made),
        unique_names(read),
        same_entries(made, read),
    ensures
        parsed(root, document(schema_lines(read, 0))) == Ok::<Tree, StructureError>(
            Tree::Dir(root, sorted_deep(made)),
        ),
{
    lemma_sorted_deep_same(made, read);
    lemma_round_trip(root, made);
}

} // verus!
