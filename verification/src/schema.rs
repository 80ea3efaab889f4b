//! The schema serializer: from a directory's entries to the lines of its schema.

use crate::text::{chars_of, string_views};
use crate::tree::{lemma_listing_push, listing, views, Directory, Entry, Node, Tree};
use vstd::prelude::*;
use vstd::string::StringExecFns;

verus! {

/// Whether name `a` comes strictly before name `b`: the order of the first
/// character in which they differ, by code point; a proper prefix comes first.
pub open spec fn name_before(a: Seq<char>, b: Seq<char>) -> bool
    decreases a.len(),
{
    if b.len() == 0 {
        false
    } else if a.len() == 0 {
        true
    } else if a[0] != b[0] {
        (a[0] as u32) < (b[0] as u32)
    } else {
        name_before(a.drop_first(), b.drop_first())
    }
}

/// `sorted` with `t` put behind the last entry that does not come after it.
pub open spec fn insert_sorted(sorted: Seq<Tree>, t: Tree) -> Seq<Tree>
    decreases sorted.len(),
{
    if sorted.len() > 0 && name_before(t.name(), sorted.last().name()) {
        insert_sorted(sorted.drop_last(), t).push(sorted.last())
    } else {
        sorted.push(t)
    }
}

/// The entries `ts` in the order of their names. Entries of one name keep the
/// order in which they came.
pub open spec fn sorted_by_name(ts: Seq<Tree>) -> Seq<Tree>
    decreases ts.len(),
{
    if ts.len() == 0 {
        Seq::empty()
    } else {
        insert_sorted(sorted_by_name(ts.drop_last()), ts.last())
    }
}

/// The tree `t` with the entries of every directory in it in the order of their names.
pub open spec fn sort_tree(t: Tree) -> Tree
    decreases t, 0nat,
{
    match t {
        Tree::Dir(name, below) => Tree::Dir(name, sorted_deep(below)),
        Tree::File(name) => Tree::File(name),
    }
}

/// Each entry of `ts` with what is below it sorted, in the order of `ts`.
pub open spec fn sort_each(ts: Seq<Tree>) -> Seq<Tree>
    decreases ts, 0nat,
{
    Seq::new(
        ts.len(),
        |i: int|
            if 0 <= i < ts.len() {
                sort_tree(ts[i])
            } else {
                Tree::File(Seq::empty())
            },
    )
}

/// The entries `ts` in the order of their names, at every level.
pub open spec fn sorted_deep(ts: Seq<Tree>) -> Seq<Tree>
    decreases ts, 1nat,
{
    sorted_by_name(sort_each(ts))
}

/// The indentation of a line at `depth`: four spaces for each level.
pub open spec fn indentation(depth: nat) -> Seq<char> {
    Seq::new(4 * depth, |i: int| ' ')
}

/// What follows the name in a schema line: `/` for a directory, nothing for a file.
pub open spec fn marker(is_dir: bool) -> Seq<char> {
    if is_dir {
        seq!['/']
    } else {
        Seq::empty()
    }
}

/// The schema line of an entry: its indentation, its name, and `/` behind a
/// directory.
pub open spec fn rendered(e: Entry) -> Seq<char> {
    indentation(e.depth) + e.name + marker(e.is_dir)
}

/// The schema lines of the entries of a listing, in order.
pub open spec fn rendered_all(es: Seq<Entry>) -> Seq<Seq<char>> {
    Seq::new(es.len(), |i: int| rendered(es[i]))
}

/// The schema lines of the sibling entries `ts`, which lie at `depth`: the entries
/// in the order of their names, each followed at once by the lines of what is
/// below it, one level deeper.
pub open spec fn schema_lines(ts: Seq<Tree>, depth: nat) -> Seq<Seq<char>> {
    rendered_all(listing(sorted_deep(ts), depth))
}

/// The text of a document with the given lines: each line is followed by a line feed.
pub open spec fn document(lines: Seq<Seq<char>>) -> Seq<char>
    decreases lines.len(),
{
    if lines.len() == 0 {
        Seq::empty()
    } else {
        document(lines.drop_last()) + lines.last() + seq!['\n']
    }
}

/// Where `t` goes into `sorted`: before the entries from `p` on, which all come
/// after it, and behind the entry before `p`, which does not.
pub proof fn lemma_insert_position(sorted: Seq<Tree>, t: Tree, p: int)
    requires
        0 <= p <= sorted.len(),
        forall|q: int| p <= q < sorted.len() ==> name_before(t.name(), (#[trigger] sorted[q]).name()),
        p > 0 ==> !name_before(t.name(), sorted[p - 1].name()),
    ensures
        insert_sorted(sorted, t) == sorted.insert(p, t),
    decreases sorted.len() - p,
{
    if p < sorted.len() {
        let head = sorted.drop_last();
        lemma_insert_position(head, t, p);
    } else {
        assert(sorted.push(t) =~= sorted.insert(p, t));
    }
}

/// Sorting below an entry does not change where the entry goes.
pub proof fn lemma_insert_sort_each(sorted: Seq<Tree>, t: Tree)
    ensures
        insert_sorted(sort_each(sorted), sort_tree(t)) == sort_each(insert_sorted(sorted, t)),
    decreases sorted.len(),
{
    let s = sort_each(sorted);
    if sorted.len() > 0 && name_before(t.name(), sorted.last().name()) {
        lemma_insert_sort_each(sorted.drop_last(), t);
        assert(s.drop_last() =~= sort_each(sorted.drop_last()));
    } else {
        assert(s.push(sort_tree(t)) =~= sort_each(sorted.push(t)));
    }
}

/// Sorting at every level is sorting the entries and then sorting below each.
pub proof fn lemma_sorted_deep(ts: Seq<Tree>)
    ensures
        sorted_deep(ts) == sort_each(sorted_by_name(ts)),
    decreases ts.len(),
{
    if ts.len() == 0 {
        assert(sort_each(ts) =~= Seq::<Tree>::empty());
    } else {
        let head = ts.drop_last();
        lemma_sorted_deep(head);
        assert(sort_each(ts).drop_last() =~= sort_each(head));
        lemma_insert_sort_each(sorted_by_name(head), ts.last());
    }
}

/// No entry of `ts` comes strictly before an entry that stands before it.
pub open spec fn ordered(ts: Seq<Tree>) -> bool {
    forall|i: int, j: int|
        0 <= i < j < ts.len() ==> !name_before((#[trigger] ts[j]).name(), (#[trigger] ts[i]).name())
}

/// Different characters have different code points.
pub proof fn lemma_code_points(x: char, y: char)
    ensures
        x != y ==> x as u32 != y as u32,
{
}

/// Putting an entry into ordered entries leaves them ordered.
pub proof fn lemma_insert_sorted_ordered(sorted: Seq<Tree>, t: Tree)
    requires
        ordered(sorted),
    ensures
        ordered(insert_sorted(sorted, t)),
        insert_sorted(sorted, t).len() == sorted.len() + 1,
        forall|k: int|
            0 <= k < insert_sorted(sorted, t).len() ==> (#[trigger] insert_sorted(sorted, t)[k]) == t
                || sorted.contains(insert_sorted(sorted, t)[k]),
    decreases sorted.len(),
{
    let out = insert_sorted(sorted, t);
    if sorted.len() > 0 && name_before(t.name(), sorted.last().name()) {
        let head = sorted.drop_last();
        let inner = insert_sorted(head, t);
        lemma_insert_sorted_ordered(head, t);
        assert forall|k: int| 0 <= k < out.len() implies (#[trigger] out[k]) == t
            || sorted.contains(out[k]) by {
            if k < inner.len() {
                if inner[k] != t {
                    let q = choose|q: int| 0 <= q < head.len() && head[q] == inner[k];
                    assert(sorted[q] == out[k]);
                }
            } else {
                assert(sorted[sorted.len() - 1] == out[k]);
            }
        }
        assert forall|i: int, j: int| 0 <= i < j < out.len() implies !name_before(
            (#[trigger] out[j]).name(),
            (#[trigger] out[i]).name(),
        ) by {
            if j == out.len() - 1 {
                if inner[i] == t {
                    if name_before(sorted.last().name(), t.name()) {
                        lemma_name_irreflexive_pair(sorted.last().name(), t.name());
                    }
                } else {
                    let q = choose|q: int| 0 <= q < head.len() && head[q] == inner[i];
                    assert(sorted[q] == inner[i]);
                }
            }
        }
    } else {
        assert forall|k: int| 0 <= k < out.len() implies (#[trigger] out[k]) == t
            || sorted.contains(out[k]) by {
            if k < sorted.len() {
                assert(sorted[k] == out[k]);
            }
        }
        assert forall|i: int, j: int| 0 <= i < j < out.len() implies !name_before(
            (#[trigger] out[j]).name(),
            (#[trigger] out[i]).name(),
        ) by {
            if j == out.len() - 1 {
                // `t` does not come before the last entry, nor, then, before one further up.
                if name_before(t.name(), sorted[i].name()) {
                    if i < sorted.len() - 1 {
                        lemma_name_order_left(t.name(), sorted[i].name(), sorted.last().name());
                    }
                }
            }
        }
    }
}

/// Two names do not each come strictly before the other.
pub proof fn lemma_name_irreflexive_pair(a: Seq<char>, b: Seq<char>)
    requires
        name_before(a, b),
    ensures
        !name_before(b, a),
    decreases a.len(),
{
    if a.len() > 0 && b.len() > 0 && a[0] == b[0] {
        lemma_name_irreflexive_pair(a.drop_first(), b.drop_first());
    }
}

/// What comes before a name comes before every name that is not before that one.
pub proof fn lemma_name_order_left(a: Seq<char>, b: Seq<char>, c: Seq<char>)
    requires
        name_before(a, b),
        !name_before(c, b),
    ensures
        name_before(a, c),
    decreases a.len(),
{
    if a.len() > 0 {
        if a[0] == b[0] && b[0] == c[0] {
            lemma_name_order_left(a.drop_first(), b.drop_first(), c.drop_first());
        } else {
            lemma_code_points(a[0], b[0]);
            lemma_code_points(b[0], c[0]);
            lemma_code_points(a[0], c[0]);
        }
    }
}

/// Sorting gives the same entries, as many as there were, in the order of their names.
pub proof fn lemma_sorted_by_name(ts: Seq<Tree>)
    ensures
        ordered(sorted_by_name(ts)),
        sorted_by_name(ts).len() == ts.len(),
        forall|k: int|
            0 <= k < ts.len() ==> ts.contains(#[trigger] sorted_by_name(ts)[k]),
    decreases ts.len(),
{
    if ts.len() > 0 {
        let head = ts.drop_last();
        lemma_sorted_by_name(head);
        lemma_insert_sorted_ordered(sorted_by_name(head), ts.last());
        let out = sorted_by_name(ts);
        assert forall|k: int| 0 <= k < ts.len() implies ts.contains(#[trigger] out[k]) by {
            if out[k] == ts.last() {
                assert(ts[ts.len() - 1] == out[k]);
            } else {
                let q = choose|q: int|
                    0 <= q < sorted_by_name(head).len() && sorted_by_name(head)[q] == out[k];
                let r = choose|r: int| 0 <= r < head.len() && head[r] == out[k];
                assert(ts[r] == out[k]);
            }
        }
    }
}

/// No two of the sibling entries `ts` have the same name.
pub open spec fn distinct_names(ts: Seq<Tree>) -> bool {
    forall|i: int, j: int|
        0 <= i < j < ts.len() ==> (#[trigger] ts[i]).name() != (#[trigger] ts[j]).name()
}

/// No two sibling entries have the same name, among `ts` and below them.
pub open spec fn unique_names(ts: Seq<Tree>) -> bool
    decreases ts,
{
    &&& distinct_names(ts)
    &&& forall|i: int|
        0 <= i < ts.len() ==> match #[trigger] ts[i] {
            Tree::Dir(_, below) => unique_names(below),
            Tree::File(_) => true,
        }
}

/// `s` and `t` are the same entry but for the order of what is below them.
pub open spec fn same_entry(s: Tree, t: Tree) -> bool
    decreases s,
{
    match s {
        Tree::Dir(name, below) => t matches Tree::Dir(other, under) && name == other
            && same_entries(below, under),
        Tree::File(name) => t == s,
    }
}

/// `a` and `b` hold the same entries, in whatever order, at every level.
pub open spec fn same_entries(a: Seq<Tree>, b: Seq<Tree>) -> bool
    decreases a,
{
    &&& a.len() == b.len()
    &&& forall|i: int|
        0 <= i < a.len() ==> exists|j: int|
            0 <= j < b.len() && same_entry(#[trigger] a[i], #[trigger] b[j])
    &&& forall|j: int|
        0 <= j < b.len() ==> exists|i: int|
            0 <= i < a.len() && same_entry(#[trigger] a[i], #[trigger] b[j])
}

/// Of two different names one comes before the other.
pub proof fn lemma_name_total(a: Seq<char>, b: Seq<char>)
    requires
        !name_before(a, b),
        !name_before(b, a),
    ensures
        a == b,
    decreases a.len(),
{
    if a.len() > 0 && b.len() > 0 {
        lemma_code_points(a[0], b[0]);
        lemma_name_total(a.drop_first(), b.drop_first());
        assert(a =~= seq![a[0]] + a.drop_first());
    } else {
        assert(a =~= b);
    }
}

/// Putting an entry into sorted entries puts it in at some place and moves nothing else.
pub proof fn lemma_insert_sorted_place(sorted: Seq<Tree>, t: Tree) -> (p: int)
    ensures
        0 <= p <= sorted.len(),
        insert_sorted(sorted, t) == sorted.insert(p, t),
    decreases sorted.len(),
{
    if sorted.len() > 0 && name_before(t.name(), sorted.last().name()) {
        let q = lemma_insert_sorted_place(sorted.drop_last(), t);
        q
    } else {
        sorted.len() as int
    }
}

/// Sorting drops no entry, and makes no two names the same.
pub proof fn lemma_sorted_keeps(ts: Seq<Tree>)
    ensures
        forall|k: int| 0 <= k < ts.len() ==> sorted_by_name(ts).contains(#[trigger] ts[k]),
        distinct_names(ts) ==> distinct_names(sorted_by_name(ts)),
    decreases ts.len(),
{
    if ts.len() > 0 {
        let head = ts.drop_last();
        let inner = sorted_by_name(head);
        let out = sorted_by_name(ts);
        lemma_sorted_keeps(head);
        lemma_sorted_by_name(head);
        let p = lemma_insert_sorted_place(inner, ts.last());
        assert forall|k: int| 0 <= k < ts.len() implies out.contains(#[trigger] ts[k]) by {
            if k == ts.len() - 1 {
                assert(out[p] == ts[k]);
            } else {
                let q = choose|q: int| 0 <= q < inner.len() && inner[q] == head[k];
                if q < p {
                    assert(out[q] == ts[k]);
                } else {
                    assert(out[q + 1] == ts[k]);
                }
            }
        }
        if distinct_names(ts) {
            assert(distinct_names(head)) by {
                assert forall|i: int, j: int| 0 <= i < j < head.len() implies (#[trigger] head[i]).name()
                    != (#[trigger] head[j]).name() by {
                    assert(ts[i].name() != ts[j].name());
                }
            }
            assert forall|q: int| 0 <= q < inner.len() implies (#[trigger] inner[q]).name()
                != ts.last().name() by {
                let r = choose|r: int| 0 <= r < head.len() && head[r] == inner[q];
                assert(ts[r].name() != ts[ts.len() - 1].name());
            }
            assert forall|i: int, j: int| 0 <= i < j < out.len() implies (#[trigger] out[i]).name()
                != (#[trigger] out[j]).name() by {
                let a = if i < p {
                    i
                } else {
                    i - 1
                };
                let b = if j < p {
                    j
                } else {
                    j - 1
                };
                if i != p && j != p {
                    assert(out[i] == inner[a]);
                } else if i == p {
                    assert(out[j] == inner[b]);
                } else {
                    assert(out[i] == inner[a]);
                }
            }
        }
    }
}

/// Entries in the order of their names, no two of one name, are in the one order
/// that there is for them.
pub proof fn lemma_ordered_unique(s: Seq<Tree>, t: Seq<Tree>)
    requires
        ordered(s),
        ordered(t),
        distinct_names(s),
        distinct_names(t),
        s.len() == t.len(),
        forall|i: int| 0 <= i < s.len() ==> t.contains(#[trigger] s[i]),
        forall|j: int| 0 <= j < t.len() ==> s.contains(#[trigger] t[j]),
    ensures
        s == t,
    decreases s.len(),
{
    if s.len() == 0 {
        assert(s =~= t);
    } else {
        let n = s.len() - 1;
        let j = choose|j: int| 0 <= j < t.len() && t[j] == s[n];
        if j < n {
            let i = choose|i: int| 0 <= i < s.len() && s[i] == t[n];
            lemma_name_total(t[j].name(), t[n].name());
        }
        let s0 = s.drop_last();
        let t0 = t.drop_last();
        assert forall|i: int| 0 <= i < s0.len() implies t0.contains(#[trigger] s0[i]) by {
            let k = choose|k: int| 0 <= k < t.len() && t[k] == s[i];
            assert(t0[k] == s0[i]);
        }
        assert forall|j: int| 0 <= j < t0.len() implies s0.contains(#[trigger] t0[j]) by {
            let k = choose|k: int| 0 <= k < s.len() && s[k] == t[j];
            assert(s0[k] == t0[j]);
        }
        assert(ordered(s0)) by {
            assert forall|i: int, j: int| 0 <= i < j < s0.len() implies !name_before(
                (#[trigger] s0[j]).name(),
                (#[trigger] s0[i]).name(),
            ) by {
                assert(!name_before(s[j].name(), s[i].name()));
            }
        }
        assert(ordered(t0)) by {
            assert forall|i: int, j: int| 0 <= i < j < t0.len() implies !name_before(
                (#[trigger] t0[j]).name(),
                (#[trigger] t0[i]).name(),
            ) by {
                assert(!name_before(t[j].name(), t[i].name()));
            }
        }
        assert(distinct_names(s0)) by {
            assert forall|i: int, j: int| 0 <= i < j < s0.len() implies (#[trigger] s0[i]).name()
                != (#[trigger] s0[j]).name() by {
                assert(s[i].name() != s[j].name());
            }
        }
        assert(distinct_names(t0)) by {
            assert forall|i: int, j: int| 0 <= i < j < t0.len() implies (#[trigger] t0[i]).name()
                != (#[trigger] t0[j]).name() by {
                assert(t[i].name() != t[j].name());
            }
        }
        lemma_ordered_unique(s0, t0);
        assert(s =~= s0.push(s[n]));
    }
}

/// Sorting does not depend on the order in which the entries come, where no two
/// of them have the same name.
pub proof fn lemma_sorted_same(x: Seq<Tree>, y: Seq<Tree>)
    requires
        x.len() == y.len(),
        distinct_names(x),
        distinct_names(y),
        forall|i: int| 0 <= i < x.len() ==> y.contains(#[trigger] x[i]),
        forall|j: int| 0 <= j < y.len() ==> x.contains(#[trigger] y[j]),
    ensures
        sorted_by_name(x) == sorted_by_name(y),
{
    let s = sorted_by_name(x);
    let t = sorted_by_name(y);
    lemma_sorted_by_name(x);
    lemma_sorted_by_name(y);
    lemma_sorted_keeps(x);
    lemma_sorted_keeps(y);
    assert forall|i: int| 0 <= i < s.len() implies t.contains(#[trigger] s[i]) by {
        let k = choose|k: int| 0 <= k < x.len() && x[k] == s[i];
        let m = choose|m: int| 0 <= m < y.len() && y[m] == x[k];
        assert(t.contains(y[m]));
    }
    assert forall|j: int| 0 <= j < t.len() implies s.contains(#[trigger] t[j]) by {
        let k = choose|k: int| 0 <= k < y.len() && y[k] == t[j];
        let m = choose|m: int| 0 <= m < x.len() && x[m] == y[k];
        assert(s.contains(x[m]));
    }
    lemma_ordered_unique(s, t);
}

/// The order in which a directory's entries are read does not matter: entries
/// that are the same but for their order, with no two siblings of one name, are
/// the same once sorted at every level, and so have the same schema.
pub proof fn lemma_sorted_deep_same(a: Seq<Tree>, b: Seq<Tree>)
    requires
        unique_names(a),
        unique_names(b),
        same_entries(a, b),
    ensures
        sorted_deep(a) == sorted_deep(b),
    decreases a,
{
    let x = sort_each(a);
    let y = sort_each(b);
    assert forall|i: int, j: int|
        0 <= i < a.len() && 0 <= j < b.len() && same_entry(
            #[trigger] a[i],
            #[trigger] b[j],
        ) implies x[i] == y[j] by {
        match a[i] {
            Tree::Dir(_, below) => {
                match b[j] {
                    Tree::Dir(_, under) => {
                        lemma_sorted_deep_same(below, under);
                    },
                    Tree::File(_) => {},
                }
            },
            Tree::File(_) => {},
        }
    }
    assert forall|i: int| 0 <= i < x.len() implies y.contains(#[trigger] x[i]) by {
        let j = choose|j: int| 0 <= j < b.len() && same_entry(#[trigger] a[i], #[trigger] b[j]);
        assert(y[j] == x[i]);
    }
    assert forall|j: int| 0 <= j < y.len() implies x.contains(#[trigger] y[j]) by {
        let i = choose|i: int| 0 <= i < a.len() && same_entry(#[trigger] a[i], #[trigger] b[j]);
        assert(x[i] == y[j]);
    }
    assert(distinct_names(x)) by {
        assert forall|i: int, j: int| 0 <= i < j < x.len() implies (#[trigger] x[i]).name() != (
        #[trigger] x[j]).name() by {
            assert(a[i].name() != a[j].name());
        }
    }
    assert(distinct_names(y)) by {
        assert forall|i: int, j: int| 0 <= i < j < y.len() implies (#[trigger] y[i]).name() != (
        #[trigger] y[j]).name() by {
            assert(b[i].name() != b[j].name());
        }
    }
    lemma_sorted_same(x, y);
}

/// The lines of two listings in a row are the lines of the first and then those
/// of the second.
pub proof fn lemma_rendered_all_add(a: Seq<Entry>, b: Seq<Entry>)
    ensures
        rendered_all(a + b) == rendered_all(a) + rendered_all(b),
{
    assert(rendered_all(a + b) =~= rendered_all(a) + rendered_all(b));
}

/// The name of an entry.
fn name_of(node: &Node) -> (name: &String)
    ensures
        name@ == node@.name(),
{
    match node {
        Node::Directory(d) => &d.name,
        Node::File(name) => name,
    }
}

/// Whether the name `a` comes strictly before the name `b`.
fn chars_before(a: &Vec<char>, b: &Vec<char>) -> (r: bool)
    ensures
        r == name_before(a@, b@),
{
    let mut i: usize = 0;
    proof {
        assert(a@.skip(0) =~= a@);
        assert(b@.skip(0) =~= b@);
    }
    while i < a.len() && i < b.len() && a[i] == b[i]
        invariant
            i <= a.len(),
            i <= b.len(),
            name_before(a@, b@) == name_before(a@.skip(i as int), b@.skip(i as int)),
        decreases a.len() - i,
    {
        proof {
            assert(a@.skip(i as int).drop_first() =~= a@.skip(i + 1));
            assert(b@.skip(i as int).drop_first() =~= b@.skip(i + 1));
        }
        i += 1;
    }
    if i == b.len() {
        false
    } else if i == a.len() {
        true
    } else {
        (a[i] as u32) < (b[i] as u32)
    }
}

/// The entries that the indices `order` pick from `ts`, in the order of `order`.
pub open spec fn picked(ts: Seq<Tree>, order: Seq<usize>) -> Seq<Tree> {
    Seq::new(order.len(), |k: int| ts[order[k] as int])
}

/// The indices of `entries` in the order of the entries' names.
fn sorted_order(entries: &Vec<Node>) -> (order: Vec<usize>)
    ensures
        order.len() == entries.len(),
        forall|k: int| 0 <= k < order.len() ==> order[k] < entries.len(),
        picked(views(entries@), order@) == sorted_by_name(views(entries@)),
{
    let ghost ts = views(entries@);
    let mut keys: Vec<Vec<char>> = Vec::new();
    let mut i: usize = 0;
    while i < entries.len()
        invariant
            i <= entries.len(),
            keys.len() == i,
            ts == views(entries@),
            forall|k: int| 0 <= k < i ==> (#[trigger] keys[k])@ == ts[k].name(),
        decreases entries.len() - i,
    {
        keys.push(chars_of(name_of(&entries[i]).as_str()));
        i += 1;
    }
    let mut order: Vec<usize> = Vec::new();
    let mut j: usize = 0;
    proof {
        assert(ts.take(0) =~= Seq::<Tree>::empty());
    }
    while j < entries.len()
        invariant
            j <= entries.len(),
            keys.len() == entries.len(),
            ts == views(entries@),
            forall|k: int| 0 <= k < keys.len() ==> (#[trigger] keys[k])@ == ts[k].name(),
            order.len() == j,
            forall|k: int| 0 <= k < order.len() ==> order[k] < entries.len(),
            picked(ts, order@) == sorted_by_name(ts.take(j as int)),
        decreases entries.len() - j,
    {
        let ghost before = picked(ts, order@);
        let mut p: usize = order.len();
        while p > 0 && chars_before(&keys[j], &keys[order[p - 1]])
            invariant
                p <= order.len(),
                j < entries.len(),
                keys.len() == entries.len(),
                ts == views(entries@),
                forall|k: int| 0 <= k < keys.len() ==> (#[trigger] keys[k])@ == ts[k].name(),
                forall|k: int| 0 <= k < order.len() ==> order[k] < entries.len(),
                before == picked(ts, order@),
                forall|q: int|
                    p <= q < before.len() ==> name_before(
                        ts[j as int].name(),
                        (#[trigger] before[q]).name(),
                    ),
            decreases p,
        {
            p -= 1;
        }
        order.insert(p, j);
        proof {
            lemma_insert_position(before, ts[j as int], p as int);
            assert(ts.take(j + 1).drop_last() =~= ts.take(j as int));
        }
        j += 1;
    }
    assert(ts.take(j as int) =~= ts);
    order
}

/// Appends to `out` the schema lines of `entries`, which lie at `depth`.
fn emit(entries: &Vec<Node>, prefix: &String, Ghost(depth): Ghost<nat>, out: &mut Vec<String>)
    requires
        prefix@ == indentation(depth),
    ensures
        string_views(final(out)@) == string_views(old(out)@) + schema_lines(
            views(entries@),
            depth,
        ),
    decreases entries,
{
    let ghost ts = views(entries@);
    let ghost sorted = sorted_deep(ts);
    let ghost start = string_views(out@);
    let order = sorted_order(entries);
    let mut deeper = prefix.clone();
    deeper.append("    ");
    proof {
        reveal_strlit("    ");
        lemma_sorted_deep(ts);
    }
    let mut k: usize = 0;
    while k < order.len()
        invariant
            k <= order.len(),
            order.len() == entries.len(),
            forall|x: int| 0 <= x < order.len() ==> order[x] < entries.len(),
            ts == views(entries@),
            sorted == sort_each(sorted_by_name(ts)),
            sorted == sorted_deep(ts),
            picked(ts, order@) == sorted_by_name(ts),
            prefix@ == indentation(depth),
            deeper@ == indentation(depth + 1),
            string_views(out@) == start + rendered_all(listing(sorted.take(k as int), depth)),
        decreases order.len() - k,
    {
        let node = &entries[order[k]];
        let ghost t = sorted[k as int];
        let ghost so_far = listing(sorted.take(k as int), depth);
        let ghost lines_before = string_views(out@);
        proof {
            assert(sorted.take(k + 1) =~= sorted.take(k as int).push(t));
            lemma_listing_push(sorted.take(k as int), t, depth);
            lemma_rendered_all_add(so_far + seq![t.entry(depth)], listing(t.children(), depth + 1));
            lemma_rendered_all_add(so_far, seq![t.entry(depth)]);
        }
        match node {
            Node::Directory(d) => {
                let mut line = prefix.clone();
                line.append(d.name.as_str());
                line.append("/");
                proof {
                    reveal_strlit("/");
                    assert(line@ =~= rendered(t.entry(depth)));
                }
                out.push(line);
                proof {
                    assert(string_views(out@) =~= lines_before + seq![rendered(t.entry(depth))]);
                }
                emit(&d.children, &deeper, Ghost(depth + 1), out);
            },
            Node::File(name) => {
                let mut line = prefix.clone();
                line.append(name.as_str());
                proof {
                    assert(line@ =~= rendered(t.entry(depth)));
                }
                out.push(line);
                proof {
                    assert(string_views(out@) =~= lines_before + seq![rendered(t.entry(depth))]);
                }
            },
        }
        k += 1;
    }
    assert(sorted.take(k as int) =~= sorted);
}

/// The schema lines of a directory's entries, which lie at `depth`.
///
/// The entries are taken in the order of their names, files and directories
/// together. Each gives one line: four spaces for each level of depth, its name,
/// and `/` behind a directory. The lines of what a directory holds follow its own
/// line at once, one level deeper.
pub fn sub_schema(entries: &Vec<Node>, depth: usize) -> (lines: Vec<String>)
    ensures
        string_views(lines@) == schema_lines(views(entries@), depth as nat),
{
    let mut prefix = String::new();
    let mut level: usize = 0;
    proof {
        assert(prefix@ =~= indentation(0));
    }
    while level < depth
        invariant
            level <= depth,
            prefix@ == indentation(level as nat),
        decreases depth - level,
    {
        prefix.append("    ");
        proof {
            reveal_strlit("    ");
        }
        level += 1;
    }
    let mut lines: Vec<String> = Vec::new();
    proof {
        assert(string_views(lines@) =~= Seq::<Seq<char>>::empty());
    }
    emit(entries, &prefix, Ghost(depth as nat), &mut lines);
    proof {
        assert(Seq::<Seq<char>>::empty() + schema_lines(views(entries@), depth as nat)
            =~= schema_lines(views(entries@), depth as nat));
    }
    lines
}

/// The schema document of a directory with the given entries, and the number of
/// its lines. The document holds the schema lines from depth 0, each followed by
/// a line feed.
pub fn create_schema(entries: &Vec<Node>) -> (out: (String, usize))
    ensures
        out.0@ == document(schema_lines(views(entries@), 0)),
        out.1 == schema_lines(views(entries@), 0).len(),
{
    let lines = sub_schema(entries, 0);
    let mut text = String::new();
    let mut i: usize = 0;
    proof {
        assert(string_views(lines@).take(0) =~= Seq::<Seq<char>>::empty());
    }
    while i < lines.len()
        invariant
            i <= lines.len(),
            text@ == document(string_views(lines@).take(i as int)),
        decreases lines.len() - i,
    {
        proof {
            assert(string_views(lines@).take(i + 1).drop_last() =~= string_views(lines@).take(
                i as int,
            ));
        }
        text.append(lines[i].as_str());
        text.append("\n");
        proof {
            reveal_strlit("\n");
        }
        i += 1;
    }
    assert(string_views(lines@).take(i as int) =~= string_views(lines@));
    (text, lines.len())
}

} // verus!
