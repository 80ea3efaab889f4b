//! The directory tree: the executable nodes, their mathematical model, and the
//! pre-order listing that ties a tree to the lines of a schema.

use vstd::prelude::*;

verus! {

/// A directory: its name and its entries, in order.
#[derive(Debug, PartialEq, Eq)]
pub struct Directory {
    pub name: String,
    pub children: Vec<Node>,
}

/// An entry of a tree. Only a directory has entries below it.
#[derive(Debug, PartialEq, Eq)]
pub enum Node {
    Directory(Directory),
    File(String),
}

/// The mathematical model of a [`Node`].
pub enum Tree {
    Dir(Seq<char>, Seq<Tree>),
    File(Seq<char>),
}

/// One line of a listing: how deep the entry lies, its name, and its kind.
pub struct Entry {
    pub depth: nat,
    pub name: Seq<char>,
    pub is_dir: bool,
}

impl Tree {
    pub open spec fn name(self) -> Seq<char> {
        match self {
            Tree::Dir(name, _) => name,
            Tree::File(name) => name,
        }
    }

    pub open spec fn is_dir(self) -> bool {
        self is Dir
    }

    /// The entries directly below; none for a file.
    pub open spec fn children(self) -> Seq<Tree> {
        match self {
            Tree::Dir(_, children) => children,
            Tree::File(_) => Seq::empty(),
        }
    }

    /// The listing line of this entry itself at `depth`.
    pub open spec fn entry(self, depth: nat) -> Entry {
        Entry { depth, name: self.name(), is_dir: self.is_dir() }
    }
}

/// The pre-order listing of the sibling entries `ts`, which lie at `depth`: each
/// entry is followed at once by the listing of what is below it, one level deeper.
pub open spec fn listing(ts: Seq<Tree>, depth: nat) -> Seq<Entry>
    decreases ts,
{
    if ts.len() == 0 {
        Seq::empty()
    } else {
        listing(ts.drop_last(), depth) + seq![ts.last().entry(depth)] + match ts.last() {
            Tree::Dir(_, below) => listing(below, depth + 1),
            Tree::File(_) => Seq::empty(),
        }
    }
}

/// The models of a sequence of nodes.
pub open spec fn views(nodes: Seq<Node>) -> Seq<Tree>
    decreases nodes,
{
    Seq::new(
        nodes.len(),
        |i: int|
            if 0 <= i < nodes.len() {
                nodes[i].view()
            } else {
                Tree::File(Seq::empty())
            },
    )
}

impl View for Node {
    type V = Tree;

    open spec fn view(&self) -> Tree
        decreases self,
    {
        match self {
            Node::Directory(d) => Tree::Dir(d.name@, views(d.children@)),
            Node::File(name) => Tree::File(name@),
        }
    }
}

impl View for Directory {
    type V = Tree;

    open spec fn view(&self) -> Tree {
        Tree::Dir(self.name@, views(self.children@))
    }
}

/// Copies of the nodes, in order.
fn clone_nodes(nodes: &Vec<Node>) -> (out: Vec<Node>)
    ensures
        views(out@) == views(nodes@),
    decreases nodes,
{
    let mut out: Vec<Node> = Vec::new();
    let mut i: usize = 0;
    while i < nodes.len()
        invariant
            i <= nodes.len(),
            out.len() == i,
            forall|k: int| 0 <= k < i ==> (#[trigger] out[k])@ == nodes[k]@,
        decreases nodes.len() - i,
    {
        out.push(nodes[i].clone());
        i += 1;
    }
    out
}

impl Clone for Node {
    fn clone(&self) -> (out: Self)
        ensures
            out@ == self@,
        decreases self,
    {
        match self {
            Node::Directory(d) => Node::Directory(
                Directory { name: d.name.clone(), children: clone_nodes(&d.children) },
            ),
            Node::File(name) => Node::File(name.clone()),
        }
    }
}

impl Clone for Directory {
    fn clone(&self) -> (out: Self)
        ensures
            out@ == self@,
    {
        Directory { name: self.name.clone(), children: clone_nodes(&self.children) }
    }
}

/// A listing grows by an entry and what that entry lists.
pub proof fn lemma_listing_push(ts: Seq<Tree>, t: Tree, depth: nat)
    ensures
        listing(ts.push(t), depth) == listing(ts, depth) + seq![t.entry(depth)] + listing(
            t.children(),
            depth + 1,
        ),
{
    assert(ts.push(t).drop_last() =~= ts);
    if t is File {
        assert(listing(Seq::<Tree>::empty(), depth + 1) =~= Seq::<Entry>::empty());
    }
}

/// No entry of a listing lies above the depth of the listing.
pub proof fn lemma_listing_depths(ts: Seq<Tree>, depth: nat)
    ensures
        forall|k: int|
            0 <= k < listing(ts, depth).len() ==> (#[trigger] listing(ts, depth)[k]).depth >= depth,
    decreases ts,
{
    if ts.len() > 0 {
        let head = listing(ts.drop_last(), depth);
        let below = listing(ts.last().children(), depth + 1);
        lemma_listing_depths(ts.drop_last(), depth);
        match ts.last() {
            Tree::Dir(_, inner) => {
                lemma_listing_depths(inner, depth + 1);
            },
            Tree::File(_) => {
                assert(below =~= Seq::<Entry>::empty());
            },
        }
        assert forall|k: int| 0 <= k < listing(ts, depth).len() implies (#[trigger] listing(
            ts,
            depth,
        )[k]).depth >= depth by {
            if k < head.len() {
                assert(listing(ts, depth)[k] == head[k]);
            } else if k > head.len() {
                assert(listing(ts, depth)[k] == below[k - head.len() - 1]);
            }
        }
    }
}

/// A listing lists one forest only: sibling entries with the same listing are equal.
pub proof fn lemma_listing_injective(a: Seq<Tree>, b: Seq<Tree>, depth: nat)
    requires
        listing(a, depth) == listing(b, depth),
    ensures
        a == b,
    decreases a,
{
    if a.len() == 0 || b.len() == 0 {
        assert(a =~= b);
    } else {
        let all = listing(a, depth);
        let head_a = listing(a.drop_last(), depth);
        let head_b = listing(b.drop_last(), depth);
        let below_a = listing(a.last().children(), depth + 1);
        let below_b = listing(b.last().children(), depth + 1);
        lemma_listing_push(a.drop_last(), a.last(), depth);
        lemma_listing_push(b.drop_last(), b.last(), depth);
        assert(a.drop_last().push(a.last()) =~= a);
        lemma_listing_depths(a.last().children(), depth + 1);
        lemma_listing_depths(b.last().children(), depth + 1);
        // The own line of the last entry is the last line at this depth.
        if head_a.len() < head_b.len() {
            assert(all[head_b.len() as int] == b.last().entry(depth));
        }
        if head_b.len() < head_a.len() {
            assert(all[head_a.len() as int] == a.last().entry(depth));
        }
        assert(head_a =~= all.take(head_a.len() as int));
        assert(head_b =~= all.take(head_a.len() as int));
        assert(all[head_a.len() as int] == a.last().entry(depth));
        assert(below_a =~= all.skip(head_a.len() as int + 1));
        assert(below_b =~= all.skip(head_a.len() as int + 1));
        lemma_listing_injective(a.drop_last(), b.drop_last(), depth);
        match a.last() {
            Tree::Dir(_, inner_a) => {
                match b.last() {
                    Tree::Dir(_, inner_b) => {
                        lemma_listing_injective(inner_a, inner_b, depth + 1);
                    },
                    Tree::File(_) => {},
                }
            },
            Tree::File(_) => {},
        }
    }
}

} // verus!
