//! The materializer: which directories and files a tree asks for, in which order,
//! and how the walk goes on after each attempt.

use crate::text::string_views;
use crate::tree::{views, Node, Tree};
use vstd::prelude::*;

verus! {

/// One thing to create on disk. A path is the list of its components below the
/// place where the tree is to stand.
#[derive(Debug, Clone, PartialEq, Eq)]
pub enum Action {
    /// Create the directory, with the directories above it that are missing,
    /// unless something exists at the path already: that is a collision.
    CreateDirectory(Vec<String>),
    /// Create an empty file.
    CreateFile(Vec<String>),
}

/// The mathematical model of an [`Action`].
pub enum Task {
    Directory(Seq<Seq<char>>),
    File(Seq<Seq<char>>),
}

impl View for Action {
    type V = Task;

    open spec fn view(&self) -> Task {
        match self {
            Action::CreateDirectory(path) => Task::Directory(string_views(path@)),
            Action::CreateFile(path) => Task::File(string_views(path@)),
        }
    }
}

impl Task {
    pub open spec fn path(self) -> Seq<Seq<char>> {
        match self {
            Task::Directory(path) => path,
            Task::File(path) => path,
        }
    }
}

/// The models of a sequence of actions.
pub open spec fn action_views(actions: Seq<Action>) -> Seq<Task> {
    Seq::new(actions.len(), |i: int| actions[i]@)
}

/// What happened when an action was attempted.
#[derive(Debug, Clone, Copy, PartialEq, Eq)]
pub enum Outcome {
    /// The directory or file now exists.
    Created,
    /// Something was at the path already.
    Exists,
    /// The system refused.
    Failed,
}

/// Why a tree could not be materialized. Both carry the path of the action that
/// did not succeed.
#[derive(Debug, Clone, PartialEq, Eq)]
pub enum MaterializeError {
    AlreadyExists(Vec<String>),
    Io(Vec<String>),
}

/// How a walk goes on.
#[derive(Debug, Clone, PartialEq, Eq)]
pub enum Next {
    /// Attempt the action at this index.
    Perform(usize),
    /// Every action has succeeded.
    Finished,
    /// Stop: nothing further is attempted, and what was created stays.
    Abort(MaterializeError),
}

/// The mathematical model of a [`Next`].
pub enum Verdict {
    Perform(nat),
    Finished,
    AlreadyExists(Seq<Seq<char>>),
    Io(Seq<Seq<char>>),
}

impl View for Next {
    type V = Verdict;

    open spec fn view(&self) -> Verdict {
        match self {
            Next::Perform(index) => Verdict::Perform(*index as nat),
            Next::Finished => Verdict::Finished,
            Next::Abort(MaterializeError::AlreadyExists(path)) => Verdict::AlreadyExists(
                string_views(path@),
            ),
            Next::Abort(MaterializeError::Io(path)) => Verdict::Io(string_views(path@)),
        }
    }
}

/// The actions that materialize the tree `t` below `path`, in order: the entry
/// itself, then, for a directory, what it holds, entry by entry, inside it.
pub open spec fn plan(t: Tree, path: Seq<Seq<char>>) -> Seq<Task>
    decreases t,
{
    match t {
        Tree::Dir(name, below) => seq![Task::Directory(path.push(name))] + plans(
            below,
            path.push(name),
        ),
        Tree::File(name) => seq![Task::File(path.push(name))],
    }
}

/// The actions that materialize the sibling entries `ts` below `path`, in order.
pub open spec fn plans(ts: Seq<Tree>, path: Seq<Seq<char>>) -> Seq<Task>
    decreases ts,
{
    if ts.len() == 0 {
        Seq::empty()
    } else {
        plans(ts.drop_last(), path) + plan(ts.last(), path)
    }
}

/// How the walk through `actions` goes on after the one at `index` has had
/// `outcome`: to the next action after a success, to the end after the last, and
/// to an error that names the path after anything else. Beyond the last action
/// the walk is finished.
pub open spec fn decided(actions: Seq<Task>, index: int, outcome: Outcome) -> Verdict {
    if 0 <= index < actions.len() {
        match outcome {
            Outcome::Created => if index + 1 < actions.len() {
                Verdict::Perform((index + 1) as nat)
            } else {
                Verdict::Finished
            },
            Outcome::Exists => Verdict::AlreadyExists(actions[index].path()),
            Outcome::Failed => Verdict::Io(actions[index].path()),
        }
    } else {
        Verdict::Finished
    }
}

/// A tree whose root directory collides creates nothing: the action for the root
/// is the first of the walk, and when something exists at its path already the
/// walk ends there, before anything has been attempted, with the root's path.
pub proof fn lemma_collision_at_root(name: Seq<char>, below: Seq<Tree>, path: Seq<Seq<char>>)
    ensures
        plan(Tree::Dir(name, below), path).len() > 0,
        plan(Tree::Dir(name, below), path)[0] == Task::Directory(path.push(name)),
        decided(plan(Tree::Dir(name, below), path), 0, Outcome::Exists) == Verdict::AlreadyExists(
            path.push(name),
        ),
{
}

/// A copy of a path.
fn copy_path(path: &Vec<String>) -> (out: Vec<String>)
    ensures
        string_views(out@) == string_views(path@),
{
    let mut out: Vec<String> = Vec::new();
    let mut i: usize = 0;
    while i < path.len()
        invariant
            i <= path.len(),
            string_views(out@) == string_views(path@).take(i as int),
        decreases path.len() - i,
    {
        let ghost before = string_views(out@);
        out.push(path[i].clone());
        proof {
            assert(string_views(out@) =~= before.push(path[i as int]@));
        }
        i += 1;
    }
    proof {
        assert(string_views(path@).take(i as int) =~= string_views(path@));
    }
    out
}

/// The path of the entry `name` in the directory at `path`.
fn extended(path: &Vec<String>, name: &String) -> (out: Vec<String>)
    ensures
        string_views(out@) == string_views(path@).push(name@),
{
    let mut out = copy_path(path);
    let ghost before = string_views(out@);
    out.push(name.clone());
    proof {
        assert(string_views(out@) =~= before.push(name@));
    }
    out
}

/// Appends to `out` the actions that materialize `node` below `path`.
fn plan_into(node: &Node, path: &Vec<String>, out: &mut Vec<Action>)
    ensures
        action_views(final(out)@) == action_views(old(out)@) + plan(node@, string_views(path@)),
    decreases node,
{
    let ghost start = action_views(out@);
    match node {
        Node::Directory(d) => {
            let here = extended(path, &d.name);
            let ghost own = Task::Directory(string_views(here@));
            let ghost below = views(d.children@);
            out.push(Action::CreateDirectory(copy_path(&here)));
            proof {
                assert(below.take(0) =~= Seq::<Tree>::empty());
            }
            let mut i: usize = 0;
            while i < d.children.len()
                invariant
                    i <= d.children.len(),
                    below == views(d.children@),
                    node == Node::Directory(*d),
                    action_views(out@) == start + seq![own] + plans(
                        below.take(i as int),
                        string_views(here@),
                    ),
                decreases d.children.len() - i,
            {
                proof {
                    assert(below.take(i + 1).drop_last() =~= below.take(i as int));
                    assert(node->Directory_0 == *d);
                }
                plan_into(&d.children[i], &here, out);
                i += 1;
            }
            proof {
                assert(below.take(i as int) =~= below);
            }
        },
        Node::File(name) => {
            out.push(Action::CreateFile(extended(path, name)));
            proof {
                assert(action_views(out@) =~= start + plan(node@, string_views(path@)));
            }
        },
    }
}

/// The actions that materialize `node` below `path`, in the order in which they
/// are to be attempted.
///
/// A directory comes before what it holds, and its entries come in their order.
/// The first action is the one for `node` itself.
pub fn create_node(node: &Node, path: &Vec<String>) -> (actions: Vec<Action>)
    ensures
        action_views(actions@) == plan(node@, string_views(path@)),
{
    let mut actions: Vec<Action> = Vec::new();
    proof {
        assert(action_views(actions@) =~= Seq::<Task>::empty());
    }
    plan_into(node, path, &mut actions);
    proof {
        assert(Seq::<Task>::empty() + plan(node@, string_views(path@)) =~= plan(
            node@,
            string_views(path@),
        ));
    }
    actions
}

/// The path of an action.
fn path_of(action: &Action) -> (path: &Vec<String>)
    ensures
        string_views(path@) == action@.path(),
{
    match action {
        Action::CreateDirectory(path) => path,
        Action::CreateFile(path) => path,
    }
}

/// Decides how the walk through `actions` goes on after the action at `index`
/// has had `outcome`.
///
/// The walk stops at the first action that does not succeed: a collision and a
/// refusal both end it, with the path of that action, and nothing that was
/// created before is taken back.
pub fn after(actions: &Vec<Action>, index: usize, outcome: Outcome) -> (next: Next)
    ensures
        next@ == decided(action_views(actions@), index as int, outcome),
{
    if index < actions.len() {
        match outcome {
            Outcome::Created => {
                if index + 1 < actions.len() {
                    Next::Perform(index + 1)
                } else {
                    Next::Finished
                }
            },
            Outcome::Exists => Next::Abort(
                MaterializeError::AlreadyExists(copy_path(path_of(&actions[index]))),
            ),
            Outcome::Failed => Next::Abort(MaterializeError::Io(copy_path(path_of(&actions[index])))),
        }
    } else {
        Next::Finished
    }
}

} // verus!
