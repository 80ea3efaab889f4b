use dir_schema::materialize::{after, create_node, Action, MaterializeError, Next, Outcome};
use dir_schema::tree::{Directory, Node};

fn dir(name: &str, children: Vec<Node>) -> Node {
    Node::Directory(Directory { name: name.to_string(), children })
}

fn file(name: &str) -> Node {
    Node::File(name.to_string())
}

fn path(parts: &[&str]) -> Vec<String> {
    parts.iter().map(|p| p.to_string()).collect()
}

fn example() -> Node {
    dir("project", vec![dir("src", vec![file("main.txt")]), file("README")])
}

#[test]
fn plan_of_a_file() {
    assert_eq!(create_node(&file("a"), &path(&[])), vec![Action::CreateFile(path(&["a"]))]);
    assert_eq!(
        create_node(&file("a"), &path(&["x", "y"])),
        vec![Action::CreateFile(path(&["x", "y", "a"]))]
    );
}

#[test]
fn plan_of_an_empty_directory() {
    assert_eq!(
        create_node(&dir("d", vec![]), &path(&["."])),
        vec![Action::CreateDirectory(path(&[".", "d"]))]
    );
}

#[test]
fn plan_of_the_example_tree() {
    assert_eq!(
        create_node(&example(), &path(&["."])),
        vec![
            Action::CreateDirectory(path(&[".", "project"])),
            Action::CreateDirectory(path(&[".", "project", "src"])),
            Action::CreateFile(path(&[".", "project", "src", "main.txt"])),
            Action::CreateFile(path(&[".", "project", "README"])),
        ]
    );
}

#[test]
fn plan_goes_through_the_entries_in_their_order() {
    let tree = dir("r", vec![file("z"), dir("b", vec![file("2"), file("1")]), dir("a", vec![]), file("y")]);
    assert_eq!(
        create_node(&tree, &path(&[])),
        vec![
            Action::CreateDirectory(path(&["r"])),
            Action::CreateFile(path(&["r", "z"])),
            Action::CreateDirectory(path(&["r", "b"])),
            Action::CreateFile(path(&["r", "b", "2"])),
            Action::CreateFile(path(&["r", "b", "1"])),
            Action::CreateDirectory(path(&["r", "a"])),
            Action::CreateFile(path(&["r", "y"])),
        ]
    );
}

#[test]
fn walk_goes_on_after_each_success() {
    let actions = create_node(&example(), &path(&["."]));
    assert_eq!(after(&actions, 0, Outcome::Created), Next::Perform(1));
    assert_eq!(after(&actions, 1, Outcome::Created), Next::Perform(2));
    assert_eq!(after(&actions, 2, Outcome::Created), Next::Perform(3));
    assert_eq!(after(&actions, 3, Outcome::Created), Next::Finished);
}

#[test]
fn walk_is_finished_beyond_the_last_action() {
    let actions = create_node(&file("a"), &path(&[]));
    assert_eq!(after(&actions, 1, Outcome::Created), Next::Finished);
    assert_eq!(after(&actions, 7, Outcome::Failed), Next::Finished);
    assert_eq!(after(&vec![], 0, Outcome::Exists), Next::Finished);
}

#[test]
fn collision_at_the_root_creates_nothing() {
    let actions = create_node(&example(), &path(&["."]));
    assert_eq!(actions[0], Action::CreateDirectory(path(&[".", "project"])));
    assert_eq!(
        after(&actions, 0, Outcome::Exists),
        Next::Abort(MaterializeError::AlreadyExists(path(&[".", "project"])))
    );
}

#[test]
fn collision_further_down_names_its_path() {
    let actions = create_node(&example(), &path(&["."]));
    assert_eq!(
        after(&actions, 1, Outcome::Exists),
        Next::Abort(MaterializeError::AlreadyExists(path(&[".", "project", "src"])))
    );
}

#[test]
fn refusal_names_the_path() {
    let actions = create_node(&example(), &path(&["."]));
    assert_eq!(
        after(&actions, 2, Outcome::Failed),
        Next::Abort(MaterializeError::Io(path(&[".", "project", "src", "main.txt"])))
    );
    assert_eq!(
        after(&actions, 3, Outcome::Failed),
        Next::Abort(MaterializeError::Io(path(&[".", "project", "README"])))
    );
}

/// Runs the walk on a disk that is a list of paths, as the caller of the library does.
fn run(tree: &Node, disk: &mut Vec<Vec<String>>) -> Result<(), MaterializeError> {
    let actions = create_node(tree, &path(&[]));
    let mut index = 0;
    loop {
        let outcome = match &actions[index] {
            Action::CreateDirectory(p) => {
                if disk.contains(p) {
                    Outcome::Exists
                } else {
                    disk.push(p.clone());
                    Outcome::Created
                }
            }
            Action::CreateFile(p) => {
                if disk.contains(&p[..p.len() - 1].to_vec()) {
                    if !disk.contains(p) {
                        disk.push(p.clone());
                    }
                    Outcome::Created
                } else {
                    Outcome::Failed
                }
            }
        };
        match after(&actions, index, outcome) {
            Next::Perform(next) => index = next,
            Next::Finished => return Ok(()),
            Next::Abort(e) => return Err(e),
        }
    }
}

#[test]
fn walk_on_an_empty_disk_creates_everything() {
    let mut disk = vec![];
    assert_eq!(run(&example(), &mut disk), Ok(()));
    assert_eq!(
        disk,
        vec![
            path(&["project"]),
            path(&["project", "src"]),
            path(&["project", "src", "main.txt"]),
            path(&["project", "README"]),
        ]
    );
}

#[test]
fn walk_on_a_disk_with_the_root_changes_nothing() {
    let mut disk = vec![path(&["project"])];
    assert_eq!(run(&example(), &mut disk), Err(MaterializeError::AlreadyExists(path(&["project"]))));
    assert_eq!(disk, vec![path(&["project"])]);
}

#[test]
fn walk_leaves_what_was_created_before_a_failure() {
    let tree = dir("r", vec![file("a"), file("missing/b"), file("c")]);
    let mut disk = vec![];
    // The file `missing/b` has no directory to stand in: its path has four components here.
    let actions = create_node(&tree, &path(&[]));
    assert_eq!(actions[2], Action::CreateFile(path(&["r", "missing/b"])));
    assert_eq!(run(&tree, &mut disk), Ok(()));
    let tree = dir("r2", vec![file("a"), dir("d", vec![file("x")]), file("c")]);
    let mut disk = vec![path(&["r2", "d"])];
    assert_eq!(run(&tree, &mut disk), Err(MaterializeError::AlreadyExists(path(&["r2", "d"]))));
    assert_eq!(disk, vec![path(&["r2", "d"]), path(&["r2"]), path(&["r2", "a"])]);
}
