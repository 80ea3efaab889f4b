use dir_schema::parse::process_dir_file;
use dir_schema::schema::{create_schema, sub_schema};
use dir_schema::tree::{Directory, Node};

fn dir(name: &str, children: Vec<Node>) -> Node {
    Node::Directory(Directory { name: name.to_string(), children })
}

fn file(name: &str) -> Node {
    Node::File(name.to_string())
}

fn name_of(node: &Node) -> String {
    match node {
        Node::Directory(d) => d.name.clone(),
        Node::File(name) => name.clone(),
    }
}

/// The tree with the entries of every directory in the order of their names.
fn sorted(node: &Node) -> Node {
    match node {
        Node::Directory(d) => {
            let mut children: Vec<Node> = d.children.iter().map(sorted).collect();
            children.sort_by(|a, b| name_of(a).cmp(&name_of(b)));
            dir(&d.name, children)
        }
        Node::File(name) => file(name),
    }
}

#[test]
fn schema_of_nothing() {
    assert_eq!(sub_schema(&vec![], 0), Vec::<String>::new());
    assert_eq!(create_schema(&vec![]), (String::new(), 0));
}

#[test]
fn schema_example_file_and_empty_directory() {
    let entries = vec![file("b.txt"), dir("a", vec![])];
    assert_eq!(sub_schema(&entries, 0), vec!["a/", "b.txt"]);
    assert_eq!(create_schema(&entries), ("a/\nb.txt\n".to_string(), 2));
}

#[test]
fn schema_indents_four_spaces_for_each_level() {
    let entries = vec![dir("project", vec![file("README"), dir("src", vec![file("main.txt")])])];
    assert_eq!(
        sub_schema(&entries, 0),
        vec!["project/", "    README", "    src/", "        main.txt"]
    );
    assert_eq!(
        create_schema(&entries),
        ("project/\n    README\n    src/\n        main.txt\n".to_string(), 4)
    );
}

#[test]
fn schema_starts_at_the_given_depth() {
    let entries = vec![dir("d", vec![file("f")]), file("a")];
    assert_eq!(sub_schema(&entries, 1), vec!["    a", "    d/", "        f"]);
    assert_eq!(
        sub_schema(&entries, 3),
        vec!["            a", "            d/", "                f"]
    );
}

#[test]
fn schema_sorts_files_and_directories_together() {
    let entries = vec![file("m"), dir("z", vec![]), dir("a", vec![]), file("b")];
    assert_eq!(sub_schema(&entries, 0), vec!["a/", "b", "m", "z/"]);
}

#[test]
fn schema_sorts_by_code_point() {
    let entries = vec![file("b"), file("a"), file("B"), file("_"), file("ab"), file("a.b"), file("é"), file("z")];
    assert_eq!(sub_schema(&entries, 0), vec!["B", "_", "a", "a.b", "ab", "b", "z", "é"]);
}

#[test]
fn schema_prefix_comes_first() {
    let entries = vec![file("abc"), file("ab"), file("a"), file("abd")];
    assert_eq!(sub_schema(&entries, 0), vec!["a", "ab", "abc", "abd"]);
}

#[test]
fn schema_sorts_at_every_level() {
    let entries = vec![
        dir("y", vec![file("2"), file("1"), dir("0", vec![file("q"), file("p")])]),
        dir("x", vec![file("b"), file("a")]),
    ];
    assert_eq!(
        sub_schema(&entries, 0),
        vec!["x/", "    a", "    b", "y/", "    0/", "        p", "        q", "    1", "    2"]
    );
}

#[test]
fn schema_keeps_the_order_of_equal_names() {
    let entries = vec![dir("a", vec![file("second")]), file("a"), dir("a", vec![file("first")])];
    assert_eq!(sub_schema(&entries, 0), vec!["a/", "    second", "a", "a/", "    first"]);
}

#[test]
fn schema_agrees_with_std_sort_on_many_names() {
    let alphabet = ['a', 'b', 'A', '.', '_', 'é', '0', '~', '\u{1F600}'];
    let mut state: u64 = 0x9E3779B97F4A7C15;
    for round in 0..300usize {
        let mut names: Vec<String> = Vec::new();
        for _ in 0..(round % 14) {
            let mut name = String::new();
            state ^= state << 13;
            state ^= state >> 7;
            state ^= state << 17;
            let len = 1 + (state % 4) as usize;
            for _ in 0..len {
                state ^= state << 13;
                state ^= state >> 7;
                state ^= state << 17;
                name.push(alphabet[(state % alphabet.len() as u64) as usize]);
            }
            names.push(name);
        }
        let entries: Vec<Node> = names.iter().map(|n| file(n)).collect();
        names.sort();
        assert_eq!(sub_schema(&entries, 0), names);
    }
}

#[test]
fn round_trip_gives_the_sorted_tree() {
    let tree = dir(
        "site",
        vec![
            file("index.html"),
            dir("css", vec![file("style.css"), file("reset.css")]),
            dir("empty", vec![]),
            dir("js", vec![dir("vendor", vec![file("lib.js")]), file("app.js")]),
            file("a b#c"),
        ],
    );
    let entries = match &tree {
        Node::Directory(d) => d.children.clone(),
        Node::File(_) => vec![],
    };
    let (text, count) = create_schema(&entries);
    assert_eq!(count, 10);
    assert_eq!(process_dir_file("site", &text), Ok(sorted(&tree)));
}

#[test]
fn round_trip_of_what_was_read() {
    let text = "b/\n  y\n  x/\n    deep\na\n";
    let tree = process_dir_file("r", text).unwrap();
    let entries = match &tree {
        Node::Directory(d) => d.children.clone(),
        Node::File(_) => vec![],
    };
    let (schema, count) = create_schema(&entries);
    assert_eq!(schema, "a\nb/\n    x/\n        deep\n    y\n");
    assert_eq!(count, 5);
    assert_eq!(process_dir_file("r", &schema), Ok(sorted(&tree)));
    // A schema that the serializer wrote is given back as it is.
    let again = match process_dir_file("r", &schema).unwrap() {
        Node::Directory(d) => create_schema(&d.children),
        Node::File(_) => (String::new(), 0),
    };
    assert_eq!(again, (schema, 5));
}

#[test]
fn schema_does_not_depend_on_the_order_read() {
    let one = vec![
        dir("b", vec![file("2"), dir("k", vec![file("z"), file("y")]), file("1")]),
        file("c"),
        dir("a", vec![]),
    ];
    let other = vec![
        dir("a", vec![]),
        dir("b", vec![dir("k", vec![file("y"), file("z")]), file("1"), file("2")]),
        file("c"),
    ];
    assert_eq!(create_schema(&one), create_schema(&other));
    assert_eq!(
        create_schema(&one).0,
        "a/\nb/\n    1\n    2\n    k/\n        y\n        z\nc\n"
    );
}

#[test]
fn clone_of_a_tree_is_the_tree() {
    let tree = dir("r", vec![file("a"), dir("d", vec![dir("e", vec![]), file("f")])]);
    assert_eq!(tree.clone(), tree);
    let inner = Directory { name: "x".to_string(), children: vec![file("y"), dir("z", vec![])] };
    assert_eq!(inner.clone(), inner);
}
