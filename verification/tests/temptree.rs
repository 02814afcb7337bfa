use temptree::{name_ok, Entry, Op, Tree};

fn leaf(contents: &str) -> Entry {
    Entry::File { contents: contents.to_string() }
}

fn is_write(op: &Op, path: &[&str], contents: &str) -> bool {
    match op {
        Op::Write { path: p, contents: c } => {
            p.len() == path.len() && p.iter().zip(path.iter()).all(|(a, b)| a == b) && c == contents
        }
        Op::Dir { .. } => false,
    }
}

fn is_dir(op: &Op, path: &[&str]) -> bool {
    match op {
        Op::Dir { path: p } => p.len() == path.len() && p.iter().zip(path.iter()).all(|(a, b)| a == b),
        Op::Write { .. } => false,
    }
}

#[test]
fn single_leaf() {
    let mut tree = Tree::new();
    tree.insert("foo", leaf("bar"));
    let ops = tree.instantiate();
    assert_eq!(ops.len(), 1);
    assert!(is_write(&ops[0], &["foo"], "bar"));
}

#[test]
fn string_filename() {
    let mut tree = Tree::new();
    tree.insert("foo.txt", leaf("bar"));
    let ops = tree.instantiate();
    assert_eq!(ops.len(), 1);
    assert!(is_write(&ops[0], &["foo.txt"], "bar"));
}

#[test]
fn dir() {
    let mut sub = Tree::new();
    sub.insert("bar", leaf("baz"));
    let mut tree = Tree::new();
    tree.insert("foo", Entry::Tree { tree: sub });
    let ops = tree.instantiate();
    assert_eq!(ops.len(), 2);
    assert!(is_dir(&ops[0], &["foo"]));
    assert!(is_write(&ops[1], &["foo", "bar"], "baz"));
}

#[test]
fn multiple_entries() {
    let mut tree = Tree::new();
    tree.insert("a", leaf("foo"));
    tree.insert("b", leaf("bar"));
    let ops = tree.instantiate();
    assert_eq!(ops.len(), 2);
    assert!(is_write(&ops[0], &["a"], "foo"));
    assert!(is_write(&ops[1], &["b"], "bar"));
}

#[test]
fn empty_tree() {
    let mut tree = Tree::new();
    tree.insert("a", Entry::Tree { tree: Tree::new() });
    let ops = tree.instantiate();
    assert_eq!(ops.len(), 1);
    assert!(is_dir(&ops[0], &["a"]));
}

#[test]
fn map_contents() {
    let mut tree = Tree::new();
    tree.insert("a", leaf("foo"));
    tree.insert("b", leaf("bar"));
    tree.map(|_name: &str, contents: &str| contents.to_uppercase());
    let ops = tree.instantiate();
    assert_eq!(ops.len(), 2);
    assert!(is_write(&ops[0], &["a"], "FOO"));
    assert!(is_write(&ops[1], &["b"], "BAR"));
}

#[test]
fn map_identity_keeps_everything() {
    let mut tree = Tree::new();
    let mut sub = Tree::new();
    sub.insert("inner", leaf("one"));
    tree.insert("top", leaf("zero"));
    tree.insert("nest", Entry::Tree { tree: sub });
    tree.map(|_name: &str, contents: &str| contents.to_string());
    let ops = tree.instantiate();
    assert_eq!(ops.len(), 3);
    assert!(is_write(&ops[0], &["top"], "zero"));
    assert!(is_dir(&ops[1], &["nest"]));
    assert!(is_write(&ops[2], &["nest", "inner"], "one"));
}

#[test]
fn map_sees_child_name() {
    let mut tree = Tree::new();
    tree.insert("a", leaf("foo"));
    tree.map(|name: &str, contents: &str| format!("{}:{}", name, contents));
    let ops = tree.instantiate();
    assert_eq!(ops.len(), 1);
    assert!(is_write(&ops[0], &["a"], "a:foo"));
}

#[test]
fn map_reaches_every_depth() {
    let mut inner = Tree::new();
    inner.insert("deep", leaf("x"));
    let mut mid = Tree::new();
    mid.insert("inner", Entry::Tree { tree: inner });
    mid.insert("here", leaf("y"));
    let mut tree = Tree::new();
    tree.insert("mid", Entry::Tree { tree: mid });
    tree.map(|_name: &str, contents: &str| contents.to_uppercase());
    let ops = tree.instantiate();
    assert_eq!(ops.len(), 4);
    assert!(is_dir(&ops[0], &["mid"]));
    assert!(is_dir(&ops[1], &["mid", "inner"]));
    assert!(is_write(&ops[2], &["mid", "inner", "deep"], "X"));
    assert!(is_write(&ops[3], &["mid", "here"], "Y"));
}

#[test]
fn duplicate_key_overwrites() {
    let mut tree = Tree::new();
    tree.insert("a", leaf("first"));
    tree.insert("a", leaf("second"));
    let ops = tree.instantiate();
    assert_eq!(ops.len(), 1);
    assert!(is_write(&ops[0], &["a"], "second"));
}

#[test]
fn overwrite_keeps_position() {
    let mut tree = Tree::new();
    tree.insert("a", leaf("first"));
    tree.insert("b", leaf("other"));
    tree.insert("a", leaf("second"));
    let ops = tree.instantiate();
    assert_eq!(ops.len(), 2);
    assert!(is_write(&ops[0], &["a"], "second"));
    assert!(is_write(&ops[1], &["b"], "other"));
}

#[test]
fn overwrite_replaces_directory_with_leaf() {
    let mut sub = Tree::new();
    sub.insert("old", leaf("gone"));
    let mut tree = Tree::new();
    tree.insert("a", Entry::Tree { tree: sub });
    tree.insert("a", leaf("new"));
    let ops = tree.instantiate();
    assert_eq!(ops.len(), 1);
    assert!(is_write(&ops[0], &["a"], "new"));
}

#[test]
fn literal_round_trip() {
    let mut sub = Tree::new();
    sub.insert("baz", leaf("qux"));
    let mut tree = Tree::new();
    tree.insert("foo", leaf("bar"));
    tree.insert("sub", Entry::Tree { tree: sub });
    let ops = tree.instantiate();
    assert_eq!(ops.len(), 3);
    assert!(is_write(&ops[0], &["foo"], "bar"));
    assert!(is_dir(&ops[1], &["sub"]));
    assert!(is_write(&ops[2], &["sub", "baz"], "qux"));
}

#[test]
fn empty_tree_has_empty_plan() {
    let tree = Tree::new();
    assert_eq!(tree.instantiate().len(), 0);
    let tree: Tree = Default::default();
    assert_eq!(tree.instantiate().len(), 0);
}

#[test]
fn empty_file_contents() {
    let mut tree = Tree::new();
    tree.insert("empty", leaf(""));
    let ops = tree.instantiate();
    assert_eq!(ops.len(), 1);
    assert!(is_write(&ops[0], &["empty"], ""));
}

#[test]
fn name_validity() {
    assert!(name_ok("foo"));
    assert!(name_ok("foo.txt"));
    assert!(name_ok(".."));
    assert!(!name_ok(""));
    assert!(!name_ok("a/b"));
    assert!(!name_ok("/"));
}
