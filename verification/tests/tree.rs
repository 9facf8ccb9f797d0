use powercap::tree::{FileTree, IoFailure, Node};

fn file(text: &str) -> Node {
    Node::File(Ok(text.to_string()))
}

fn dir(entries: &[&str]) -> Node {
    Node::Directory(Ok(entries.iter().map(|e| e.to_string()).collect()))
}

#[test]
fn empty_tree_knows_nothing() {
    let tree = FileTree::new();
    assert!(tree.get("/a").is_none());
    assert_eq!(tree.read_to_string("/a"), Err(IoFailure::NotFound));
    assert_eq!(tree.read_dir("/a").err(), Some(IoFailure::NotFound));
    assert!(!tree.is_dir("/a"));
}

#[test]
fn file_is_read_as_it_stands() {
    let mut tree = FileTree::new();
    tree.insert("/a/energy_uj".to_string(), file(" 12\n"));
    assert_eq!(tree.read_to_string("/a/energy_uj"), Ok(" 12\n".to_string()));
    assert_eq!(tree.read_dir("/a/energy_uj").err(), Some(IoFailure::NotADirectory));
    assert!(!tree.is_dir("/a/energy_uj"));
    assert_eq!(tree.read_to_string("/a/energy_u"), Err(IoFailure::NotFound));
    assert_eq!(tree.read_to_string("/a/energy_uj "), Err(IoFailure::NotFound));
}

#[test]
fn directory_is_listed_as_it_stands() {
    let mut tree = FileTree::new();
    tree.insert("/a".to_string(), dir(&["/a/x", "/a/y"]));
    assert_eq!(
        tree.read_dir("/a").unwrap(),
        &vec!["/a/x".to_string(), "/a/y".to_string()]
    );
    assert!(tree.is_dir("/a"));
    assert_eq!(tree.read_to_string("/a"), Err(IoFailure::IsADirectory));
}

#[test]
fn failures_are_handed_on() {
    let mut tree = FileTree::new();
    tree.insert("/f".to_string(), Node::File(Err(IoFailure::PermissionDenied)));
    tree.insert("/d".to_string(), Node::Directory(Err(IoFailure::Other)));
    tree.insert("/e".to_string(), Node::File(Err(IoFailure::Os(5))));
    assert_eq!(tree.read_to_string("/e"), Err(IoFailure::Os(5)));
    assert_eq!(tree.read_to_string("/f"), Err(IoFailure::PermissionDenied));
    assert_eq!(tree.read_dir("/d").err(), Some(IoFailure::Other));
    assert!(tree.is_dir("/d"));
    assert!(!tree.is_dir("/f"));
}

#[test]
fn later_node_replaces_earlier() {
    let mut tree = FileTree::new();
    tree.insert("/a".to_string(), file("1"));
    tree.insert("/b".to_string(), file("2"));
    tree.insert("/a".to_string(), file("3"));
    assert_eq!(tree.read_to_string("/a"), Ok("3".to_string()));
    assert_eq!(tree.read_to_string("/b"), Ok("2".to_string()));
    tree.insert("/a".to_string(), dir(&[]));
    assert!(tree.is_dir("/a"));
    assert_eq!(tree.read_dir("/a").unwrap().len(), 0);
}
