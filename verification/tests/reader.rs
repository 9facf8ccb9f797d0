use powercap::reader::{FileReader, ReadError, Reader};
use powercap::tree::{FileTree, IoFailure, Node};

fn tree_with(path: &str, text: &str) -> FileTree {
    let mut tree = FileTree::new();
    tree.insert(path.to_string(), Node::File(Ok(text.to_string())));
    tree
}

fn read_string(reader: &FileReader, tree: &FileTree) -> Result<String, ReadError> {
    reader.read(tree)
}

fn read_u8(reader: &FileReader, tree: &FileTree) -> Result<u8, ReadError> {
    reader.read(tree)
}

fn read_u64(reader: &FileReader, tree: &FileTree) -> Result<u64, ReadError> {
    reader.read(tree)
}

fn read_bool(reader: &FileReader, tree: &FileTree) -> Result<bool, ReadError> {
    reader.read(tree)
}

#[test]
fn reader_keeps_its_path() {
    let reader = FileReader::from("/a/name".to_string());
    assert_eq!(reader.path(), "/a/name");
}

#[test]
fn string_is_trimmed_and_not_validated() {
    let reader = FileReader::from("/a/name".to_string());
    assert_eq!(read_string(&reader, &tree_with("/a/name", "  package-0\n")).unwrap(), "package-0");
    assert_eq!(read_string(&reader, &tree_with("/a/name", "")).unwrap(), "");
    assert_eq!(read_string(&reader, &tree_with("/a/name", " \n ")).unwrap(), "");
    assert_eq!(read_string(&reader, &tree_with("/a/name", "a b")).unwrap(), "a b");
}

#[test]
fn integers_are_trimmed_and_parsed() {
    let reader = FileReader::from("/a/energy_uj".to_string());
    assert_eq!(read_u64(&reader, &tree_with("/a/energy_uj", "262143328850\n")).unwrap(), 262143328850);
    assert_eq!(read_u64(&reader, &tree_with("/a/energy_uj", " 0 ")).unwrap(), 0);
    assert_eq!(
        read_u64(&reader, &tree_with("/a/energy_uj", "18446744073709551615")).unwrap(),
        u64::MAX
    );
    assert_eq!(read_u8(&reader, &tree_with("/a/energy_uj", "255\n")).unwrap(), 255);
    assert_eq!(read_u8(&reader, &tree_with("/a/energy_uj", "\t7")).unwrap(), 7);
}

#[test]
fn malformed_integer_is_a_parse_error() {
    let reader = FileReader::from("/a/energy_uj".to_string());
    match read_u64(&reader, &tree_with("/a/energy_uj", "not-a-number")) {
        Err(ReadError::Parse(description)) => {
            assert_eq!(description, "invalid digit found in string");
            assert_eq!(description, "not-a-number".parse::<u64>().unwrap_err().to_string());
        }
        other => panic!("{:?}", other),
    }
    match read_u64(&reader, &tree_with("/a/energy_uj", "\n")) {
        Err(ReadError::Parse(description)) => {
            assert_eq!(description, "cannot parse integer from empty string");
        }
        other => panic!("{:?}", other),
    }
    match read_u64(&reader, &tree_with("/a/energy_uj", "18446744073709551616")) {
        Err(ReadError::Parse(description)) => {
            assert_eq!(description, "number too large to fit in target type");
        }
        other => panic!("{:?}", other),
    }
    match read_u8(&reader, &tree_with("/a/energy_uj", "256")) {
        Err(ReadError::Parse(description)) => {
            assert_eq!(description, "number too large to fit in target type");
        }
        other => panic!("{:?}", other),
    }
    match read_u8(&reader, &tree_with("/a/energy_uj", "-1")) {
        Err(ReadError::Parse(description)) => {
            assert_eq!(description, "invalid digit found in string");
        }
        other => panic!("{:?}", other),
    }
}

#[test]
fn flag_is_set_by_any_value_above_zero() {
    let reader = FileReader::from("/a/enabled".to_string());
    assert_eq!(read_bool(&reader, &tree_with("/a/enabled", "0\n")).unwrap(), false);
    assert_eq!(read_bool(&reader, &tree_with("/a/enabled", "1\n")).unwrap(), true);
    assert_eq!(read_bool(&reader, &tree_with("/a/enabled", "2")).unwrap(), true);
    assert_eq!(read_bool(&reader, &tree_with("/a/enabled", "255")).unwrap(), true);
    assert_eq!(read_bool(&reader, &tree_with("/a/enabled", "000")).unwrap(), false);
    assert!(matches!(
        read_bool(&reader, &tree_with("/a/enabled", "256")),
        Err(ReadError::Parse(_))
    ));
    assert!(matches!(
        read_bool(&reader, &tree_with("/a/enabled", "true")),
        Err(ReadError::Parse(_))
    ));
}

#[test]
fn missing_file_is_an_io_error() {
    let reader = FileReader::from("/a/energy_uj".to_string());
    let tree = FileTree::new();
    assert!(matches!(read_string(&reader, &tree), Err(ReadError::Io(IoFailure::NotFound))));
    assert!(matches!(read_u8(&reader, &tree), Err(ReadError::Io(IoFailure::NotFound))));
    assert!(matches!(read_u64(&reader, &tree), Err(ReadError::Io(IoFailure::NotFound))));
    assert!(matches!(read_bool(&reader, &tree), Err(ReadError::Io(IoFailure::NotFound))));
}

#[test]
fn refused_file_is_an_io_error() {
    let reader = FileReader::from("/a/energy_uj".to_string());
    let mut tree = FileTree::new();
    tree.insert("/a/energy_uj".to_string(), Node::File(Err(IoFailure::PermissionDenied)));
    assert!(matches!(
        read_u64(&reader, &tree),
        Err(ReadError::Io(IoFailure::PermissionDenied))
    ));
    let mut other = FileTree::new();
    other.insert("/a/energy_uj".to_string(), Node::Directory(Ok(Vec::new())));
    assert!(matches!(read_u64(&reader, &other), Err(ReadError::Io(IoFailure::IsADirectory))));
}

#[test]
fn every_read_looks_at_the_tree_it_is_given() {
    let reader = FileReader::from("/a/energy_uj".to_string());
    assert_eq!(read_u64(&reader, &tree_with("/a/energy_uj", "1")).unwrap(), 1);
    assert_eq!(read_u64(&reader, &tree_with("/a/energy_uj", "2")).unwrap(), 2);
}
