//! What the pseudo-filesystem showed when it was looked at.
//!
//! A `FileTree` records, path by path, what the operating system answered: the
//! text of a file, the entries of a directory, or the failure of the attempt.
//! Discovery and every read of a metric work on such a record. A fresh record
//! gives fresh values; the record itself never changes under a reader.

use vstd::prelude::*;

verus! {

/// Why the operating system refused a file or a directory.
#[derive(Clone, Copy, Debug, PartialEq, Eq, Structural)]
pub enum IoFailure {
    /// Nothing exists at the path.
    NotFound,
    /// The path exists and may not be read.
    PermissionDenied,
    /// A directory was asked for and the path is none.
    NotADirectory,
    /// A file was asked for and the path is a directory.
    IsADirectory,
    /// The system failed with this error number.
    Os(i32),
    /// Any other failure, for which the system gave no error number.
    Other,
}

/// What stands at one path.
#[derive(Debug)]
pub enum Node {
    /// A file, with its text or the failure of reading it.
    File(Result<String, IoFailure>),
    /// A directory, with the paths of its entries or the failure of listing it.
    Directory(Result<Vec<String>, IoFailure>),
}

/// `Node` with its texts as sequences of characters.
pub enum NodeView {
    File(Result<Seq<char>, IoFailure>),
    Directory(Result<Seq<Seq<char>>, IoFailure>),
}

/// The texts of `v` as sequences of characters.
pub open spec fn texts(v: Seq<String>) -> Seq<Seq<char>> {
    Seq::new(v.len(), |i: int| v[i]@)
}

impl View for Node {
    type V = NodeView;

    open spec fn view(&self) -> NodeView {
        match self {
            Node::File(Ok(text)) => NodeView::File(Ok(text@)),
            Node::File(Err(e)) => NodeView::File(Err(*e)),
            Node::Directory(Ok(entries)) => NodeView::Directory(Ok(texts(entries@))),
            Node::Directory(Err(e)) => NodeView::Directory(Err(*e)),
        }
    }
}

/// The text of the file at `path`, or why it cannot be read.
pub open spec fn file_text(tree: Map<Seq<char>, NodeView>, path: Seq<char>) -> Result<
    Seq<char>,
    IoFailure,
> {
    if !tree.contains_key(path) {
        Err(IoFailure::NotFound)
    } else {
        match tree[path] {
            NodeView::File(outcome) => outcome,
            NodeView::Directory(_) => Err(IoFailure::IsADirectory),
        }
    }
}

/// The paths of the entries of the directory at `path`, or why it cannot be listed.
pub open spec fn dir_entries(tree: Map<Seq<char>, NodeView>, path: Seq<char>) -> Result<
    Seq<Seq<char>>,
    IoFailure,
> {
    if !tree.contains_key(path) {
        Err(IoFailure::NotFound)
    } else {
        match tree[path] {
            NodeView::Directory(outcome) => outcome,
            NodeView::File(_) => Err(IoFailure::NotADirectory),
        }
    }
}

/// Whether a directory stands at `path`.
pub open spec fn is_dir(tree: Map<Seq<char>, NodeView>, path: Seq<char>) -> bool {
    tree.contains_key(path) && tree[path] is Directory
}

/// `tree` after `nodes` are entered in turn, each in place of what stood at
/// its path.
pub open spec fn extended(
    tree: Map<Seq<char>, NodeView>,
    nodes: Seq<(Seq<char>, NodeView)>,
) -> Map<Seq<char>, NodeView>
    decreases nodes.len(),
{
    if nodes.len() == 0 {
        tree
    } else {
        extended(tree, nodes.drop_last()).insert(nodes.last().0, nodes.last().1)
    }
}

/// Entering two runs of nodes one after the other is entering them all.
pub proof fn lemma_extended_twice(
    tree: Map<Seq<char>, NodeView>,
    first: Seq<(Seq<char>, NodeView)>,
    second: Seq<(Seq<char>, NodeView)>,
)
    ensures
        extended(extended(tree, first), second) == extended(tree, first + second),
    decreases second.len(),
{
    if second.len() == 0 {
        assert(first + second == first);
    } else {
        lemma_extended_twice(tree, first, second.drop_last());
        assert((first + second).drop_last() == first + second.drop_last());
    }
}

/// Entering one node is an insertion.
pub proof fn lemma_extended_once(
    tree: Map<Seq<char>, NodeView>,
    path: Seq<char>,
    node: NodeView,
)
    ensures
        extended(tree, seq![(path, node)]) == tree.insert(path, node),
{
    reveal_with_fuel(extended, 2);
    assert(seq![(path, node)].drop_last() == Seq::<(Seq<char>, NodeView)>::empty());
}

/// A record of paths and what stands at each.
#[derive(Debug)]
pub struct FileTree {
    nodes: Vec<(String, Node)>,
}

/// The record that `nodes` make when each is entered in turn.
spec fn recorded(nodes: Seq<(String, Node)>) -> Map<Seq<char>, NodeView>
    decreases nodes.len(),
{
    if nodes.len() == 0 {
        Map::empty()
    } else {
        recorded(nodes.drop_last()).insert(nodes.last().0@, nodes.last().1@)
    }
}

/// What is recorded at `path` was entered last among the nodes of that path.
proof fn lemma_recorded_last(nodes: Seq<(String, Node)>, path: Seq<char>, i: int)
    requires
        0 <= i <= nodes.len(),
        forall|j: int| i <= j < nodes.len() ==> (#[trigger] nodes[j]).0@ != path,
    ensures
        recorded(nodes).contains_key(path) == recorded(nodes.take(i)).contains_key(path),
        recorded(nodes).contains_key(path) ==> recorded(nodes)[path] == recorded(
            nodes.take(i),
        )[path],
    decreases nodes.len() - i,
{
    if i < nodes.len() {
        let shorter = nodes.drop_last();
        assert(shorter.take(i) == nodes.take(i));
        assert forall|j: int| i <= j < shorter.len() implies (#[trigger] shorter[j]).0@ != path by {
            assert(shorter[j] == nodes[j]);
        }
        lemma_recorded_last(shorter, path, i);
    } else {
        assert(nodes.take(i) == nodes);
    }
}

impl View for FileTree {
    type V = Map<Seq<char>, NodeView>;

    closed spec fn view(&self) -> Map<Seq<char>, NodeView> {
        recorded(self.nodes@)
    }
}

impl FileTree {
    /// A record of nothing.
    pub fn new() -> (tree: FileTree)
        ensures
            tree@ == Map::<Seq<char>, NodeView>::empty(),
    {
        FileTree { nodes: Vec::new() }
    }

    /// Records `node` at `path`, in place of what stood there.
    pub fn insert(&mut self, path: String, node: Node)
        ensures
            final(self)@ == old(self)@.insert(path@, node@),
    {
        let ghost before = self.nodes@;
        self.nodes.push((path, node));
        proof {
            assert(self.nodes@.drop_last() == before);
        }
    }

    /// What is recorded at `path`.
    pub fn get(&self, path: &str) -> (node: Option<&Node>)
        ensures
            node is Some <==> self@.contains_key(path@),
            node matches Some(n) ==> n@ == self@[path@],
    {
        let key: String = path.to_owned();
        let mut i: usize = self.nodes.len();
        while i > 0
            invariant
                i <= self.nodes.len(),
                key@ == path@,
                forall|j: int| i <= j < self.nodes.len() ==> (#[trigger] self.nodes@[j]).0@ != path@,
            decreases i,
        {
            i -= 1;
            if self.nodes[i].0 == key {
                proof {
                    lemma_recorded_last(self.nodes@, path@, i + 1);
                    assert(self.nodes@.take(i + 1).drop_last() == self.nodes@.take(i as int));
                }
                return Some(&self.nodes[i].1);
            }
        }
        proof {
            lemma_recorded_last(self.nodes@, path@, 0);
        }
        None
    }

    /// The text of the file at `path`, or why it cannot be read.
    pub fn read_to_string(&self, path: &str) -> (outcome: Result<String, IoFailure>)
        ensures
            match outcome {
                Ok(text) => file_text(self@, path@) == Ok::<Seq<char>, IoFailure>(text@),
                Err(e) => file_text(self@, path@) == Err::<Seq<char>, IoFailure>(e),
            },
    {
        match self.get(path) {
            None => Err(IoFailure::NotFound),
            Some(Node::File(Ok(text))) => Ok(text.clone()),
            Some(Node::File(Err(e))) => Err(*e),
            Some(Node::Directory(_)) => Err(IoFailure::IsADirectory),
        }
    }

    /// The paths of the entries of the directory at `path`, or why it cannot
    /// be listed.
    pub fn read_dir(&self, path: &str) -> (outcome: Result<&Vec<String>, IoFailure>)
        ensures
            match outcome {
                Ok(entries) => dir_entries(self@, path@) == Ok::<Seq<Seq<char>>, IoFailure>(
                    texts(entries@),
                ),
                Err(e) => dir_entries(self@, path@) == Err::<Seq<Seq<char>>, IoFailure>(e),
            },
    {
        match self.get(path) {
            None => Err(IoFailure::NotFound),
            Some(Node::Directory(Ok(entries))) => Ok(entries),
            Some(Node::Directory(Err(e))) => Err(*e),
            Some(Node::File(_)) => Err(IoFailure::NotADirectory),
        }
    }

    /// Whether a directory stands at `path`.
    pub fn is_dir(&self, path: &str) -> (found: bool)
        ensures
            found == is_dir(self@, path@),
    {
        match self.get(path) {
            Some(Node::Directory(_)) => true,
            _ => false,
        }
    }
}

} // verus!
