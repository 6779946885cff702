//! The directory tree that an archive header describes.

use vstd::prelude::*;
use crate::json::{lemma_lookup_decreases, Json, JsonValue};

verus! {

/// A named node of a directory.
#[derive(Debug, PartialEq, Eq)]
pub struct Child {
    pub name: String,
    pub node: Node,
}

/// One node of the header tree, classified once.
#[derive(Debug, PartialEq, Eq)]
pub enum Node {
    /// A directory with its children, in the header's order.
    Directory(Vec<Child>),
    /// A file: `size` bytes that start `offset` bytes into the data region.
    File { size: u64, offset: u64 },
    /// A leaf that is neither.
    Malformed,
}

/// The mathematical value of a [`Node`].
pub enum Tree {
    Directory(Seq<(Seq<char>, Tree)>),
    File { size: u64, offset: u64 },
    Malformed,
}

/// The tree that `node` stands for.
pub open spec fn node_tree(node: Node) -> Tree
    decreases node,
{
    match node {
        Node::Directory(children) => Tree::Directory(
            Seq::new(
                children@.len(),
                |i: int|
                    if 0 <= i < children@.len() {
                        (children@[i].name@, node_tree(children@[i].node))
                    } else {
                        (Seq::empty(), Tree::Malformed)
                    },
            ),
        ),
        Node::File { size, offset } => Tree::File { size, offset },
        Node::Malformed => Tree::Malformed,
    }
}

impl View for Node {
    type V = Tree;

    open spec fn view(&self) -> Tree {
        node_tree(*self)
    }
}

/// The member that holds a directory's children.
pub open spec fn files_key() -> Seq<char> {
    "files"@
}

/// The member that holds a file's byte count.
pub open spec fn size_key() -> Seq<char> {
    "size"@
}

/// The member that holds a file's position in the data region.
pub open spec fn offset_key() -> Seq<char> {
    "offset"@
}

/// What a header value describes. It is a directory if and only if its
/// `files` member is an object, whose members are then its children. Without
/// that, it is a file if `size` and `offset` are both non-negative integers
/// that fit 64 bits, and malformed in every other case.
pub open spec fn classified(value: JsonValue) -> Tree
    decreases value,
{
    match value.lookup(files_key()) {
        Some(JsonValue::Object(children)) => {
            proof {
                lemma_lookup_decreases(value, files_key());
            }
            Tree::Directory(
                Seq::new(
                    children.len(),
                    |k: int|
                        if 0 <= k < children.len() {
                            (children[k].0, classified(children[k].1))
                        } else {
                            (Seq::empty(), Tree::Malformed)
                        },
                ),
            )
        },
        _ => match (value.member(size_key()), value.member(offset_key())) {
            (JsonValue::Number(Some(size)), JsonValue::Number(Some(offset))) => Tree::File {
                size,
                offset,
            },
            _ => Tree::Malformed,
        },
    }
}

/// The root directory of a header document: the children under its `files`
/// member, or no children where it has no such object.
pub open spec fn header_tree(document: JsonValue) -> Tree {
    match classified(document) {
        Tree::Directory(children) => Tree::Directory(children),
        _ => Tree::Directory(Seq::empty()),
    }
}

/// Classifies a header value and everything below it.
pub fn classify(value: &Json) -> (node: Node)
    ensures
        node@ == classified(value@),
    decreases value@,
{
    match value.get("files") {
        Some(Json::Object(members)) => {
            let ghost found = Json::Object(*members);
            let ghost model = found@->Object_0;
            proof {
                lemma_lookup_decreases(value@, files_key());
            }
            let mut children: Vec<Child> = Vec::new();
            let mut k: usize = 0;
            while k < members.len()
                invariant
                    k <= members.len(),
                    children@.len() == k,
                    model.len() == members.len(),
                    decreases_to!(value@ => model),
                    forall|j: int|
                        0 <= j < members.len() ==> (#[trigger] model[j]) == (
                            members[j].name@,
                            members[j].value@,
                        ),
                    forall|j: int|
                        0 <= j < k ==> (#[trigger] children@[j]).name@ == model[j].0
                            && children@[j].node@ == classified(model[j].1),
                decreases members.len() - k,
            {
                let member = &members[k];
                proof {
                    assert(model[k as int].1 == member.value@);
                }
                let node = classify(&member.value);
                children.push(Child { name: member.name.clone(), node });
                k = k + 1;
            }
            let node = Node::Directory(children);
            proof {
                let made = node@->Directory_0;
                let wanted = classified(value@)->Directory_0;
                assert(made =~= wanted);
            }
            node
        },
        _ => {
            let size = value.get("size");
            let offset = value.get("offset");
            match (size, offset) {
                (Some(Json::Number(Some(size))), Some(Json::Number(Some(offset)))) => Node::File {
                    size: *size,
                    offset: *offset,
                },
                _ => Node::Malformed,
            }
        },
    }
}

/// The root directory of a header document.
pub fn header_root(document: &Json) -> (root: Node)
    ensures
        root@ == header_tree(document@),
        root is Directory,
{
    match classify(document) {
        Node::Directory(children) => Node::Directory(children),
        _ => {
            let root = Node::Directory(Vec::new());
            assert(root@->Directory_0 =~= Seq::empty());
            root
        },
    }
}

} // verus!
