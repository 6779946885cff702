//! The flattened file table: every file of the header tree with its path and
//! its place in the stream.

use vstd::prelude::*;
use vstd::string::*;
use crate::model::{lemma_views_empty, lemma_views_push, views};
use crate::path::{join_path, joined};
use crate::tree::{Node, Tree};

verus! {

/// One file of the archive: its relative path, the absolute position of its
/// first byte in the stream, and its byte count.
#[derive(Debug, Clone, PartialEq, Eq)]
pub struct FileEntry {
    pub path: String,
    pub offset: u64,
    pub size: u64,
}

/// The mathematical value of a [`FileEntry`].
pub struct Located {
    pub path: Seq<char>,
    pub offset: u64,
    pub size: u64,
}

impl View for FileEntry {
    type V = Located;

    open spec fn view(&self) -> Located {
        Located { path: self.path@, offset: self.offset, size: self.size }
    }
}

/// The outcome of a walk over the header tree: the files, and the paths of
/// the malformed leaves that were skipped, each list in the order of the walk.
#[derive(Debug, Clone, PartialEq, Eq)]
pub struct FileTable {
    pub entries: Vec<FileEntry>,
    pub malformed: Vec<String>,
}

/// The mathematical value of a [`FileTable`].
pub struct Flattened {
    pub entries: Seq<Located>,
    pub malformed: Seq<Seq<char>>,
}

impl Flattened {
    /// The outcome of a walk that met no leaf.
    pub open spec fn empty() -> Flattened {
        Flattened { entries: Seq::empty(), malformed: Seq::empty() }
    }

    /// The outcome of this walk followed by `next`.
    pub open spec fn followed_by(self, next: Flattened) -> Flattened {
        Flattened {
            entries: self.entries + next.entries,
            malformed: self.malformed + next.malformed,
        }
    }
}

impl View for FileTable {
    type V = Flattened;

    open spec fn view(&self) -> Flattened {
        Flattened { entries: views(self.entries@), malformed: views(self.malformed@) }
    }
}

/// The absolute position of a file that starts `offset` bytes into a data
/// region that starts at `base`. A position beyond `u64::MAX`, which no stream
/// reaches, is held as `u64::MAX`.
pub open spec fn absolute_offset(base: u64, offset: u64) -> u64 {
    if base + offset <= u64::MAX {
        (base + offset) as u64
    } else {
        u64::MAX
    }
}

/// The walk over `tree`, which stands at `path`: a file gives one entry, a
/// malformed leaf gives its path, and a directory gives the walks over its
/// children, one after the other, each child at `path` joined with its name.
pub open spec fn flattened(tree: Tree, path: Seq<char>, base: u64) -> Flattened
    decreases tree,
{
    match tree {
        Tree::Directory(children) => flattened_children(children, path, base),
        Tree::File { size, offset } => Flattened {
            entries: seq![Located { path, offset: absolute_offset(base, offset), size }],
            malformed: Seq::empty(),
        },
        Tree::Malformed => Flattened { entries: Seq::empty(), malformed: seq![path] },
    }
}

/// The walks over the `children` of the directory at `path`, in order.
pub open spec fn flattened_children(
    children: Seq<(Seq<char>, Tree)>,
    path: Seq<char>,
    base: u64,
) -> Flattened
    decreases children,
{
    if children.len() == 0 {
        Flattened::empty()
    } else {
        flattened_children(children.drop_last(), path, base).followed_by(
            flattened(children.last().1, joined(path, children.last().0), base),
        )
    }
}

/// Computes the absolute position of a file in the stream.
pub fn locate(base: u64, offset: u64) -> (position: u64)
    ensures
        position == absolute_offset(base, offset),
{
    if offset <= u64::MAX - base {
        base + offset
    } else {
        u64::MAX
    }
}

/// Walks `node`, which stands at `path`, and appends what it finds to `table`.
pub fn flatten_into(node: &Node, path: &str, base: u64, table: &mut FileTable)
    ensures
        final(table)@ == old(table)@.followed_by(flattened(node@, path@, base)),
    decreases node@,
{
    match node {
        Node::Directory(children) => {
            let ghost model = node@->Directory_0;
            let mut k: usize = 0;
            while k < children.len()
                invariant
                    k <= children.len(),
                    model.len() == children.len(),
                    node@ == Tree::Directory(model),
                    decreases_to!(node@ => model),
                    forall|j: int|
                        0 <= j < children.len() ==> (#[trigger] model[j]) == (
                            children[j].name@,
                            children[j].node@,
                        ),
                    table@ == old(table)@.followed_by(
                        flattened_children(model.take(k as int), path@, base),
                    ),
                decreases children.len() - k,
            {
                let child = &children[k];
                let child_path = join_path(path, child.name.as_str());
                proof {
                    assert(decreases_to!(model[k as int] => model[k as int].1));
                }
                flatten_into(&child.node, child_path.as_str(), base, table);
                proof {
                    let next = model.take(k as int + 1);
                    assert(next.drop_last() =~= model.take(k as int));
                    assert(table@.entries =~= old(table)@.followed_by(
                        flattened_children(next, path@, base),
                    ).entries);
                    assert(table@.malformed =~= old(table)@.followed_by(
                        flattened_children(next, path@, base),
                    ).malformed);
                }
                k = k + 1;
            }
            assert(model.take(k as int) =~= model);
        },
        Node::File { size, offset } => {
            let entry = FileEntry {
                path: String::from_str(path),
                offset: locate(base, *offset),
                size: *size,
            };
            proof {
                lemma_views_push(table.entries@, entry);
                assert(views(table.entries@).push(entry@) =~= views(table.entries@) + seq![
                    entry@,
                ]);
                assert(table@.malformed =~= table@.malformed + Seq::<Seq<char>>::empty());
            }
            table.entries.push(entry);
        },
        Node::Malformed => {
            let skipped = String::from_str(path);
            proof {
                lemma_views_push(table.malformed@, skipped);
            }
            table.malformed.push(skipped);
        },
    }
}

/// Walks the whole header tree below `root`, whose own path is empty, for a
/// data region that starts at `base`.
pub fn flatten(root: &Node, base: u64) -> (table: FileTable)
    ensures
        table@ == flattened(root@, Seq::empty(), base),
{
    let mut table = FileTable { entries: Vec::new(), malformed: Vec::new() };
    proof {
        lemma_views_empty::<FileEntry>();
        lemma_views_empty::<String>();
    }
    let root_path = String::new();
    flatten_into(root, root_path.as_str(), base, &mut table);
    table
}

} // verus!
