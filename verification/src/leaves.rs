//! The leaves of a header tree by the names that lead to them, and what an
//! open yields for a tree whose names are plain.

use vstd::prelude::*;
use crate::archive::{collected, malformed_warnings, opened, read, Opened};
use crate::content::{available, payload, stored_with, Stored};
use crate::error::Failure;
use crate::header::{decoded, PREFIX_WIDTH};
use crate::path::{joined, separator};
use crate::table::{absolute_offset, flattened, flattened_children, Flattened, Located};
use crate::tree::Tree;

verus! {

/// A leaf of a header tree: the names on the way from the root to it, and the
/// node itself, which is a file or malformed.
pub struct Leaf {
    pub names: Seq<Seq<char>>,
    pub node: Tree,
}

/// The leaves of `tree`, which is reached by `names`, in the order of the walk.
pub open spec fn leaves(tree: Tree, names: Seq<Seq<char>>) -> Seq<Leaf>
    decreases tree,
{
    match tree {
        Tree::Directory(children) => leaves_of(children, names),
        _ => seq![Leaf { names, node: tree }],
    }
}

/// The leaves below the `children` of the directory reached by `names`.
pub open spec fn leaves_of(children: Seq<(Seq<char>, Tree)>, names: Seq<Seq<char>>) -> Seq<Leaf>
    decreases children,
{
    if children.len() == 0 {
        Seq::empty()
    } else {
        leaves_of(children.drop_last(), names) + leaves(
            children.last().1,
            names.push(children.last().0),
        )
    }
}

/// The `names` with one separator between each two.
pub open spec fn slash_joined(names: Seq<Seq<char>>) -> Seq<char>
    decreases names.len(),
{
    if names.len() == 0 {
        Seq::empty()
    } else if names.len() == 1 {
        names[0]
    } else {
        slash_joined(names.drop_last()).push(separator()) + names.last()
    }
}

/// A name that is not empty and holds no separator.
pub open spec fn plain(name: Seq<char>) -> bool {
    name.len() > 0 && forall|i: int| 0 <= i < name.len() ==> name[i] != separator()
}

/// Whether each of `names` is plain.
pub open spec fn all_plain(names: Seq<Seq<char>>) -> bool {
    forall|i: int| 0 <= i < names.len() ==> plain(#[trigger] names[i])
}

/// Whether, in every directory of `tree`, each child's name is plain and no
/// two children have the same name.
pub open spec fn plainly_named(tree: Tree) -> bool
    decreases tree,
{
    match tree {
        Tree::Directory(children) => {
            &&& forall|i: int|
                0 <= i < children.len() ==> plain((#[trigger] children[i]).0) && plainly_named(
                    children[i].1,
                )
            &&& forall|i: int, j: int|
                0 <= i < j < children.len() ==> (#[trigger] children[i]).0 != (
                #[trigger] children[j]).0
        },
        _ => true,
    }
}

/// Joined plain names are empty only where there is no name.
pub proof fn lemma_slash_joined_len(names: Seq<Seq<char>>)
    requires
        all_plain(names),
    ensures
        names.len() == 0 <==> slash_joined(names).len() == 0,
{
}

/// Joining one more name to plain names is the join of the path so far with
/// that name.
pub proof fn lemma_slash_joined_push(names: Seq<Seq<char>>, name: Seq<char>)
    requires
        all_plain(names),
    ensures
        slash_joined(names.push(name)) == joined(slash_joined(names), name),
{
    let longer = names.push(name);
    assert(longer.drop_last() =~= names);
    lemma_slash_joined_len(names);
}

/// Joined plain names hold a separator only where there are two names or more.
proof fn lemma_single_name_has_no_separator(names: Seq<Seq<char>>, at: int)
    requires
        all_plain(names),
        0 <= at < slash_joined(names).len(),
        slash_joined(names)[at] == separator(),
    ensures
        names.len() >= 2,
{
}

/// Plain names are told by their join: different names give different paths.
pub proof fn lemma_slash_joined_injective(a: Seq<Seq<char>>, b: Seq<Seq<char>>)
    requires
        all_plain(a),
        all_plain(b),
        slash_joined(a) == slash_joined(b),
    ensures
        a == b,
    decreases a.len(),
{
    let s = slash_joined(a);
    lemma_slash_joined_len(a);
    lemma_slash_joined_len(b);
    if a.len() >= 2 && b.len() >= 2 {
        let front_a = slash_joined(a.drop_last());
        let front_b = slash_joined(b.drop_last());
        let x = a.last();
        let y = b.last();
        assert(s[front_a.len() as int] == separator());
        assert(s[front_b.len() as int] == separator());
        assert(x =~= y) by {
            assert forall|i: int| 0 <= i < x.len() implies x[i] == y[i] by {
                assert(s[front_a.len() + 1 + i] == x[i]);
            }
        }
        assert(front_a =~= front_b) by {
            assert forall|i: int| 0 <= i < front_a.len() implies front_a[i] == front_b[i] by {
                assert(s[i] == front_a[i]);
            }
        }
        lemma_slash_joined_injective(a.drop_last(), b.drop_last());
        assert(a =~= a.drop_last().push(x));
    } else if a.len() >= 2 && b.len() > 0 {
        lemma_single_name_has_no_separator(b, slash_joined(a.drop_last()).len() as int);
    } else if b.len() >= 2 && a.len() > 0 {
        lemma_single_name_has_no_separator(a, slash_joined(b.drop_last()).len() as int);
    }
}

/// The walk meets every leaf once: it gives an entry or a skipped path for
/// each leaf of the tree, whatever the names are.
pub proof fn lemma_walk_meets_every_leaf(
    tree: Tree,
    names: Seq<Seq<char>>,
    path: Seq<char>,
    base: u64,
)
    ensures
        flattened(tree, path, base).entries.len() + flattened(tree, path, base).malformed.len()
            == leaves(tree, names).len(),
    decreases tree,
{
    if let Tree::Directory(children) = tree {
        lemma_walk_meets_every_child(children, names, path, base);
    }
}

/// The same for the children of a directory.
pub proof fn lemma_walk_meets_every_child(
    children: Seq<(Seq<char>, Tree)>,
    names: Seq<Seq<char>>,
    path: Seq<char>,
    base: u64,
)
    ensures
        flattened_children(children, path, base).entries.len() + flattened_children(
            children,
            path,
            base,
        ).malformed.len() == leaves_of(children, names).len(),
    decreases children,
{
    if children.len() > 0 {
        let last = children.last();
        lemma_walk_meets_every_child(children.drop_last(), names, path, base);
        lemma_walk_meets_every_leaf(last.1, names.push(last.0), joined(path, last.0), base);
    }
}

/// The shape of a path of plain names: it is not empty, neither begins nor
/// ends with a separator, and holds no two separators in a row, so none of
/// its segments is empty.
pub proof fn lemma_plain_path_shape(names: Seq<Seq<char>>)
    requires
        all_plain(names),
        names.len() > 0,
    ensures
        slash_joined(names).len() > 0,
        slash_joined(names).first() != separator(),
        slash_joined(names).last() != separator(),
        forall|i: int|
            0 <= i < slash_joined(names).len() - 1 ==> !(slash_joined(names)[i] == separator()
                && #[trigger] slash_joined(names)[i + 1] == separator()),
    decreases names.len(),
{
    if names.len() > 1 {
        lemma_plain_path_shape(names.drop_last());
    }
}

/// Whether `leaf` lies below the node that `names` reach.
pub open spec fn reached_through(leaf: Leaf, names: Seq<Seq<char>>) -> bool {
    leaf.names.len() >= names.len() && leaf.names.take(names.len() as int) == names
}

/// Whether one of `children` is called `name`.
pub open spec fn has_child(children: Seq<(Seq<char>, Tree)>, name: Seq<char>) -> bool {
    exists|c: int| 0 <= c < children.len() && (#[trigger] children[c]).0 == name
}

/// Whether `children` are the children of a plainly named directory.
pub open spec fn plain_children(children: Seq<(Seq<char>, Tree)>) -> bool {
    plainly_named(Tree::Directory(children))
}

/// What makes children plain.
pub proof fn lemma_plain_children(children: Seq<(Seq<char>, Tree)>)
    ensures
        plain_children(children) <==> {
            &&& forall|i: int|
                0 <= i < children.len() ==> plain((#[trigger] children[i]).0) && plainly_named(
                    children[i].1,
                )
            &&& forall|i: int, j: int|
                0 <= i < j < children.len() ==> (#[trigger] children[i]).0 != (
                #[trigger] children[j]).0
        },
{
    assert(Tree::Directory(children)->Directory_0 == children);
}

/// Of plain children, all but the last are plain children too, and the last
/// has a plain name, which none of the others has, and is plainly named.
pub proof fn lemma_plain_children_split(children: Seq<(Seq<char>, Tree)>)
    requires
        plain_children(children),
        children.len() > 0,
    ensures
        plain_children(children.drop_last()),
        plain(children.last().0),
        plainly_named(children.last().1),
        !has_child(children.drop_last(), children.last().0),
{
    let rest = children.drop_last();
    lemma_plain_children(children);
    lemma_plain_children(rest);
}

/// In a plainly named tree every leaf is reached by plain names that begin
/// with the names of the tree itself, and no two leaves by the same names.
pub proof fn lemma_leaves_names(tree: Tree, names: Seq<Seq<char>>)
    requires
        plainly_named(tree),
        all_plain(names),
    ensures
        forall|i: int|
            0 <= i < leaves(tree, names).len() ==> reached_through(
                #[trigger] leaves(tree, names)[i],
                names,
            ) && all_plain(leaves(tree, names)[i].names),
        forall|i: int, j: int|
            0 <= i < j < leaves(tree, names).len() ==> (#[trigger] leaves(tree, names)[i]).names != (
            #[trigger] leaves(tree, names)[j]).names,
    decreases tree,
{
    match tree {
        Tree::Directory(children) => {
            lemma_leaves_of_names(children, names);
        },
        _ => {
            assert(names.take(names.len() as int) =~= names);
        },
    }
}

/// Whether `leaf` lies below one of the `children` of the directory that
/// `names` reach.
pub open spec fn below_child(
    leaf: Leaf,
    children: Seq<(Seq<char>, Tree)>,
    names: Seq<Seq<char>>,
) -> bool {
    &&& leaf.names.len() > names.len()
    &&& leaf.names.take(names.len() as int) == names
    &&& has_child(children, leaf.names[names.len() as int])
}

/// The same for the children of a plainly named directory: every leaf lies
/// below one of them.
pub proof fn lemma_leaves_of_names(children: Seq<(Seq<char>, Tree)>, names: Seq<Seq<char>>)
    requires
        plain_children(children),
        all_plain(names),
    ensures
        forall|i: int|
            0 <= i < leaves_of(children, names).len() ==> below_child(
                #[trigger] leaves_of(children, names)[i],
                children,
                names,
            ) && all_plain(leaves_of(children, names)[i].names),
        forall|i: int, j: int|
            0 <= i < j < leaves_of(children, names).len() ==> (#[trigger] leaves_of(
                children,
                names,
            )[i]).names != (#[trigger] leaves_of(children, names)[j]).names,
    decreases children,
{
    if children.len() > 0 {
        let rest = children.drop_last();
        let last = children.last();
        let depth = names.len() as int;
        let deeper = names.push(last.0);
        let back = leaves(last.1, deeper);
        lemma_plain_children_split(children);
        lemma_leaves_of_names(rest, names);
        lemma_leaves_names(last.1, deeper);
        assert forall|i: int| 0 <= i < back.len() implies below_child(
            #[trigger] back[i],
            children,
            names,
        ) && back[i].names[depth] == last.0 by {
            let reached = back[i].names;
            assert(reached.take(depth + 1)[depth] == deeper[depth]);
            assert(reached.take(depth) =~= reached.take(depth + 1).take(depth));
            assert(deeper.take(depth) =~= names);
        }
    }
}

/// Whether `leaf` is a file whose bytes a stream of `length` bytes holds,
/// for a data region that starts at `base`.
pub open spec fn held(leaf: Leaf, base: u64, length: nat) -> bool {
    leaf.node matches Tree::File { size, offset } && available(
        length,
        absolute_offset(base, offset),
        size,
    )
}

/// The table entry of a leaf that is a file: it stands under its names,
/// joined.
pub open spec fn located_leaf(leaf: Leaf, base: u64) -> Located {
    Located {
        path: slash_joined(leaf.names),
        offset: absolute_offset(base, leaf.node->offset),
        size: leaf.node->size,
    }
}

/// The table entries of `found`, in order.
pub open spec fn located_leaves(found: Seq<Leaf>, base: u64) -> Seq<Located> {
    Seq::new(found.len(), |i: int| located_leaf(found[i], base))
}

/// Whether each of `found` is a file.
pub open spec fn all_files(found: Seq<Leaf>) -> bool {
    forall|i: int| 0 <= i < found.len() ==> (#[trigger] found[i]).node is File
}

/// Where every leaf of a plainly named tree is a file, the walk gives one
/// table entry for each leaf, in order, and skips nothing.
pub proof fn lemma_flattened_files(tree: Tree, names: Seq<Seq<char>>, base: u64)
    requires
        plainly_named(tree),
        all_plain(names),
        all_files(leaves(tree, names)),
    ensures
        flattened(tree, slash_joined(names), base) == (Flattened {
            entries: located_leaves(leaves(tree, names), base),
            malformed: Seq::empty(),
        }),
    decreases tree,
{
    let found = leaves(tree, names);
    let walked = flattened(tree, slash_joined(names), base);
    match tree {
        Tree::Directory(children) => {
            lemma_flattened_children_files(children, names, base);
        },
        Tree::File { size, offset } => {
            assert(walked.entries =~= located_leaves(found, base));
        },
        Tree::Malformed => {
            assert(found[0].node is File);
        },
    }
}

/// The same for the children of a plainly named directory.
pub proof fn lemma_flattened_children_files(
    children: Seq<(Seq<char>, Tree)>,
    names: Seq<Seq<char>>,
    base: u64,
)
    requires
        plain_children(children),
        all_plain(names),
        all_files(leaves_of(children, names)),
    ensures
        flattened_children(children, slash_joined(names), base) == (Flattened {
            entries: located_leaves(leaves_of(children, names), base),
            malformed: Seq::empty(),
        }),
    decreases children,
{
    let walked = flattened_children(children, slash_joined(names), base);
    let all = leaves_of(children, names);
    if children.len() == 0 {
        assert(walked.entries =~= located_leaves(all, base));
    } else {
        let rest = children.drop_last();
        let last = children.last();
        let deeper = names.push(last.0);
        let front = leaves_of(rest, names);
        let back = leaves(last.1, deeper);
        lemma_plain_children_split(children);
        assert(all_files(front)) by {
            assert forall|i: int| 0 <= i < front.len() implies (#[trigger] front[i]).node is File by {
                assert(front[i] == all[i]);
            }
        }
        assert(all_files(back)) by {
            assert forall|i: int| 0 <= i < back.len() implies (#[trigger] back[i]).node is File by {
                assert(back[i] == all[front.len() + i]);
            }
        }
        lemma_flattened_children_files(rest, names, base);
        lemma_slash_joined_push(names, last.0);
        lemma_flattened_files(last.1, deeper, base);
        assert(walked.entries =~= located_leaves(all, base));
    }
}

/// What is stored for `files` whose bytes `stream` holds: each under its
/// path, in order.
pub open spec fn stored_files(stream: Seq<u8>, files: Seq<Located>) -> Seq<Stored> {
    Seq::new(
        files.len(),
        |i: int|
            Stored {
                path: files[i].path,
                content: payload(stream, files[i].offset, files[i].size),
            },
    )
}

/// Files with different paths, whose bytes the stream holds, are stored one by
/// one, in order, with no warning added.
pub proof fn lemma_collected_all(stream: Seq<u8>, files: Seq<Located>, strict: bool, start: Opened)
    requires
        start.entries.len() == 0,
        forall|i: int, j: int|
            0 <= i < j < files.len() ==> (#[trigger] files[i]).path != (#[trigger] files[j]).path,
        forall|i: int|
            0 <= i < files.len() ==> available(
                stream.len(),
                (#[trigger] files[i]).offset,
                files[i].size,
            ),
    ensures
        collected(stream, files, strict, start) == Ok::<Opened, Failure>(
            Opened { entries: stored_files(stream, files), warnings: start.warnings },
        ),
    decreases files.len(),
{
    if files.len() == 0 {
        assert(stored_files(stream, files) =~= start.entries);
    } else {
        let rest = files.drop_last();
        let last = files.last();
        lemma_collected_all(stream, rest, strict, start);
        let before = stored_files(stream, rest);
        let content = payload(stream, last.offset, last.size);
        assert(stored_with(before, last.path, content) =~= stored_files(stream, files));
    }
}

/// What an open stores for a leaf that is a file: its bytes, under its
/// names joined by separators.
pub open spec fn stored_leaf(leaf: Leaf, base: u64, stream: Seq<u8>) -> Stored {
    Stored {
        path: slash_joined(leaf.names),
        content: payload(stream, absolute_offset(base, leaf.node->offset), leaf.node->size),
    }
}

/// One entry for each leaf. Where the header tree is plainly named, every
/// leaf is a file, and the stream holds the bytes of each, reading the
/// archive succeeds without a warning, strict or not, and yields exactly one
/// entry for each leaf, in the order of the walk: the leaf's bytes, under the
/// names of its ancestors and its own, joined by separators.
pub proof fn lemma_one_entry_per_leaf(root: Tree, base: u64, stream: Seq<u8>, strict: bool)
    requires
        plainly_named(root),
        forall|i: int|
            0 <= i < leaves(root, Seq::empty()).len() ==> held(
                #[trigger] leaves(root, Seq::empty())[i],
                base,
                stream.len(),
            ),
    ensures
        read(root, base, stream, strict) matches Ok(archive) && {
            &&& archive.warnings.len() == 0
            &&& archive.entries.len() == leaves(root, Seq::empty()).len()
            &&& forall|i: int|
                0 <= i < archive.entries.len() ==> #[trigger] archive.entries[i] == stored_leaf(
                    leaves(root, Seq::empty())[i],
                    base,
                    stream,
                )
        },
{
    let names = Seq::<Seq<char>>::empty();
    let found = leaves(root, names);
    lemma_flattened_files(root, names, base);
    lemma_leaves_names(root, names);
    let files = located_leaves(found, base);
    assert forall|i: int, j: int| 0 <= i < j < files.len() implies (#[trigger] files[i]).path != (
    #[trigger] files[j]).path by {
        if slash_joined(found[i].names) == slash_joined(found[j].names) {
            lemma_slash_joined_injective(found[i].names, found[j].names);
        }
    }
    let start = Opened { entries: Seq::empty(), warnings: Seq::empty() };
    lemma_collected_all(stream, files, strict, start);
    assert(malformed_warnings(Seq::empty()) =~= Seq::<Failure>::empty());
}

/// The same, from the stream alone: where its header decodes to a tree of
/// this kind, opening it yields one entry for each leaf.
pub proof fn lemma_open_yields_leaves(stream: Seq<u8>, strict: bool)
    requires
        decoded(stream) matches Ok(header) && plainly_named(header.0) && forall|i: int|
            0 <= i < leaves(header.0, Seq::empty()).len() ==> held(
                #[trigger] leaves(header.0, Seq::empty())[i],
                (PREFIX_WIDTH + header.1) as u64,
                stream.len(),
            ),
    ensures
        opened(stream, strict) matches Ok(archive) && decoded(stream) matches Ok(header) && {
            &&& archive.warnings.len() == 0
            &&& archive.entries.len() == leaves(header.0, Seq::empty()).len()
            &&& forall|i: int|
                0 <= i < archive.entries.len() ==> #[trigger] archive.entries[i] == stored_leaf(
                    leaves(header.0, Seq::empty())[i],
                    (PREFIX_WIDTH + header.1) as u64,
                    stream,
                )
        },
{
    let header = decoded(stream)->Ok_0;
    lemma_one_entry_per_leaf(header.0, (PREFIX_WIDTH + header.1) as u64, stream, strict);
}

} // verus!
