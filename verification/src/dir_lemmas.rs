use vstd::prelude::*;
use crate::dir::{Node, Tree};
use crate::path::{is_parent, rebased};

verus! {

/// A directory that is an entry of another is smaller than it, so that a
/// walk down the tree ends.
pub proof fn lemma_child_smaller(tree: Tree, index: int)
    requires
        0 <= index < tree.children.len(),
        tree.children[index] is Dir,
    ensures
        decreases_to!(tree => tree.children[index]->Dir_0),
{
    let node = tree.children[index];
    vstd::seq::axiom_seq_index_decreases(tree.children, index);
    assert(decreases_to!(tree => tree.children));
    assert(decreases_to!(node => node->Dir_0));
}

/// In a well-formed directory, the entry at a location is well formed, lies
/// as many levels below the directory as the location is long, and has the
/// directory's path as the start of its own.
pub proof fn lemma_resolve_path(tree: Tree, location: Seq<usize>)
    requires
        tree.wf(),
        tree.resolve(location) is Some,
    ensures
        tree.resolve(location)->0.wf(),
        tree.resolve(location)->0.path().len() == tree.path.len() + location.len(),
        tree.path.is_prefix_of(tree.resolve(location)->0.path()),
    decreases location.len(),
{
    let child = tree.children[location[0] as int];
    assert(is_parent(tree.path, child.path()));
    assert(tree.path =~= child.path().subrange(0, tree.path.len() as int));
    if location.len() > 1 {
        let sub = child->Dir_0;
        lemma_resolve_path(sub, location.skip(1));
        let node = sub.resolve(location.skip(1))->0;
        assert(tree.path =~= node.path().subrange(0, tree.path.len() as int));
    }
}

/// A search that finds a location finds one that addresses an entry
/// answering the search, at or behind the index where the search began.
pub proof fn lemma_search_hit(tree: Tree, path: Seq<Seq<char>>, dirs_only: bool, start: int)
    requires
        tree.search_from(path, dirs_only, start) is Some,
    ensures
        tree.search_from(path, dirs_only, start)->0.len() > 0,
        tree.search_from(path, dirs_only, start)->0[0] >= start,
        tree.resolve(tree.search_from(path, dirs_only, start)->0) is Some,
        tree.resolve(tree.search_from(path, dirs_only, start)->0)->0.answers(path, dirs_only),
    decreases tree, tree.children.len() - start,
{
    let child = tree.children[start];
    if !child.answers(path, dirs_only) {
        let below = match child {
            Node::Dir(sub) => sub.search_from(path, dirs_only, 0),
            Node::File(_) => None,
        };
        match below {
            Some(rest) => {
                let sub = child->Dir_0;
                lemma_search_hit(sub, path, dirs_only, 0);
                let found = seq![start as usize] + rest;
                assert(found.skip(1) =~= rest);
            },
            None => {
                lemma_search_hit(tree, path, dirs_only, start + 1);
            },
        }
    }
}

/// A search that finds nothing has passed over every entry at or behind
/// the index where it began: none of them answers it.
pub proof fn lemma_search_miss(
    tree: Tree,
    path: Seq<Seq<char>>,
    dirs_only: bool,
    start: int,
    location: Seq<usize>,
)
    requires
        0 <= start,
        tree.search_from(path, dirs_only, start) is None,
        tree.resolve(location) is Some,
        location[0] >= start,
    ensures
        !tree.resolve(location)->0.answers(path, dirs_only),
    decreases tree, tree.children.len() - start,
{
    if location[0] == start {
        if location.len() > 1 {
            let sub = tree.children[start]->Dir_0;
            lemma_search_miss(sub, path, dirs_only, 0, location.skip(1));
        }
    } else {
        lemma_search_miss(tree, path, dirs_only, start + 1, location);
    }
}

/// A well-formed directory holds an entry with `path` only if its own path
/// is a proper start of `path`: a search elsewhere finds nothing.
pub proof fn lemma_search_prune(tree: Tree, path: Seq<Seq<char>>, dirs_only: bool)
    requires
        tree.wf(),
        !(tree.path.len() < path.len() && tree.path.is_prefix_of(path)),
    ensures
        tree.search_from(path, dirs_only, 0) is None,
{
    if tree.search_from(path, dirs_only, 0) is Some {
        lemma_search_hit(tree, path, dirs_only, 0);
        lemma_resolve_path(tree, tree.search_from(path, dirs_only, 0)->0);
    }
}

/// Removing an entry keeps a directory well formed.
pub proof fn lemma_remove_wf(tree: Tree, location: Seq<usize>)
    requires
        tree.wf(),
    ensures
        tree.remove_at(location).wf(),
    decreases location.len(),
{
    let after = tree.remove_at(location);
    if location.len() == 0 || location[0] >= tree.children.len() {
    } else if location.len() == 1 {
        assert forall|i: int| 0 <= i < after.children.len() implies {
            &&& is_parent(after.path, (#[trigger] after.children[i]).path())
            &&& (after.children[i] matches Node::Dir(sub) ==> sub.wf())
        } by {
            if i < location[0] {
                assert(after.children[i] == tree.children[i]);
            } else {
                assert(after.children[i] == tree.children[i + 1]);
            }
        }
    } else {
        match tree.children[location[0] as int] {
            Node::Dir(sub) => {
                lemma_remove_wf(sub, location.skip(1));
                let thinned = Node::Dir(sub.remove_at(location.skip(1)));
                lemma_update_wf(tree, location[0] as int, thinned);
            },
            Node::File(_) => {},
        }
    }
}

/// Exchanging one entry of a well-formed directory for a well-formed entry
/// that lies directly under it keeps the directory well formed.
pub proof fn lemma_update_wf(tree: Tree, index: int, node: Node)
    requires
        tree.wf(),
        0 <= index < tree.children.len(),
        node.wf(),
        is_parent(tree.path, node.path()),
    ensures
        (Tree { path: tree.path, children: tree.children.update(index, node) }).wf(),
{
    let after = Tree { path: tree.path, children: tree.children.update(index, node) };
    assert forall|i: int| 0 <= i < after.children.len() implies {
        &&& is_parent(after.path, (#[trigger] after.children[i]).path())
        &&& (after.children[i] matches Node::Dir(sub) ==> sub.wf())
    } by {
        if i != index {
            assert(after.children[i] == tree.children[i]);
        }
    }
}

/// Appending a well-formed entry to the directory under which it lies
/// keeps the whole well formed.
pub proof fn lemma_push_wf(tree: Tree, location: Seq<usize>, node: Node)
    requires
        tree.wf(),
        node.wf(),
        tree.dir_at(location) is Some,
        is_parent(tree.dir_at(location)->0.path, node.path()),
    ensures
        tree.push_at(location, node).wf(),
    decreases location.len(),
{
    let after = tree.push_at(location, node);
    if location.len() == 0 {
        assert forall|i: int| 0 <= i < after.children.len() implies {
            &&& is_parent(after.path, (#[trigger] after.children[i]).path())
            &&& (after.children[i] matches Node::Dir(sub) ==> sub.wf())
        } by {
            if i < tree.children.len() {
                assert(after.children[i] == tree.children[i]);
            }
        }
    } else {
        let sub = tree.children[location[0] as int]->Dir_0;
        if location.len() == 1 {
            assert(location.skip(1) =~= Seq::<usize>::empty());
        }
        assert(sub.dir_at(location.skip(1)) == tree.dir_at(location));
        lemma_push_wf(sub, location.skip(1), node);
        lemma_update_wf(tree, location[0] as int, Node::Dir(sub.push_at(location.skip(1), node)));
    }
}

/// Exchanging an entry for a well-formed one that lies in the same
/// directory keeps the whole well formed.
pub proof fn lemma_replace_wf(tree: Tree, location: Seq<usize>, node: Node)
    requires
        tree.wf(),
        node.wf(),
        tree.resolve(location) is Some,
        node.path().len() > 0,
        node.path().drop_last() == tree.resolve(location)->0.path().drop_last(),
    ensures
        tree.replace_at(location, node).wf(),
    decreases location.len(),
{
    let child = tree.children[location[0] as int];
    assert(is_parent(tree.path, child.path()));
    if location.len() == 1 {
        lemma_update_wf(tree, location[0] as int, node);
    } else {
        let sub = child->Dir_0;
        lemma_replace_wf(sub, location.skip(1), node);
        let changed = Node::Dir(sub.replace_at(location.skip(1), node));
        lemma_update_wf(tree, location[0] as int, changed);
    }
}

/// Moving a well-formed entry to another base keeps it well formed, and
/// its path is the moved path.
pub proof fn lemma_rebase_wf(node: Node, depth: int, base: Seq<Seq<char>>)
    requires
        node.wf(),
        0 <= depth <= node.path().len(),
    ensures
        node.rebase(depth, base).wf(),
        node.rebase(depth, base).path() == rebased(node.path(), depth, base),
    decreases node,
{
    match node {
        Node::File(_) => {},
        Node::Dir(tree) => {
            let after = node.rebase(depth, base)->Dir_0;
            assert forall|i: int| 0 <= i < after.children.len() implies {
                &&& is_parent(after.path, (#[trigger] after.children[i]).path())
                &&& (after.children[i] matches Node::Dir(sub) ==> sub.wf())
            } by {
                let child = tree.children[i];
                assert(is_parent(tree.path, child.path()));
                assert(after.children[i] == child.rebase(depth, base));
                lemma_rebase_wf(child, depth, base);
                assert(rebased(child.path(), depth, base).drop_last() =~= rebased(
                    tree.path,
                    depth,
                    base,
                )) by {
                    assert(child.path().skip(depth).drop_last() =~= child.path().drop_last().skip(
                        depth,
                    ));
                }
            }
        },
    }
}

/// Putting a removed entry back where it was gives the directory as it
/// was before the removal.
pub proof fn lemma_insert_restores(tree: Tree, location: Seq<usize>)
    requires
        tree.resolve(location) is Some,
    ensures
        tree.remove_at(location).admits(location),
        tree.remove_at(location).insert_at(location, tree.resolve(location)->0) == tree,
    decreases location.len(),
{
    let after = tree.remove_at(location);
    let node = tree.resolve(location)->0;
    if location.len() == 1 {
        assert(after.children.insert(location[0] as int, node) =~= tree.children);
    } else {
        let sub = tree.children[location[0] as int]->Dir_0;
        lemma_insert_restores(sub, location.skip(1));
        assert(after.children.update(
            location[0] as int,
            Node::Dir(sub.remove_at(location.skip(1)).insert_at(location.skip(1), node)),
        ) =~= tree.children);
    }
}

/// The location found for a directory addresses a directory with the
/// path that was sought.
pub proof fn lemma_locate_dir(tree: Tree, path: Seq<Seq<char>>)
    requires
        tree.locate_dir(path) is Some,
    ensures
        tree.dir_at(tree.locate_dir(path)->0) is Some,
        tree.dir_at(tree.locate_dir(path)->0)->0.path == path,
{
    if path != tree.path {
        lemma_search_hit(tree, path, true, 0);
    }
}

/// The location found for a path addresses an entry with that path.
pub proof fn lemma_locate(tree: Tree, path: Seq<Seq<char>>)
    requires
        tree.locate(path) is Some,
    ensures
        tree.resolve(tree.locate(path)->0) is Some,
        tree.resolve(tree.locate(path)->0)->0.path() == path,
{
    lemma_search_hit(tree, path, false, 0);
}

/// Appending a well-formed entry to the directory that holds its path
/// keeps the whole well formed.
pub proof fn lemma_with_node_wf(tree: Tree, node: Node)
    requires
        tree.wf(),
        node.wf(),
        tree.with_node(node) is Some,
    ensures
        tree.with_node(node)->0.wf(),
{
    lemma_locate_dir(tree, node.path().drop_last());
    lemma_push_wf(tree, tree.locate_dir(node.path().drop_last())->0, node);
}

/// Moving an entry to another path keeps the whole well formed.
pub proof fn lemma_relocate_wf(tree: Tree, from: Seq<Seq<char>>, to: Seq<Seq<char>>)
    requires
        tree.wf(),
        tree.relocate(from, to) is Some,
    ensures
        tree.relocate(from, to)->0.wf(),
{
    let location = tree.locate(from)->0;
    lemma_locate(tree, from);
    lemma_resolve_path(tree, location);
    let node = tree.resolve(location)->0;
    lemma_rebase_wf(node, from.len() as int, to);
    let moved = node.rebase(from.len() as int, to);
    assert(moved.path() =~= to);
    if to.drop_last() == from.drop_last() {
        lemma_replace_wf(tree, location, moved);
    } else {
        let rest = tree.remove_at(location);
        lemma_remove_wf(tree, location);
        lemma_locate_dir(rest, to.drop_last());
        lemma_push_wf(rest, rest.locate_dir(to.drop_last())->0, moved);
    }
}

/// Going down to a directory and on from there is going down the whole way.
pub proof fn lemma_resolve_through(tree: Tree, parent: Seq<usize>, rest: Seq<usize>)
    requires
        tree.dir_at(parent) is Some,
        rest.len() > 0,
    ensures
        tree.resolve(parent + rest) == tree.dir_at(parent)->0.resolve(rest),
    decreases parent.len(),
{
    if parent.len() == 0 {
        assert(parent + rest =~= rest);
    } else {
        let sub = tree.children[parent[0] as int]->Dir_0;
        assert((parent + rest).skip(1) =~= parent.skip(1) + rest);
        if parent.len() == 1 {
            assert(parent.skip(1) + rest =~= rest);
        } else {
            lemma_resolve_through(sub, parent.skip(1), rest);
        }
    }
}

/// After the entry at `index` is removed from the directory at a
/// location, that location addresses the directory without the entry.
pub proof fn lemma_remove_in_dir(tree: Tree, parent: Seq<usize>, index: usize)
    requires
        tree.dir_at(parent) is Some,
        index < tree.dir_at(parent)->0.children.len(),
    ensures
        tree.remove_at(parent.push(index)).dir_at(parent) == Some(
            Tree {
                path: tree.dir_at(parent)->0.path,
                children: tree.dir_at(parent)->0.children.remove(index as int),
            },
        ),
    decreases parent.len(),
{
    if parent.len() > 0 {
        let sub = tree.children[parent[0] as int]->Dir_0;
        assert(parent.push(index).skip(1) =~= parent.skip(1).push(index));
        if parent.len() == 1 {
            assert(parent.skip(1) =~= Seq::<usize>::empty());
        }
        lemma_remove_in_dir(sub, parent.skip(1), index);
    }
}

/// After an entry is appended to the directory at a location, that
/// location addresses the directory with the entry behind its others.
pub proof fn lemma_push_in_dir(tree: Tree, parent: Seq<usize>, node: Node)
    requires
        tree.dir_at(parent) is Some,
    ensures
        tree.push_at(parent, node).dir_at(parent) == Some(
            Tree {
                path: tree.dir_at(parent)->0.path,
                children: tree.dir_at(parent)->0.children.push(node),
            },
        ),
    decreases parent.len(),
{
    if parent.len() > 0 {
        let sub = tree.children[parent[0] as int]->Dir_0;
        if parent.len() == 1 {
            assert(parent.skip(1) =~= Seq::<usize>::empty());
        }
        lemma_push_in_dir(sub, parent.skip(1), node);
    }
}

/// After an entry is exchanged, its location addresses the new entry.
pub proof fn lemma_replace_resolves(tree: Tree, location: Seq<usize>, node: Node)
    requires
        tree.resolve(location) is Some,
    ensures
        tree.replace_at(location, node).resolve(location) == Some(node),
    decreases location.len(),
{
    if location.len() > 1 {
        let sub = tree.children[location[0] as int]->Dir_0;
        lemma_replace_resolves(sub, location.skip(1), node);
    }
}

/// In a directory that was moved to another base, a location addresses
/// the moved form of what it addressed before.
pub proof fn lemma_rebase_resolves(
    tree: Tree,
    depth: int,
    base: Seq<Seq<char>>,
    location: Seq<usize>,
)
    ensures
        Node::Dir(tree).rebase(depth, base)->Dir_0.resolve(location) == match tree.resolve(
            location,
        ) {
            Some(node) => Some(node.rebase(depth, base)),
            None => None,
        },
    decreases location.len(),
{
    let moved = Node::Dir(tree).rebase(depth, base)->Dir_0;
    assert(moved.children.len() == tree.children.len());
    if location.len() > 0 && location[0] < tree.children.len() {
        let child = tree.children[location[0] as int];
        assert(moved.children[location[0] as int] == child.rebase(depth, base));
        if location.len() > 1 {
            match child {
                Node::Dir(sub) => {
                    lemma_rebase_resolves(sub, depth, base, location.skip(1));
                },
                Node::File(_) => {},
            }
        }
    }
}

/// Nothing is addressed under a file.
pub proof fn lemma_resolve_under_file(tree: Tree, location: Seq<usize>, below: Seq<usize>)
    requires
        tree.resolve(location) is Some,
        tree.resolve(location)->0 is File,
        below.len() > 0,
    ensures
        tree.resolve(location + below) is None,
    decreases location.len(),
{
    assert((location + below).skip(1) =~= location.skip(1) + below);
    if location.len() > 1 {
        let sub = tree.children[location[0] as int]->Dir_0;
        lemma_resolve_under_file(sub, location.skip(1), below);
    }
}

/// An entry that a location addresses stands, at the location's last
/// index, in the directory that the location without that index addresses.
pub proof fn lemma_resolve_parent(tree: Tree, location: Seq<usize>)
    requires
        tree.resolve(location) is Some,
    ensures
        tree.dir_at(location.drop_last()) is Some,
        location.last() < tree.dir_at(location.drop_last())->0.children.len(),
        tree.dir_at(location.drop_last())->0.children[location.last() as int] == tree.resolve(
            location,
        )->0,
    decreases location.len(),
{
    if location.len() > 1 {
        let sub = tree.children[location[0] as int]->Dir_0;
        lemma_resolve_parent(sub, location.skip(1));
        assert(location.skip(1).drop_last() =~= location.drop_last().skip(1));
        if location.len() == 2 {
            assert(location.drop_last().skip(1) =~= Seq::<usize>::empty());
        }
    } else {
        assert(location.drop_last() =~= Seq::<usize>::empty());
    }
}

/// Exchanging an entry leaves what every other location of the same
/// length addresses as it was.
pub proof fn lemma_replace_elsewhere(
    tree: Tree,
    location: Seq<usize>,
    node: Node,
    other: Seq<usize>,
)
    requires
        tree.resolve(location) is Some,
        other.len() == location.len(),
        other != location,
    ensures
        tree.replace_at(location, node).resolve(other) == tree.resolve(other),
    decreases location.len(),
{
    if location[0] == other[0] {
        if location.len() == 1 {
            assert(other =~= location);
        } else {
            let sub = tree.children[location[0] as int]->Dir_0;
            if other.skip(1) == location.skip(1) {
                assert forall|i: int| 0 < i < other.len() implies other[i] == location[i] by {
                    assert(other[i] == other.skip(1)[i - 1]);
                    assert(location[i] == location.skip(1)[i - 1]);
                }
                assert(other =~= location);
            }
            lemma_replace_elsewhere(sub, location.skip(1), node, other.skip(1));
        }
    }
}

} // verus!
