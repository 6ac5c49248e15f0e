use vstd::prelude::*;
use crate::command::Key;
use crate::dir::{Node, Tree};
use crate::dir_lemmas::{
    lemma_locate, lemma_push_in_dir, lemma_push_wf, lemma_rebase_resolves, lemma_rebase_wf,
    lemma_relocate_wf, lemma_remove_in_dir, lemma_remove_wf, lemma_replace_elsewhere,
    lemma_replace_resolves, lemma_resolve_parent,
    lemma_resolve_path, lemma_resolve_through, lemma_resolve_under_file, lemma_search_miss,
};
use crate::files::{lemma_tree_fits, Files};
use crate::filetree::{after_removal, ancestors, Filetree};
use crate::path::{is_parent, last_name};
use crate::projection::{filtered_label, node_label, projection, Label};
use crate::projection_lemmas::{lemma_origin_found, lemma_origin_label};
use crate::state::{label_at, unfolded, visible};
use crate::state_lemmas::{
    lemma_stepped_in_order, lemma_visible_exactly, lemma_visible_first, lemma_visible_shape,
};

verus! {

/// A location is visible exactly where it addresses a label and every
/// location above it is expanded.
pub proof fn theorem_visible_exactly(
    opened: Set<Seq<usize>>,
    labels: Seq<Label>,
    location: Seq<usize>,
)
    ensures
        visible(opened, labels).contains(location) <==> label_at(labels, location) is Some
            && unfolded(opened, location),
{
    lemma_visible_exactly(opened, labels, Seq::empty(), 0, location);
    assert(Seq::<usize>::empty() + location =~= location);
    assert forall|k: int| 0 < k < location.len() implies Seq::<usize>::empty()
        + #[trigger] location.take(k) =~= location.take(k) by {}
}

/// At the first visible location a step up stays there: after `first`,
/// `up` never changes the selection, however often it is repeated.
pub proof fn theorem_up_at_first(tree: Filetree)
    requires
        tree.selected() == seq![0usize],
    ensures
        tree.selected_after(Key::Up) == tree.selected(),
        tree.opened_after(Key::Up) == tree.opened(),
{
    if tree.files.labels().len() > 0 {
        let order = tree.visible();
        lemma_visible_first(tree.opened(), tree.files.labels());
        order.index_of_first_ensures(seq![0usize]);
    }
}

/// At the last visible location a step down stays there: after `last`,
/// `down` never changes the selection, however often it is repeated.
pub proof fn theorem_down_at_last(tree: Filetree)
    requires
        tree.selected() == tree.selected_after(Key::Last),
    ensures
        tree.selected_after(Key::Down) == tree.selected(),
        tree.opened_after(Key::Down) == tree.opened(),
{
    if tree.files.labels().len() > 0 {
        let order = tree.visible();
        lemma_visible_first(tree.opened(), tree.files.labels());
        lemma_visible_shape(tree.opened(), tree.files.labels(), Seq::empty(), 0);
        order.index_of_first_ensures(order.last());
    }
}

/// The whole label tree mirrors the directory one to one: a location
/// addresses a label exactly where it addresses an entry, and the label is
/// that entry's.
pub proof fn theorem_projection_mirrors(tree: Tree, location: Seq<usize>)
    ensures
        label_at(projection(tree), location) == match tree.resolve(location) {
            Some(node) => Some(node_label(node)),
            None => None,
        },
    decreases location.len(),
{
    if location.len() > 1 && location[0] < tree.children.len() {
        match tree.children[location[0] as int] {
            Node::Dir(sub) => {
                theorem_projection_mirrors(sub, location.skip(1));
            },
            Node::File(_) => {
                assert(label_at(Seq::<Label>::empty(), location.skip(1)) is None);
            },
        }
    }
}

/// Setting a filter and clearing it again shows the label tree that was
/// shown before: the same labels in the same order and shape.
pub proof fn theorem_filter_then_clear(before: Files, cleared: Files)
    requires
        before.wf(),
        before.filter() is None,
        cleared.wf(),
        cleared.filter() is None,
        cleared.tree() == before.tree(),
    ensures
        cleared.labels() == before.labels(),
{
}

/// Removing the entry at `index` of a directory and then adding a file
/// of the same name to that directory leaves the directory with its other
/// entries, in their order, and the new file behind them: not at `index`.
/// The new file has the path that the removed entry had.
pub proof fn theorem_remove_then_add(tree: Tree, parent: Seq<usize>, index: usize)
    requires
        tree.wf(),
        tree.dir_at(parent) is Some,
        index < tree.dir_at(parent)->0.children.len(),
    ensures
        ({
            let dir = tree.dir_at(parent)->0;
            let again = Node::File(dir.path.push(last_name(dir.children[index as int].path())));
            let after = tree.remove_at(parent.push(index)).push_at(parent, again);
            &&& after.wf()
            &&& after.dir_at(parent) == Some(
                Tree {
                    path: dir.path,
                    children: dir.children.remove(index as int).push(again),
                },
            )
            &&& again.path() == dir.children[index as int].path()
        }),
{
    let dir = tree.dir_at(parent)->0;
    let gone = dir.children[index as int];
    let again = Node::File(dir.path.push(last_name(gone.path())));
    let rest = tree.remove_at(parent.push(index));
    if parent.len() > 0 {
        lemma_resolve_path(tree, parent);
    }
    assert(is_parent(dir.path, gone.path()));
    assert(again.path() =~= gone.path());
    lemma_remove_wf(tree, parent.push(index));
    lemma_remove_in_dir(tree, parent, index);
    lemma_push_wf(rest, parent, again);
    lemma_push_in_dir(rest, parent, again);
}

/// After a removal nothing stale is read: in the directory that lost the
/// entry at `index`, an earlier index addresses what it addressed before,
/// and a later index what the index one above it addressed before.
pub proof fn theorem_remove_shifts(
    tree: Tree,
    parent: Seq<usize>,
    index: usize,
    sibling: usize,
    below: Seq<usize>,
)
    requires
        tree.dir_at(parent) is Some,
        index < tree.dir_at(parent)->0.children.len(),
        sibling < usize::MAX,
    ensures
        tree.remove_at(parent.push(index)).resolve(parent.push(sibling) + below) == tree.resolve(
            parent.push(
                if sibling < index {
                    sibling
                } else {
                    (sibling + 1) as usize
                },
            ) + below,
        ),
{
    let dir = tree.dir_at(parent)->0;
    let rest = tree.remove_at(parent.push(index));
    let moved: usize = if sibling < index {
        sibling
    } else {
        (sibling + 1) as usize
    };
    lemma_remove_in_dir(tree, parent, index);
    lemma_resolve_through(rest, parent, seq![sibling] + below);
    lemma_resolve_through(tree, parent, seq![moved] + below);
    assert(parent.push(sibling) + below =~= parent + (seq![sibling] + below));
    assert(parent.push(moved) + below =~= parent + (seq![moved] + below));
    assert((seq![sibling] + below).skip(1) =~= below);
    assert((seq![moved] + below).skip(1) =~= below);
}

/// After an addition nothing stale is read: in the directory that gained
/// an entry, the index behind the old entries addresses the new entry,
/// and every other index addresses what it addressed before.
pub proof fn theorem_push_appends(
    tree: Tree,
    parent: Seq<usize>,
    node: Node,
    sibling: usize,
    below: Seq<usize>,
)
    requires
        tree.dir_at(parent) is Some,
    ensures
        sibling == tree.dir_at(parent)->0.children.len() ==> tree.push_at(parent, node).resolve(
            parent.push(sibling),
        ) == Some(node),
        sibling < tree.dir_at(parent)->0.children.len() ==> tree.push_at(parent, node).resolve(
            parent.push(sibling) + below,
        ) == tree.resolve(parent.push(sibling) + below),
{
    let grown = tree.push_at(parent, node);
    lemma_push_in_dir(tree, parent, node);
    lemma_resolve_through(grown, parent, seq![sibling] + below);
    lemma_resolve_through(tree, parent, seq![sibling] + below);
    lemma_resolve_through(grown, parent, seq![sibling]);
    assert(parent.push(sibling) + below =~= parent + (seq![sibling] + below));
    assert(parent.push(sibling) =~= parent + seq![sibling]);
    assert((seq![sibling] + below).skip(1) =~= below);
}

/// A rename within one directory keeps the entry where it is: its
/// location addresses it as before, now with the new path, and every
/// location under it addresses what it addressed before, with the new
/// path in place of the old at the start of its own.
pub proof fn theorem_rename_in_place(
    tree: Tree,
    from: Seq<Seq<char>>,
    to: Seq<Seq<char>>,
    below: Seq<usize>,
)
    requires
        tree.wf(),
        tree.locate(from) is Some,
        to.len() > 0,
        to.drop_last() == from.drop_last(),
    ensures
        tree.relocate(from, to) is Some,
        tree.relocate(from, to)->0.resolve(tree.locate(from)->0) is Some,
        tree.relocate(from, to)->0.resolve(tree.locate(from)->0)->0.path() == to,
        below.len() > 0 ==> tree.relocate(from, to)->0.resolve(tree.locate(from)->0 + below)
            == match tree.resolve(tree.locate(from)->0 + below) {
            Some(node) => Some(node.rebase(from.len() as int, to)),
            None => None,
        },
{
    let location = tree.locate(from)->0;
    let node = tree.resolve(location)->0;
    let moved = node.rebase(from.len() as int, to);
    let after = tree.replace_at(location, moved);
    lemma_locate(tree, from);
    lemma_resolve_path(tree, location);
    lemma_rebase_wf(node, from.len() as int, to);
    assert(moved.path() =~= to);
    lemma_replace_resolves(tree, location, moved);
    if below.len() > 0 {
        match node {
            Node::Dir(sub) => {
                lemma_resolve_through(tree, location, below);
                lemma_resolve_through(after, location, below);
                lemma_rebase_resolves(sub, from.len() as int, to, below);
            },
            Node::File(_) => {
                lemma_resolve_under_file(tree, location, below);
                lemma_resolve_under_file(after, location, below);
            },
        }
    }
}

/// Where one entry alone has the old path, no entry has it after a
/// rename within its directory to another path.
pub proof fn theorem_rename_leaves_no_old_path(
    tree: Tree,
    from: Seq<Seq<char>>,
    to: Seq<Seq<char>>,
    location: Seq<usize>,
)
    requires
        tree.wf(),
        tree.locate(from) is Some,
        to.len() > 0,
        to.drop_last() == from.drop_last(),
        to != from,
        forall|other: Seq<usize>|
            tree.resolve(other) is Some && (#[trigger] tree.resolve(other))->0.path() == from
                ==> other == tree.locate(from)->0,
        tree.relocate(from, to)->0.resolve(location) is Some,
    ensures
        tree.relocate(from, to)->0.resolve(location)->0.path() != from,
{
    let at = tree.locate(from)->0;
    let after = tree.relocate(from, to)->0;
    theorem_rename_in_place(tree, from, to, Seq::empty());
    lemma_locate(tree, from);
    lemma_relocate_wf(tree, from, to);
    lemma_resolve_path(tree, at);
    lemma_resolve_path(after, location);
    if after.resolve(location)->0.path() == from && location != at {
        let moved = tree.resolve(at)->0.rebase(from.len() as int, to);
        lemma_replace_elsewhere(tree, at, moved, location);
    }
}

/// A path that some entry under the root has is found, and what is found
/// has that path: a search fails only for a path that no entry has.
pub proof fn theorem_locate_finds(tree: Tree, path: Seq<Seq<char>>, location: Seq<usize>)
    requires
        tree.resolve(location) is Some,
        tree.resolve(location)->0.path() == path,
    ensures
        tree.locate(path) is Some,
        tree.resolve(tree.locate(path)->0) is Some,
        tree.resolve(tree.locate(path)->0)->0.path() == path,
{
    if tree.locate(path) is None {
        lemma_search_miss(tree, path, false, 0, location);
    }
    lemma_locate(tree, path);
}

/// The label that a location addresses in the label tree that is drawn
/// is the label of the entry at the location's origin in the directory,
/// with a filter and without: the selected entry is the one that is seen
/// selected.
pub proof fn theorem_origin_shows_entry(files: Files, location: Seq<usize>)
    requires
        files.wf(),
        files.origin(location) is Some,
    ensures
        files.entry_at(location) is Some,
        label_at(files.labels(), location) == Some(
            match files.filter() {
                None => node_label(files.entry_at(location)->0),
                Some(targets) => filtered_label(files.entry_at(location)->0, targets),
            },
        ),
{
    match files.filter() {
        None => {
            theorem_projection_mirrors(files.tree(), location);
        },
        Some(targets) => {
            lemma_origin_label(files.tree(), targets, location);
        },
    }
}

/// Every visible location addresses the label of an entry of the tree,
/// with a filter and without: what is drawn is never stale.
pub proof fn theorem_visible_is_live(files: Files, opened: Set<Seq<usize>>, location: Seq<usize>)
    requires
        files.wf(),
        visible(opened, files.labels()).contains(location),
    ensures
        files.entry_at(location) is Some,
{
    theorem_visible_exactly(opened, files.labels(), location);
    match files.filter() {
        None => {
            theorem_projection_mirrors(files.tree(), location);
        },
        Some(targets) => {
            lemma_tree_fits(files);
            lemma_origin_found(files.tree(), targets, location);
            lemma_origin_label(files.tree(), targets, location);
        },
    }
}

/// While no filter is set, an entry is visible once every location
/// above it is expanded: what `open_path` reveals can be seen.
pub proof fn theorem_revealed_is_visible(
    files: Files,
    opened: Set<Seq<usize>>,
    location: Seq<usize>,
)
    requires
        files.wf(),
        files.filter() is None,
        files.tree().resolve(location) is Some,
        ancestors(location).subset_of(opened),
    ensures
        visible(opened, files.labels()).contains(location),
{
    theorem_visible_exactly(opened, files.labels(), location);
    theorem_projection_mirrors(files.tree(), location);
    assert forall|k: int| 0 < k < location.len() implies opened.contains(
        #[trigger] location.take(k),
    ) by {
        assert(location.take(k).is_prefix_of(location));
        assert(ancestors(location).contains(location.take(k)));
    }
}

/// While the label tree is not empty, a key that moves the selection
/// leaves it on a visible label, and so on an entry of the tree.
pub proof fn theorem_selection_stays_live(tree: Filetree, key: Key)
    requires
        tree.wf(),
        tree.files.labels().len() > 0,
        key != Key::Toggle,
    ensures
        tree.visible().contains(tree.selected_after(key)),
        tree.files.entry_at(tree.selected_after(key)) is Some,
{
    let order = tree.visible();
    lemma_visible_first(tree.opened(), tree.files.labels());
    match key {
        Key::First => {
            assert(order[0] == tree.selected_after(key));
        },
        Key::Last => {
            assert(order[order.len() - 1] == tree.selected_after(key));
        },
        Key::Up => {
            lemma_stepped_in_order(order, tree.selected(), false);
        },
        Key::Down => {
            lemma_stepped_in_order(order, tree.selected(), true);
        },
        Key::Toggle => {},
    }
    theorem_visible_is_live(tree.files, tree.opened(), tree.selected_after(key));
}

/// After the selected entry is removed from a tree in which something is
/// left, the location that the selection goes to addresses an entry, and
/// that entry is visible once the locations above it are expanded.
pub proof fn theorem_removal_selects_live(
    tree: Tree,
    location: Seq<usize>,
    opened: Set<Seq<usize>>,
)
    requires
        tree.resolve(location) is Some,
        tree.remove_at(location).children.len() > 0,
        ancestors(after_removal(location, tree.remove_at(location).children.len())).subset_of(
            opened,
        ),
    ensures
        tree.remove_at(location).resolve(
            after_removal(location, tree.remove_at(location).children.len()),
        ) is Some,
        visible(opened, projection(tree.remove_at(location))).contains(
            after_removal(location, tree.remove_at(location).children.len()),
        ),
{
    let after = tree.remove_at(location);
    let next = after_removal(location, after.children.len());
    if location.len() > 1 {
        let above = location.drop_last();
        lemma_resolve_parent(tree, location);
        assert(above.push(location.last()) =~= location);
        lemma_remove_in_dir(tree, above, location.last());
    }
    theorem_visible_exactly(opened, projection(after), next);
    theorem_projection_mirrors(after, next);
    assert forall|k: int| 0 < k < next.len() implies opened.contains(#[trigger] next.take(k)) by {
        assert(next.take(k).is_prefix_of(next));
        assert(ancestors(next).contains(next.take(k)));
    }
}

} // verus!
