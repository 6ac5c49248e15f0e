use vstd::prelude::*;
use tui_tree_widget::TreeItem;
use crate::dir::{Dir, Node, Tree};
use crate::dir_lemmas::lemma_child_smaller;
use crate::path::{last_name, last_of_path, TreePath};

verus! {

/// The display item of `tui_tree_widget`. It is opaque here: what it shows
/// is spoken of through `item_label`.
#[verifier::external_type_specification]
#[verifier::external_body]
pub struct ExTreeItem<'a>(tui_tree_widget::TreeItem<'a>);

/// What one display item shows, as a value: the lines of its text and the
/// items nested under it, in order. It holds no path.
pub struct Label {
    pub lines: Seq<Seq<char>>,
    pub children: Seq<Label>,
}

/// What a display item shows.
pub uninterp spec fn item_label(item: TreeItem<'static>) -> Label;

/// The lines of the text that a display item shows when it is made from
/// `text`: what `tui::text::Text::from` makes of it, which splits a text
/// as `str::lines` does.
pub uninterp spec fn text_lines(text: Seq<char>) -> Seq<Seq<char>>;

/// What a row of display items shows.
pub open spec fn labels_of(items: Seq<TreeItem<'static>>) -> Seq<Label> {
    Seq::new(items.len(), |i: int| item_label(items[i]))
}

/// The label of one entry: the final name of its path, over the labels of
/// what it holds.
pub open spec fn node_label(node: Node) -> Label
    decreases node,
{
    Label {
        lines: text_lines(last_name(node.path())),
        children: match node {
            Node::Dir(sub) => projection(sub),
            Node::File(_) => Seq::empty(),
        },
    }
}

/// The label tree of a directory: one label per entry, in the directory's
/// order, nested as the entries are.
pub open spec fn projection(tree: Tree) -> Seq<Label>
    decreases tree,
{
    Seq::new(
        tree.children.len(),
        |i: int|
            if 0 <= i < tree.children.len() {
                node_label(tree.children[i])
            } else {
                Label { lines: Seq::empty(), children: Seq::empty() }
            },
    )
}

/// `path` is one of the targets or the path of a directory above one.
pub open spec fn on_chain(path: Seq<Seq<char>>, targets: Seq<Seq<Seq<char>>>) -> bool {
    exists|k: int| 0 <= k < targets.len() && path.is_prefix_of(#[trigger] targets[k])
}

/// The label of an entry in a label tree that is restricted to the chains
/// above `targets`.
pub open spec fn filtered_label(node: Node, targets: Seq<Seq<Seq<char>>>) -> Label
    decreases node,
{
    Label {
        lines: text_lines(last_name(node.path())),
        children: match node {
            Node::Dir(sub) => filtered_from(sub, targets, 0),
            Node::File(_) => Seq::empty(),
        },
    }
}

/// The labels, in order, of the entries from index `from` on that lie on
/// the chain above one of `targets`.
pub open spec fn filtered_from(tree: Tree, targets: Seq<Seq<Seq<char>>>, from: int) -> Seq<Label>
    decreases tree, tree.children.len() - from,
{
    if from < 0 || from >= tree.children.len() {
        Seq::empty()
    } else {
        let rest = filtered_from(tree, targets, from + 1);
        if on_chain(tree.children[from].path(), targets) {
            seq![filtered_label(tree.children[from], targets)] + rest
        } else {
            rest
        }
    }
}

/// The index, among the entries of `tree` from `from` on, of the entry
/// that comes `k` entries after the first one on the chain above one of
/// `targets`, counting only entries on such a chain: the entry behind the
/// label with index `k` in the filtered label tree, where `from` is 0.
pub open spec fn kept_index(tree: Tree, targets: Seq<Seq<Seq<char>>>, from: int, k: int) -> Option<
    int,
>
    decreases tree.children.len() - from,
{
    if from < 0 || from >= tree.children.len() {
        None
    } else if on_chain(tree.children[from].path(), targets) {
        if k == 0 {
            Some(from)
        } else {
            kept_index(tree, targets, from + 1, k - 1)
        }
    } else {
        kept_index(tree, targets, from + 1, k)
    }
}

/// The location in the directory of the entry whose label `location`
/// addresses in the label tree that is restricted to the chains above
/// `targets`. `None` where `location` addresses no label there.
pub open spec fn filtered_origin(
    tree: Tree,
    targets: Seq<Seq<Seq<char>>>,
    location: Seq<usize>,
) -> Option<Seq<usize>>
    decreases location.len(),
{
    if location.len() == 0 {
        None
    } else {
        match kept_index(tree, targets, 0, location[0] as int) {
            None => None,
            Some(index) => if index > usize::MAX {
                None
            } else if location.len() == 1 {
                Some(seq![index as usize])
            } else {
                match tree.children[index] {
                    Node::Dir(sub) => match filtered_origin(sub, targets, location.skip(1)) {
                        Some(rest) => Some(seq![index as usize] + rest),
                        None => None,
                    },
                    Node::File(_) => None,
                }
            },
        }
    }
}

/// The location in the directory of the entry whose label `location`
/// addresses in the label tree that is shown. Without a filter the two
/// locations are one. `None` where `location` addresses no label.
pub open spec fn origin(
    tree: Tree,
    filter: Option<Seq<Seq<Seq<char>>>>,
    location: Seq<usize>,
) -> Option<Seq<usize>> {
    match filter {
        None => if tree.resolve(location) is Some {
            Some(location)
        } else {
            None
        },
        Some(targets) => filtered_origin(tree, targets, location),
    }
}

/// The label tree that is shown for a directory: the whole of it, or,
/// under a filter, only the chains above the filter's targets.
pub open spec fn shown(tree: Tree, filter: Option<Seq<Seq<Seq<char>>>>) -> Seq<Label> {
    match filter {
        None => projection(tree),
        Some(targets) => filtered_from(tree, targets, 0),
    }
}

/// `TreeItem::new_leaf`: an item that shows `text` and has nothing nested
/// under it.
#[verifier::external_body]
fn leaf_item(text: String) -> (item: TreeItem<'static>)
    ensures
        item_label(item) == (Label { lines: text_lines(text@), children: Seq::empty() }),
{
    TreeItem::new_leaf(text)
}

/// `TreeItem::new`: an item that shows `text` and has `children` nested
/// under it, in the order given.
#[verifier::external_body]
fn branch_item(text: String, children: Vec<TreeItem<'static>>) -> (item: TreeItem<'static>)
    ensures
        item_label(item) == (Label { lines: text_lines(text@), children: labels_of(children@) }),
{
    TreeItem::new(text, children)
}

/// Builds the label tree of `tree`: one display item per entry, labelled
/// with the final name of the entry's path, in the directory's order.
#[verifier::loop_isolation(false)]
pub fn build_filetree(tree: &Dir) -> (items: Vec<TreeItem<'static>>)
    ensures
        labels_of(items@) == projection(tree@),
    decreases tree@,
{
    let mut items: Vec<TreeItem<'static>> = Vec::new();
    let children = tree.children();
    let mut i: usize = 0;
    while i < children.len()
        invariant
            i <= children@.len(),
            items@.len() == i,
            forall|j: int| 0 <= j < i ==> item_label(items@[j]) == node_label(tree@.children[j]),
        decreases children@.len() - i,
    {
        let child = &children[i];
        let tree_item = match child.as_dir() {
            Some(dir) => {
                proof {
                    lemma_child_smaller(tree@, i as int);
                }
                branch_item(last_of_path(dir.path()), build_filetree(dir))
            },
            None => leaf_item(last_of_path(child.path())),
        };
        items.push(tree_item);
        i += 1;
    }
    assert(labels_of(items@) =~= projection(tree@));
    items
}

/// The paths that a list of paths holds, as values.
pub open spec fn paths_of(paths: Seq<TreePath>) -> Seq<Seq<Seq<char>>> {
    Seq::new(paths.len(), |i: int| paths[i]@)
}

/// Whether `path` is one of `targets` or the path of a directory above one.
pub fn is_on_chain(path: &TreePath, targets: &Vec<TreePath>) -> (b: bool)
    ensures
        b == on_chain(path@, paths_of(targets@)),
{
    let mut k: usize = 0;
    while k < targets.len()
        invariant
            k <= targets@.len(),
            forall|j: int| 0 <= j < k ==> !path@.is_prefix_of(#[trigger] paths_of(targets@)[j]),
        decreases targets@.len() - k,
    {
        if targets[k].starts_with(path) {
            assert(path@.is_prefix_of(paths_of(targets@)[k as int]));
            return true;
        }
        k += 1;
    }
    false
}

/// Builds the label tree of `tree` restricted to the chains above
/// `targets`: an entry is shown only where its path is a target or the
/// path of a directory above one.
#[verifier::loop_isolation(false)]
pub fn build_filtered(tree: &Dir, targets: &Vec<TreePath>) -> (items: Vec<TreeItem<'static>>)
    ensures
        labels_of(items@) == filtered_from(tree@, paths_of(targets@), 0),
    decreases tree@,
{
    let mut items: Vec<TreeItem<'static>> = Vec::new();
    let children = tree.children();
    let mut i: usize = 0;
    assert(labels_of(items@) =~= Seq::<Label>::empty());
    while i < children.len()
        invariant
            i <= children@.len(),
            labels_of(items@) + filtered_from(tree@, paths_of(targets@), i as int)
                == filtered_from(tree@, paths_of(targets@), 0),
        decreases children@.len() - i,
    {
        let child = &children[i];
        if is_on_chain(child.path(), targets) {
            let ghost before = labels_of(items@);
            let tree_item = match child.as_dir() {
                Some(dir) => {
                    proof {
                        lemma_child_smaller(tree@, i as int);
                    }
                    branch_item(last_of_path(dir.path()), build_filtered(dir, targets))
                },
                None => leaf_item(last_of_path(child.path())),
            };
            items.push(tree_item);
            assert(labels_of(items@) =~= before.push(
                filtered_label(tree@.children[i as int], paths_of(targets@)),
            ));
            assert(labels_of(items@) + filtered_from(tree@, paths_of(targets@), i + 1) =~= before
                + filtered_from(tree@, paths_of(targets@), i as int));
        }
        i += 1;
    }
    assert(labels_of(items@) + Seq::<Label>::empty() =~= labels_of(items@));
    items
}

/// The location in `tree` of the entry whose label `location` addresses
/// in the label tree restricted to the chains above `targets`.
pub fn find_origin(tree: &Dir, targets: &Vec<TreePath>, location: &[usize]) -> (found: Option<
    Vec<usize>,
>)
    ensures
        filtered_origin(tree@, paths_of(targets@), location@) is None ==> found is None,
        filtered_origin(tree@, paths_of(targets@), location@) is Some ==> {
            &&& found is Some
            &&& found->0@ == filtered_origin(tree@, paths_of(targets@), location@)->0
        },
    decreases location@.len(),
{
    if location.len() == 0 {
        return None;
    }
    let children = tree.children();
    let mut index: usize = 0;
    let mut ahead: usize = location[0];
    let mut hit = false;
    while index < children.len()
        invariant_except_break
            index <= children@.len(),
            !hit,
            kept_index(tree@, paths_of(targets@), 0, location@[0] as int) == kept_index(
                tree@,
                paths_of(targets@),
                index as int,
                ahead as int,
            ),
        invariant
            location@.len() > 0,
            children@.len() == tree@.children.len(),
            forall|j: int| 0 <= j < children@.len() ==> children@[j]@ == tree@.children[j],
        ensures
            index <= children@.len(),
            hit ==> index < children@.len() && kept_index(
                tree@,
                paths_of(targets@),
                0,
                location@[0] as int,
            ) == Some(index as int),
            !hit ==> kept_index(tree@, paths_of(targets@), 0, location@[0] as int) is None,
        decreases children@.len() - index,
    {
        if is_on_chain(children[index].path(), targets) {
            if ahead == 0 {
                hit = true;
                break;
            }
            ahead -= 1;
        }
        index += 1;
    }
    if !hit {
        return None;
    }
    if location.len() == 1 {
        let mut found: Vec<usize> = Vec::new();
        found.push(index);
        assert(found@ =~= seq![index]);
        return Some(found);
    }
    let rest = vstd::slice::slice_subrange(location, 1, location.len());
    assert(rest@ == location@.skip(1));
    match children[index].as_dir() {
        Some(sub) => match find_origin(sub, targets, rest) {
            Some(below) => {
                let mut found = below;
                found.insert(0, index);
                assert(found@ =~= seq![index] + below@);
                Some(found)
            },
            None => None,
        },
        None => None,
    }
}

} // verus!
