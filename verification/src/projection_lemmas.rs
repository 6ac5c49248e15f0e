use vstd::prelude::*;
use crate::dir::{Node, Tree};
use crate::projection::{filtered_from, filtered_label, filtered_origin, kept_index, on_chain};
use crate::state::label_at;

verus! {

/// The entry that `kept_index` finds lies on a chain above a target, and
/// its label is the one with index `k` among the filtered labels.
pub proof fn lemma_kept_index(tree: Tree, targets: Seq<Seq<Seq<char>>>, from: int, k: int)
    requires
        0 <= from,
        0 <= k,
        kept_index(tree, targets, from, k) is Some,
    ensures
        from <= kept_index(tree, targets, from, k)->0 < tree.children.len(),
        on_chain(tree.children[kept_index(tree, targets, from, k)->0].path(), targets),
        k < filtered_from(tree, targets, from).len(),
        filtered_from(tree, targets, from)[k] == filtered_label(
            tree.children[kept_index(tree, targets, from, k)->0],
            targets,
        ),
    decreases tree.children.len() - from,
{
    if on_chain(tree.children[from].path(), targets) {
        if k > 0 {
            lemma_kept_index(tree, targets, from + 1, k - 1);
        }
    } else {
        lemma_kept_index(tree, targets, from + 1, k);
    }
}

/// What the filtered label tree shows at a location is the label of the
/// entry at that location's origin in the directory, and that entry lies
/// on a chain above a target.
pub proof fn lemma_origin_label(tree: Tree, targets: Seq<Seq<Seq<char>>>, location: Seq<usize>)
    requires
        filtered_origin(tree, targets, location) is Some,
    ensures
        filtered_origin(tree, targets, location)->0.len() == location.len(),
        tree.resolve(filtered_origin(tree, targets, location)->0) is Some,
        on_chain(tree.resolve(filtered_origin(tree, targets, location)->0)->0.path(), targets),
        label_at(filtered_from(tree, targets, 0), location) == Some(
            filtered_label(tree.resolve(filtered_origin(tree, targets, location)->0)->0, targets),
        ),
    decreases location.len(),
{
    let index = kept_index(tree, targets, 0, location[0] as int)->0;
    lemma_kept_index(tree, targets, 0, location[0] as int);
    if location.len() > 1 {
        let sub = tree.children[index]->Dir_0;
        let rest = filtered_origin(sub, targets, location.skip(1))->0;
        lemma_origin_label(sub, targets, location.skip(1));
        assert((seq![index as usize] + rest).skip(1) =~= rest);
    }
}

/// Behind every filtered label stands an entry that `kept_index` finds.
pub proof fn lemma_kept_index_found(tree: Tree, targets: Seq<Seq<Seq<char>>>, from: int, k: int)
    requires
        0 <= from,
        0 <= k < filtered_from(tree, targets, from).len(),
    ensures
        kept_index(tree, targets, from, k) is Some,
    decreases tree.children.len() - from,
{
    if from < tree.children.len() {
        if on_chain(tree.children[from].path(), targets) {
            if k > 0 {
                lemma_kept_index_found(tree, targets, from + 1, k - 1);
            }
        } else {
            lemma_kept_index_found(tree, targets, from + 1, k);
        }
    }
}

/// Every location that addresses a label of the filtered label tree has
/// an origin in the directory.
pub proof fn lemma_origin_found(tree: Tree, targets: Seq<Seq<Seq<char>>>, location: Seq<usize>)
    requires
        tree.fits(),
        label_at(filtered_from(tree, targets, 0), location) is Some,
    ensures
        filtered_origin(tree, targets, location) is Some,
    decreases location.len(),
{
    lemma_kept_index_found(tree, targets, 0, location[0] as int);
    lemma_kept_index(tree, targets, 0, location[0] as int);
    let index = kept_index(tree, targets, 0, location[0] as int)->0;
    if location.len() > 1 {
        match tree.children[index] {
            Node::Dir(sub) => {
                lemma_origin_found(sub, targets, location.skip(1));
            },
            Node::File(_) => {
                assert(label_at(Seq::empty(), location.skip(1)) is None);
            },
        }
    }
}

} // verus!
