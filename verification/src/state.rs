use vstd::prelude::*;
use tui_tree_widget::{TreeItem, TreeState};
use crate::projection::{labels_of, Label};

verus! {

/// The navigation state of `tui_tree_widget`: the selected location and
/// the set of locations that are expanded. It is opaque here: the two are
/// spoken of through `state_selected` and `state_opened`.
#[verifier::external_type_specification]
#[verifier::external_body]
pub struct ExTreeState(tui_tree_widget::TreeState);

/// The location that a navigation state has selected.
pub uninterp spec fn state_selected(state: TreeState) -> Seq<usize>;

/// The locations that a navigation state has expanded.
pub uninterp spec fn state_opened(state: TreeState) -> Set<Seq<usize>>;

/// The locations of `labels` that are visible, in depth-first order and
/// looking only at the labels from index `from` on: each label's own
/// location, directly followed, where that location is expanded, by the
/// visible locations under it. `prefix` is the location above `labels`.
pub open spec fn visible_from(
    opened: Set<Seq<usize>>,
    labels: Seq<Label>,
    prefix: Seq<usize>,
    from: int,
) -> Seq<Seq<usize>>
    decreases labels, labels.len() - from,
{
    if from < 0 || from >= labels.len() || from > usize::MAX {
        Seq::empty()
    } else {
        let here = prefix.push(from as usize);
        let below = if opened.contains(here) {
            visible_from(opened, labels[from].children, here, 0)
        } else {
            Seq::empty()
        };
        seq![here] + below + visible_from(opened, labels, prefix, from + 1)
    }
}

/// The label that `location` addresses in a label tree, one index per
/// level; `None` where the location is empty or an index is out of range.
pub open spec fn label_at(labels: Seq<Label>, location: Seq<usize>) -> Option<Label>
    decreases location.len(),
{
    if location.len() == 0 || location[0] >= labels.len() {
        None
    } else if location.len() == 1 {
        Some(labels[location[0] as int])
    } else {
        label_at(labels[location[0] as int].children, location.skip(1))
    }
}

/// Whether every location above `location` is expanded.
pub open spec fn unfolded(opened: Set<Seq<usize>>, location: Seq<usize>) -> bool {
    forall|k: int| 0 < k < location.len() ==> opened.contains(#[trigger] location.take(k))
}

/// The visible locations of a label tree in depth-first order: a location
/// is visible where every location above it is expanded.
pub open spec fn visible(opened: Set<Seq<usize>>, labels: Seq<Label>) -> Seq<Seq<usize>> {
    visible_from(opened, labels, Seq::empty(), 0)
}

/// Where the selection goes on one step down or up through `order`: to
/// the neighbour of `current`, staying put at either end; to the first
/// location where `current` is not in `order`.
pub open spec fn stepped(order: Seq<Seq<usize>>, current: Seq<usize>, down: bool) -> Seq<usize>
    recommends
        order.len() > 0,
{
    match order.index_of_first(current) {
        None => order[0],
        Some(at) => if down {
            if at + 1 < order.len() {
                order[at + 1]
            } else {
                order[order.len() - 1]
            }
        } else {
            if at > 0 {
                order[at - 1]
            } else {
                order[0]
            }
        },
    }
}

/// The expanded set after the expansion of `location` is flipped. The
/// empty location is never put in.
pub open spec fn toggled(opened: Set<Seq<usize>>, location: Seq<usize>) -> Set<Seq<usize>> {
    if opened.contains(location) {
        opened.remove(location)
    } else if location.len() == 0 {
        opened
    } else {
        opened.insert(location)
    }
}

/// `TreeState::default`: nothing is selected and nothing is expanded.
#[verifier::external_body]
pub(crate) fn state_new() -> (state: TreeState)
    ensures
        state_selected(state) == Seq::<usize>::empty(),
        state_opened(state) == Set::<Seq<usize>>::empty(),
{
    TreeState::default()
}

/// `TreeState::selected`: a copy of the selected location.
#[verifier::external_body]
pub(crate) fn state_get_selected(state: &TreeState) -> (location: Vec<usize>)
    ensures
        location@ == state_selected(*state),
{
    state.selected()
}

/// `TreeState::select`: the given location becomes the selection; the
/// expanded set stays.
#[verifier::external_body]
pub(crate) fn state_select(state: &mut TreeState, location: Vec<usize>)
    ensures
        state_selected(*final(state)) == location@,
        state_opened(*final(state)) == state_opened(*old(state)),
{
    state.select(location)
}

/// `TreeState::open`: a location that is not empty joins the expanded
/// set; the selection stays. The result says whether the set grew.
#[verifier::external_body]
pub(crate) fn state_open(state: &mut TreeState, location: Vec<usize>) -> (grew: bool)
    ensures
        state_selected(*final(state)) == state_selected(*old(state)),
        state_opened(*final(state)) == if location@.len() == 0 {
            state_opened(*old(state))
        } else {
            state_opened(*old(state)).insert(location@)
        },
        grew == (location@.len() > 0 && !state_opened(*old(state)).contains(location@)),
{
    state.open(location)
}

/// `TreeState::close`: the location leaves the expanded set; the
/// selection stays. The result says whether it had been in the set.
#[verifier::external_body]
pub(crate) fn state_close(state: &mut TreeState, location: &[usize]) -> (shrank: bool)
    ensures
        state_selected(*final(state)) == state_selected(*old(state)),
        state_opened(*final(state)) == state_opened(*old(state)).remove(location@),
        shrank == state_opened(*old(state)).contains(location@),
{
    state.close(location)
}

/// `TreeState::toggle_selected`: the expansion of the selected location is
/// flipped; the selection stays.
#[verifier::external_body]
pub(crate) fn state_toggle_selected(state: &mut TreeState)
    ensures
        state_selected(*final(state)) == state_selected(*old(state)),
        state_opened(*final(state)) == toggled(
            state_opened(*old(state)),
            state_selected(*old(state)),
        ),
{
    state.toggle_selected()
}

/// `TreeState::select_first`: the selection becomes the location of the
/// first top-level item, whether or not there is one.
#[verifier::external_body]
pub(crate) fn state_select_first(state: &mut TreeState)
    ensures
        state_selected(*final(state)) == seq![0usize],
        state_opened(*final(state)) == state_opened(*old(state)),
{
    state.select_first()
}

/// `TreeState::select_last`: the selection becomes the last visible
/// location of `items`, or the empty location where nothing is visible.
#[verifier::external_body]
pub(crate) fn state_select_last(state: &mut TreeState, items: &Vec<TreeItem<'static>>)
    ensures
        state_selected(*final(state)) == if visible(
            state_opened(*old(state)),
            labels_of(items@),
        ).len() > 0 {
            visible(state_opened(*old(state)), labels_of(items@)).last()
        } else {
            Seq::<usize>::empty()
        },
        state_opened(*final(state)) == state_opened(*old(state)),
{
    state.select_last(items)
}

/// `TreeState::key_up`: the selection moves one step up through the
/// visible locations of `items`. The call panics where `items` is empty.
#[verifier::external_body]
pub(crate) fn state_key_up(state: &mut TreeState, items: &Vec<TreeItem<'static>>)
    requires
        items@.len() > 0,
    ensures
        state_selected(*final(state)) == stepped(
            visible(state_opened(*old(state)), labels_of(items@)),
            state_selected(*old(state)),
            false,
        ),
        state_opened(*final(state)) == state_opened(*old(state)),
{
    state.key_up(items)
}

/// `TreeState::key_down`: the selection moves one step down through the
/// visible locations of `items`. The call panics where `items` is empty.
#[verifier::external_body]
pub(crate) fn state_key_down(state: &mut TreeState, items: &Vec<TreeItem<'static>>)
    requires
        items@.len() > 0,
    ensures
        state_selected(*final(state)) == stepped(
            visible(state_opened(*old(state)), labels_of(items@)),
            state_selected(*old(state)),
            true,
        ),
        state_opened(*final(state)) == state_opened(*old(state)),
{
    state.key_down(items)
}

} // verus!
