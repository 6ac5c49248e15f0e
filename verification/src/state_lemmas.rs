use vstd::prelude::*;
use crate::projection::Label;
use crate::state::{label_at, stepped, visible, visible_from};

verus! {

/// Every visible location under `prefix`, counted from index `from`, is
/// longer than `prefix`, starts with it, and goes on with an index of at
/// least `from`. No location is visible twice.
pub proof fn lemma_visible_shape(
    opened: Set<Seq<usize>>,
    labels: Seq<Label>,
    prefix: Seq<usize>,
    from: int,
)
    requires
        0 <= from,
    ensures
        forall|k: int|
            0 <= k < visible_from(opened, labels, prefix, from).len() ==> {
                let at = #[trigger] visible_from(opened, labels, prefix, from)[k];
                &&& at.len() > prefix.len()
                &&& prefix.is_prefix_of(at)
                &&& at[prefix.len() as int] >= from
            },
        visible_from(opened, labels, prefix, from).no_duplicates(),
    decreases labels, labels.len() - from,
{
    let all = visible_from(opened, labels, prefix, from);
    if from >= labels.len() || from > usize::MAX {
    } else {
        let here = prefix.push(from as usize);
        let below = if opened.contains(here) {
            visible_from(opened, labels[from].children, here, 0)
        } else {
            Seq::empty()
        };
        let rest = visible_from(opened, labels, prefix, from + 1);
        if opened.contains(here) {
            lemma_visible_shape(opened, labels[from].children, here, 0);
        }
        lemma_visible_shape(opened, labels, prefix, from + 1);
        assert(all == seq![here] + below + rest);
        assert(prefix =~= here.subrange(0, prefix.len() as int));
        assert forall|k: int| 0 <= k < all.len() implies {
            let at = #[trigger] all[k];
            &&& at.len() > prefix.len()
            &&& prefix.is_prefix_of(at)
            &&& at[prefix.len() as int] >= from
            &&& (k == 0 ==> at == here)
            &&& (0 < k <= below.len() ==> at.len() > here.len()
                && at[prefix.len() as int] == from)
            &&& (k > below.len() ==> at[prefix.len() as int] > from)
        } by {
            let at = all[k];
            if k == 0 {
            } else if k <= below.len() {
                assert(at == below[k - 1]);
                assert(here.is_prefix_of(at));
                assert(here =~= at.subrange(0, here.len() as int));
                let start = at.subrange(0, here.len() as int);
                assert(at[prefix.len() as int] == start[prefix.len() as int]);
                assert(prefix =~= at.subrange(0, prefix.len() as int));
            } else {
                assert(at == rest[k - 1 - below.len()]);
            }
        }
        assert forall|i: int, j: int|
            0 <= i < all.len() && 0 <= j < all.len() && i != j implies all[i] != all[j] by {
            if 0 < i <= below.len() && 0 < j <= below.len() {
                assert(all[i] == below[i - 1]);
                assert(all[j] == below[j - 1]);
            } else if i > below.len() && j > below.len() {
                assert(all[i] == rest[i - 1 - below.len()]);
                assert(all[j] == rest[j - 1 - below.len()]);
            }
        }
    }
}

/// A location under `prefix` is among the visible ones exactly where it
/// addresses a label at or behind index `from` and every location between
/// `prefix` and it is expanded.
pub proof fn lemma_visible_exactly(
    opened: Set<Seq<usize>>,
    labels: Seq<Label>,
    prefix: Seq<usize>,
    from: int,
    rest: Seq<usize>,
)
    requires
        0 <= from,
    ensures
        visible_from(opened, labels, prefix, from).contains(prefix + rest) <==> {
            &&& rest.len() > 0
            &&& rest[0] >= from
            &&& label_at(labels, rest) is Some
            &&& forall|k: int|
                0 < k < rest.len() ==> opened.contains(prefix + #[trigger] rest.take(k))
        },
    decreases labels, labels.len() - from, rest.len(),
{
    let all = visible_from(opened, labels, prefix, from);
    let at = prefix + rest;
    let right = {
        &&& rest.len() > 0
        &&& rest[0] >= from
        &&& label_at(labels, rest) is Some
        &&& forall|k: int|
            0 < k < rest.len() ==> opened.contains(prefix + #[trigger] rest.take(k))
    };
    if from >= labels.len() || from > usize::MAX {
        assert(all.len() == 0);
    } else {
        let here = prefix.push(from as usize);
        let inner = labels[from].children;
        let below = if opened.contains(here) {
            visible_from(opened, inner, here, 0)
        } else {
            Seq::empty()
        };
        let tail = visible_from(opened, labels, prefix, from + 1);
        assert(all == seq![here] + below + tail);
        lemma_visible_exactly(opened, labels, prefix, from + 1, rest);
        lemma_visible_shape(opened, labels, prefix, from);
        lemma_visible_shape(opened, labels, prefix, from + 1);
        if rest.len() > 0 {
            assert(at[prefix.len() as int] == rest[0]);
            assert(rest.take(1) =~= seq![rest[0]]);
            if rest[0] == from {
                assert(prefix + rest.take(1) =~= here);
                let deeper = rest.skip(1);
                assert(here + deeper =~= at);
                assert forall|k: int| 0 < k < deeper.len() implies here + #[trigger] deeper.take(k)
                    =~= prefix + rest.take(k + 1) by {}
                assert forall|k: int| 1 < k < rest.len() implies prefix + #[trigger] rest.take(k)
                    =~= here + deeper.take(k - 1) by {}
                if opened.contains(here) {
                    lemma_visible_exactly(opened, inner, here, 0, deeper);
                    lemma_visible_shape(opened, inner, here, 0);
                }
                if all.contains(at) {
                    let i = choose|i: int| 0 <= i < all.len() && all[i] == at;
                    if i == 0 {
                        assert(rest =~= seq![from as usize]);
                    } else if i <= below.len() {
                        assert(below[i - 1] == at);
                        assert(below.contains(here + deeper));
                        assert forall|k: int| 0 < k < rest.len() implies opened.contains(
                            prefix + #[trigger] rest.take(k),
                        ) by {
                            if k > 1 {
                                assert(opened.contains(here + deeper.take(k - 1)));
                            }
                        }
                    } else {
                        assert(tail[i - 1 - below.len()] == at);
                    }
                    assert(right);
                }
                if right {
                    if rest.len() == 1 {
                        assert(at =~= here);
                        assert(all[0] == at);
                    } else {
                        assert(opened.contains(prefix + rest.take(1)));
                        assert forall|k: int| 0 < k < deeper.len() implies opened.contains(
                            here + #[trigger] deeper.take(k),
                        ) by {
                            assert(opened.contains(prefix + rest.take(k + 1)));
                        }
                        assert(below.contains(here + deeper));
                        let i = choose|i: int| 0 <= i < below.len() && below[i] == at;
                        assert(all[i + 1] == at);
                    }
                    assert(all.contains(at));
                }
            } else if rest[0] > from {
                if all.contains(at) {
                    let i = choose|i: int| 0 <= i < all.len() && all[i] == at;
                    if i == 0 {
                    } else if i <= below.len() {
                        assert(below[i - 1] == at);
                        lemma_visible_shape(opened, inner, here, 0);
                        assert(here =~= at.subrange(0, here.len() as int));
                        let start = at.subrange(0, here.len() as int);
                        assert(at[prefix.len() as int] == start[prefix.len() as int]);
                    } else {
                        assert(tail[i - 1 - below.len()] == at);
                        assert(tail.contains(at));
                    }
                }
                if tail.contains(at) {
                    let i = choose|i: int| 0 <= i < tail.len() && tail[i] == at;
                    assert(all[i + 1 + below.len()] == at);
                }
            } else {
                if all.contains(at) {
                    let i = choose|i: int| 0 <= i < all.len() && all[i] == at;
                    assert(all[i][prefix.len() as int] >= from);
                }
            }
        } else {
            if all.contains(at) {
                let i = choose|i: int| 0 <= i < all.len() && all[i] == at;
                assert(all[i].len() > prefix.len());
            }
        }
    }
}

/// Where the label tree is not empty, the first visible location is the
/// first top-level one.
pub proof fn lemma_visible_first(opened: Set<Seq<usize>>, labels: Seq<Label>)
    requires
        labels.len() > 0,
    ensures
        visible(opened, labels).len() > 0,
        visible(opened, labels)[0] == seq![0usize],
{
    assert(Seq::<usize>::empty().push(0usize) =~= seq![0usize]);
}

/// One step through a visible order that is not empty ends in that order.
pub proof fn lemma_stepped_in_order(order: Seq<Seq<usize>>, current: Seq<usize>, down: bool)
    requires
        order.len() > 0,
    ensures
        order.contains(stepped(order, current, down)),
{
    order.index_of_first_ensures(current);
    match order.index_of_first(current) {
        None => {
            assert(order[0] == stepped(order, current, down));
        },
        Some(at) => {
            let to = if down {
                if at + 1 < order.len() {
                    at + 1
                } else {
                    order.len() - 1
                }
            } else {
                if at > 0 {
                    at - 1
                } else {
                    0
                }
            };
            assert(order[to] == stepped(order, current, down));
        },
    }
}

} // verus!
