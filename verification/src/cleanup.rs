//! What taking the TC backend down leaves in the file system.
//!
//! A place in the file system is given by the components of its path.

use crate::control::{pinned_refusal, Control, LayoutError};
use crate::path::{components, joined};
use crate::pins::{clears, law_directories_are_removed_last, links_below, map_names, Removal};
use crate::table::CONTROL;
use vstd::prelude::*;
use vstd::utf8::encode_utf8;

verus! {

/// Whether `place` lies below `directory`, at any depth.
pub open spec fn is_below(place: Seq<Seq<u8>>, directory: Seq<Seq<u8>>) -> bool {
    place.len() > directory.len() && place.take(directory.len() as int) == directory
}

/// Whether `place` is `directory` or lies below it.
pub open spec fn is_within(place: Seq<Seq<u8>>, directory: Seq<Seq<u8>>) -> bool {
    place == directory || is_below(place, directory)
}

/// Whether each place that exists lies in a directory that exists.
pub open spec fn is_tree(places: Set<Seq<Seq<u8>>>) -> bool {
    forall|p: Seq<Seq<u8>>| #[trigger]
        places.contains(p) && p.len() > 0 ==> places.contains(p.drop_last())
}

/// Whether nothing lies below `place`.
pub open spec fn is_bare(places: Set<Seq<Seq<u8>>>, place: Seq<Seq<u8>>) -> bool {
    forall|p: Seq<Seq<u8>>| #[trigger] places.contains(p) ==> !is_below(p, place)
}

/// Whether `after` is left of the places `before` once the links below `pin_path` are unpinned:
/// nothing but files directly in the directory for links is gone.
pub open spec fn unlinked(
    before: Set<Seq<Seq<u8>>>,
    after: Set<Seq<Seq<u8>>>,
    pin_path: Seq<u8>,
) -> bool {
    &&& after.subset_of(before)
    &&& forall|p: Seq<Seq<u8>>| #[trigger]
        before.contains(p) && !after.contains(p) ==> p.len() > 0 && p.drop_last() == components(
            links_below(pin_path),
        ) && is_bare(before, p)
}

/// Whether `after` is left of the places `before` once `removal` went through: what does not exist
/// is passed over, and only a file or an empty directory can be removed.
pub open spec fn removed(
    before: Set<Seq<Seq<u8>>>,
    removal: Removal,
    after: Set<Seq<Seq<u8>>>,
) -> bool {
    let place = components(removal.path@);
    if before.contains(place) {
        is_bare(before, place) && after == before.remove(place)
    } else {
        after == before
    }
}

/// Whether the removal at place `i` of `plan` leads from one state of the file system to the next.
pub open spec fn removed_at(states: Seq<Set<Seq<Seq<u8>>>>, plan: Seq<Removal>, i: int) -> bool {
    removed(states[i], plan[i], states[i + 1])
}

/// Whether `states` is what the file system goes through when the state below `pin_path` is
/// removed as `plan` says, all of it with success: first the links, then what the plan lists.
pub open spec fn takes_down(
    before: Set<Seq<Seq<u8>>>,
    states: Seq<Set<Seq<Seq<u8>>>>,
    plan: Seq<Removal>,
    pin_path: Seq<u8>,
) -> bool {
    &&& is_tree(before)
    &&& clears(plan, pin_path)
    &&& states.len() == plan.len() + 1
    &&& unlinked(before, states[0], pin_path)
    &&& forall|i: int| 0 <= i < plan.len() ==> #[trigger] removed_at(states, plan, i)
}

/// The control record that is found below `pin_path`, where `record` is what its pin holds.
pub open spec fn record_found(
    places: Set<Seq<Seq<u8>>>,
    pin_path: Seq<u8>,
    record: Control,
) -> Option<Control> {
    if places.contains(components(joined(pin_path, encode_utf8(CONTROL@)))) {
        Some(record)
    } else {
        None
    }
}

/// In a tree, whatever lies below a directory shows that the directory exists.
proof fn lemma_directory_exists(
    places: Set<Seq<Seq<u8>>>,
    place: Seq<Seq<u8>>,
    directory: Seq<Seq<u8>>,
)
    requires
        is_tree(places),
        places.contains(place),
        is_within(place, directory),
    ensures
        places.contains(directory),
    decreases place.len(),
{
    if place != directory {
        let parent = place.drop_last();
        assert(places.contains(parent));
        assert(parent.take(directory.len() as int) =~= place.take(directory.len() as int));
        if parent.len() == directory.len() {
            assert(parent =~= directory);
        }
        lemma_directory_exists(places, parent, directory);
    }
}

/// What stands directly in a directory lies below it.
proof fn lemma_child_is_below(place: Seq<Seq<u8>>)
    requires
        place.len() > 0,
    ensures
        is_below(place, place.drop_last()),
{
    assert(place.take(place.len() - 1) =~= place.drop_last());
}

/// Taking away a place with nothing below it leaves a tree.
proof fn lemma_tree_after_removal(before: Set<Seq<Seq<u8>>>, after: Set<Seq<Seq<u8>>>)
    requires
        is_tree(before),
        after.subset_of(before),
        forall|p: Seq<Seq<u8>>| #[trigger]
            before.contains(p) && !after.contains(p) ==> is_bare(before, p),
    ensures
        is_tree(after),
{
    assert forall|p: Seq<Seq<u8>>| #[trigger]
        after.contains(p) && p.len() > 0 implies after.contains(p.drop_last()) by {
        assert(before.contains(p));
        assert(before.contains(p.drop_last()));
        lemma_child_is_below(p);
    }
}

/// The files and directories of a plan lie within `pin_path`.
proof fn lemma_plan_is_within(plan: Seq<Removal>, pin_path: Seq<u8>, i: int)
    requires
        clears(plan, pin_path),
        0 <= i < plan.len(),
    ensures
        is_within(components(plan[i].path@), components(pin_path)),
{
    law_directories_are_removed_last(plan, pin_path, 0);
    if i < plan.len() - 1 {
        let place = components(plan[i].path@);
        assert(place.drop_last() == components(pin_path));
        lemma_child_is_below(place);
    }
}

/// Up to the removal at place `n`, the file system stays a tree and only what lies within
/// `pin_path` is gone.
proof fn lemma_takes_down(
    before: Set<Seq<Seq<u8>>>,
    states: Seq<Set<Seq<Seq<u8>>>>,
    plan: Seq<Removal>,
    pin_path: Seq<u8>,
    n: int,
)
    requires
        takes_down(before, states, plan, pin_path),
        0 <= n <= plan.len(),
    ensures
        is_tree(states[n]),
        states[n].subset_of(before),
        forall|p: Seq<Seq<u8>>| #[trigger]
            before.contains(p) && !states[n].contains(p) ==> is_within(p, components(pin_path)),
    decreases n,
{
    let root = components(pin_path);
    if n == 0 {
        lemma_tree_after_removal(before, states[0]);
        let links = plan.len() - 2;
        lemma_plan_is_within(plan, pin_path, links);
        assert(plan[links].path@ == links_below(pin_path));
        assert forall|p: Seq<Seq<u8>>| #[trigger]
            before.contains(p) && !states[0].contains(p) implies is_within(p, root) by {
            let parent = p.drop_last();
            assert(is_within(parent, root));
            assert(p.take(root.len() as int) =~= parent.take(root.len() as int));
            assert(parent.take(parent.len() as int) =~= parent);
        }
    } else {
        lemma_takes_down(before, states, plan, pin_path, n - 1);
        assert(removed_at(states, plan, n - 1));
        lemma_plan_is_within(plan, pin_path, n - 1);
        lemma_tree_after_removal(states[n - 1], states[n]);
        assert forall|p: Seq<Seq<u8>>| #[trigger]
            before.contains(p) && !states[n].contains(p) implies is_within(p, root) by {
            if states[n - 1].contains(p) {
                assert(p == components(plan[n - 1].path@));
            }
        }
    }
}

/// A cleanup that goes through leaves nothing in the place of the pinned state, and everything
/// elsewhere as it was.
pub proof fn law_cleanup_leaves_nothing(
    before: Set<Seq<Seq<u8>>>,
    states: Seq<Set<Seq<Seq<u8>>>>,
    plan: Seq<Removal>,
    pin_path: Seq<u8>,
)
    requires
        takes_down(before, states, plan, pin_path),
    ensures
        !states.last().contains(components(pin_path)),
        forall|p: Seq<Seq<u8>>| #[trigger]
            states.last().contains(p) <==> before.contains(p) && !is_within(p, components(pin_path)),
{
    let n = plan.len() as int;
    let root = components(pin_path);
    lemma_takes_down(before, states, plan, pin_path, n);
    lemma_takes_down(before, states, plan, pin_path, n - 1);
    assert(removed_at(states, plan, n - 1));
    law_directories_are_removed_last(plan, pin_path, 0);
    assert forall|p: Seq<Seq<u8>>| #[trigger] states[n].contains(p) implies !is_within(p, root) by {
        assert(states[n - 1].contains(p));
        if is_within(p, root) {
            lemma_directory_exists(states[n - 1], p, root);
        }
    }
}

/// After a cleanup that went through, the next one finds no control record and is refused for
/// that, whatever the record held.
pub proof fn law_second_cleanup_finds_nothing(
    before: Set<Seq<Seq<u8>>>,
    states: Seq<Set<Seq<Seq<u8>>>>,
    plan: Seq<Removal>,
    pin_path: Seq<u8>,
    record: Control,
)
    requires
        takes_down(before, states, plan, pin_path),
    ensures
        pinned_refusal(record_found(states.last(), pin_path, record)) == Some(LayoutError::Missing),
{
    law_cleanup_leaves_nothing(before, states, plan, pin_path);
    lemma_plan_is_within(plan, pin_path, 0);
    assert(map_names()[0] == CONTROL@);
}

} // verus!
