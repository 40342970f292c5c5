//! What a reload does, action by action.

use crate::config::Tc;
use crate::control::{Control, LAYOUT_VERSION};
use crate::reload::{
    ReloadAction, ReloadEvent, ReloadFailure, ReloadState, Stage, StagingFault,
};
use crate::table::{AddressPrefix, Table};
use vstd::prelude::*;

verus! {

/// Whether `states` is what a reload goes through on `events`, from slot `active` and with the
/// capacities of `tc`.
pub open spec fn reloads(
    states: Seq<ReloadState>,
    events: Seq<ReloadEvent>,
    active: u32,
    configured: bool,
    tc: Tc,
) -> bool {
    &&& active < 2
    &&& states.len() == events.len() + 1
    &&& states[0] == ReloadState::initial(
        active,
        configured,
        tc.ipv4_max_entries,
        tc.ipv6_max_entries,
    )
    &&& forall|i: int| 0 <= i < events.len() ==> states[i + 1] == states[i].next(#[trigger] events[i])
}

/// Whether `events` begin with a slot that was cleared, a list that was opened, and `prefixes`
/// that were read and stored, one after the other.
pub open spec fn stages(events: Seq<ReloadEvent>, prefixes: Seq<AddressPrefix>) -> bool {
    &&& events.len() >= 2 + 2 * prefixes.len()
    &&& events[0] == ReloadEvent::Done
    &&& events[1] == ReloadEvent::Done
    &&& forall|i: int|
        0 <= i < prefixes.len() ==> events[2 + 2 * i] == ReloadEvent::Prefix(#[trigger] prefixes[i])
            && events[3 + 2 * i] == ReloadEvent::Done
}

/// How many of `prefixes` are IPv4 prefixes.
pub open spec fn v4_count(prefixes: Seq<AddressPrefix>) -> nat {
    prefixes.filter(|p: AddressPrefix| p is V4).len()
}

/// How many of `prefixes` are IPv6 prefixes.
pub open spec fn v6_count(prefixes: Seq<AddressPrefix>) -> nat {
    prefixes.filter(|p: AddressPrefix| p is V6).len()
}

/// One more prefix counts for its family.
proof fn lemma_count_next(prefixes: Seq<AddressPrefix>, n: int)
    requires
        0 <= n < prefixes.len(),
    ensures
        v4_count(prefixes.take(n + 1)) == v4_count(prefixes.take(n)) + if prefixes[n] is V4 {
            1nat
        } else {
            0nat
        },
        v6_count(prefixes.take(n + 1)) == v6_count(prefixes.take(n)) + if prefixes[n] is V6 {
            1nat
        } else {
            0nat
        },
{
    reveal(Seq::filter);
    assert(prefixes.take(n + 1).drop_last() =~= prefixes.take(n));
}

/// The first prefixes are no more than all of them.
proof fn lemma_count_grows(prefixes: Seq<AddressPrefix>, n: int)
    requires
        0 <= n <= prefixes.len(),
    ensures
        v4_count(prefixes.take(n)) <= v4_count(prefixes),
        v6_count(prefixes.take(n)) <= v6_count(prefixes),
    decreases prefixes.len() - n,
{
    if n < prefixes.len() {
        lemma_count_next(prefixes, n);
        lemma_count_grows(prefixes, n + 1);
    } else {
        assert(prefixes.take(n) =~= prefixes);
    }
}

/// Where a reload stands once `n` prefixes are stored.
proof fn lemma_staged(
    states: Seq<ReloadState>,
    events: Seq<ReloadEvent>,
    active: u32,
    tc: Tc,
    prefixes: Seq<AddressPrefix>,
    n: int,
)
    requires
        reloads(states, events, active, true, tc),
        stages(events, prefixes),
        v4_count(prefixes) <= tc.ipv4_max_entries,
        v6_count(prefixes) <= tc.ipv6_max_entries,
        0 <= n <= prefixes.len(),
    ensures
        states[2 + 2 * n] == (ReloadState {
            active,
            configured: true,
            ipv4_max: tc.ipv4_max_entries,
            ipv6_max: tc.ipv6_max_entries,
            ipv4: v4_count(prefixes.take(n)) as u64,
            ipv6: v6_count(prefixes.take(n)) as u64,
            stage: Stage::Read,
        }),
        n > 0 ==> states[1 + 2 * n].stage == Stage::Insert(prefixes[n - 1]) && states[1 + 2
            * n].active == active && states[2 * n].stage == Stage::Read,
    decreases n,
{
    if n == 0 {
        reveal(Seq::filter);
        assert(states[1] == states[0].next(events[0]));
        assert(states[2] == states[1].next(events[1]));
        assert(prefixes.take(0) =~= Seq::<AddressPrefix>::empty());
    } else {
        lemma_staged(states, events, active, tc, prefixes, n - 1);
        let at = 2 * n;
        assert(2 + 2 * (n - 1) == at);
        assert(events[at] == ReloadEvent::Prefix(prefixes[n - 1]) && events[at + 1]
            == ReloadEvent::Done);
        assert(states[at + 1] == states[at].next(events[at]));
        assert(states[at + 2] == states[at + 1].next(events[at + 1]));
        lemma_count_next(prefixes, n - 1);
        lemma_count_grows(prefixes, n);
    }
}

/// A reload of a list that fits, in which nothing fails: the slot not in use is cleared, the list
/// opened, each prefix read and stored in the table of its family in that slot, the control record
/// pointed to that slot, and the other slot cleared. What was stored is counted by family.
pub proof fn law_reload_that_goes_through(
    states: Seq<ReloadState>,
    events: Seq<ReloadEvent>,
    active: u32,
    tc: Tc,
    prefixes: Seq<AddressPrefix>,
)
    requires
        reloads(states, events, active, true, tc),
        stages(events, prefixes),
        prefixes.filter(|p: AddressPrefix| p is V4).len() <= tc.ipv4_max_entries,
        prefixes.filter(|p: AddressPrefix| p is V6).len() <= tc.ipv6_max_entries,
        events.len() == 2 * prefixes.len() + 5,
        events[2 * prefixes.len() as int + 2] == ReloadEvent::End,
        events[2 * prefixes.len() as int + 3] == ReloadEvent::Done,
        events[2 * prefixes.len() as int + 4] == ReloadEvent::Done || events[2 * prefixes.len() as int
            + 4] == ReloadEvent::Failed,
    ensures
        states[0].planned() == ReloadAction::ClearSlot((1 - active) as u32),
        states[1].planned() == ReloadAction::OpenBlocklist,
        forall|i: int|
            0 <= i < prefixes.len() ==> states[2 + 2 * i].planned() == ReloadAction::ReadPrefix && (
            states[3 + 2 * i].planned() matches ReloadAction::Insert { table, prefix } && prefix
                == #[trigger] prefixes[i] && table == match prefixes[i] {
                AddressPrefix::V4 { .. } => if active == 1 {
                    Table::Ipv4A
                } else {
                    Table::Ipv4B
                },
                AddressPrefix::V6 { .. } => if active == 1 {
                    Table::Ipv6A
                } else {
                    Table::Ipv6B
                },
            }),
        states[2 * prefixes.len() as int + 2].planned() == ReloadAction::ReadPrefix,
        states[2 * prefixes.len() as int + 3].planned() == ReloadAction::Activate(
            Control { layout_version: LAYOUT_VERSION, active_slot: (1 - active) as u32 },
        ),
        states[2 * prefixes.len() as int + 4].planned() == ReloadAction::ClearSlot(active),
        states.last().planned() == ReloadAction::Finish,
        states.last().ipv4 == prefixes.filter(|p: AddressPrefix| p is V4).len(),
        states.last().ipv6 == prefixes.filter(|p: AddressPrefix| p is V6).len(),
{
    let n = prefixes.len() as int;
    lemma_staged(states, events, active, tc, prefixes, n);
    assert(prefixes.take(n) =~= prefixes);
    assert(states[1] == states[0].next(events[0]));
    assert forall|i: int| 0 <= i < prefixes.len() implies states[2 + 2 * i].planned()
        == ReloadAction::ReadPrefix && (states[3 + 2 * i].planned() matches ReloadAction::Insert {
        table,
        prefix,
    } && prefix == #[trigger] prefixes[i] && table == match prefixes[i] {
        AddressPrefix::V4 { .. } => if active == 1 {
            Table::Ipv4A
        } else {
            Table::Ipv4B
        },
        AddressPrefix::V6 { .. } => if active == 1 {
            Table::Ipv6A
        } else {
            Table::Ipv6B
        },
    }) by {
        lemma_staged(states, events, active, tc, prefixes, i + 1);
        assert(1 + 2 * (i + 1) == 3 + 2 * i && 2 * (i + 1) == 2 + 2 * i);
    }
    assert(states[2 * n + 3] == states[2 * n + 2].next(events[2 * n + 2]));
    assert(states[2 * n + 4] == states[2 * n + 3].next(events[2 * n + 3]));
    assert(states[2 * n + 5] == states[2 * n + 4].next(events[2 * n + 4]));
}

/// A reload with one prefix more of a family than `tc` has room for: the slot that was being
/// filled is cleared again, and, whether that works or not, the reload fails for that family's
/// capacity.
pub proof fn law_reload_of_a_list_that_does_not_fit(
    states: Seq<ReloadState>,
    events: Seq<ReloadEvent>,
    active: u32,
    tc: Tc,
    prefixes: Seq<AddressPrefix>,
    more: AddressPrefix,
)
    requires
        reloads(states, events, active, true, tc),
        stages(events, prefixes),
        prefixes.filter(|p: AddressPrefix| p is V4).len() <= tc.ipv4_max_entries,
        prefixes.filter(|p: AddressPrefix| p is V6).len() <= tc.ipv6_max_entries,
        more is V4 ==> prefixes.filter(|p: AddressPrefix| p is V4).len() == tc.ipv4_max_entries,
        more is V6 ==> prefixes.filter(|p: AddressPrefix| p is V6).len() == tc.ipv6_max_entries,
        events.len() == 2 * prefixes.len() + 4,
        events[2 * prefixes.len() as int + 2] == ReloadEvent::Prefix(more),
    ensures
        states[2 * prefixes.len() as int + 3].planned() == ReloadAction::ClearSlot(
            (1 - active) as u32,
        ),
        states.last().planned() == ReloadAction::Fail(
            ReloadFailure::Staging(
                if more is V4 {
                    StagingFault::Ipv4Full(tc.ipv4_max_entries)
                } else {
                    StagingFault::Ipv6Full(tc.ipv6_max_entries)
                },
            ),
        ),
{
    let n = prefixes.len() as int;
    lemma_staged(states, events, active, tc, prefixes, n);
    assert(prefixes.take(n) =~= prefixes);
    assert(states[2 * n + 3] == states[2 * n + 2].next(events[2 * n + 2]));
    assert(states[2 * n + 4] == states[2 * n + 3].next(events[2 * n + 3]));
}

/// A reload in which reading fails, or storing the prefix that was read (`unstored`): the slot
/// that was being filled is cleared again, and, whether that works or not, the reload fails for
/// what happened outside.
pub proof fn law_reload_that_fails_in_staging(
    states: Seq<ReloadState>,
    events: Seq<ReloadEvent>,
    active: u32,
    tc: Tc,
    prefixes: Seq<AddressPrefix>,
    unstored: Option<AddressPrefix>,
)
    requires
        reloads(states, events, active, true, tc),
        stages(events, prefixes),
        prefixes.filter(|p: AddressPrefix| p is V4).len() <= tc.ipv4_max_entries,
        prefixes.filter(|p: AddressPrefix| p is V6).len() <= tc.ipv6_max_entries,
        unstored is None ==> events.len() == 2 * prefixes.len() + 4 && events[2
            * prefixes.len() as int + 2] == ReloadEvent::Failed,
        unstored matches Some(p) ==> {
            &&& events.len() == 2 * prefixes.len() + 5
            &&& events[2 * prefixes.len() as int + 2] == ReloadEvent::Prefix(p)
            &&& events[2 * prefixes.len() as int + 3] == ReloadEvent::Failed
            &&& p is V4 ==> prefixes.filter(|p: AddressPrefix| p is V4).len() < tc.ipv4_max_entries
            &&& p is V6 ==> prefixes.filter(|p: AddressPrefix| p is V6).len() < tc.ipv6_max_entries
        },
    ensures
        states[states.len() - 2].planned() == ReloadAction::ClearSlot((1 - active) as u32),
        states.last().planned() == ReloadAction::Fail(
            ReloadFailure::Staging(StagingFault::Outside),
        ),
{
    let n = prefixes.len() as int;
    lemma_staged(states, events, active, tc, prefixes, n);
    assert(prefixes.take(n) =~= prefixes);
    assert(states[2 * n + 3] == states[2 * n + 2].next(events[2 * n + 2]));
    assert(states[2 * n + 4] == states[2 * n + 3].next(events[2 * n + 3]));
    if unstored is Some {
        assert(states[2 * n + 5] == states[2 * n + 4].next(events[2 * n + 4]));
    }
}

/// A reload that fails before anything is staged: when the slot cannot be cleared, when no list is
/// configured, which comes out after the slot was cleared, or when the list cannot be opened.
pub proof fn law_reload_that_fails_early(
    states: Seq<ReloadState>,
    events: Seq<ReloadEvent>,
    active: u32,
    configured: bool,
    tc: Tc,
)
    requires
        reloads(states, events, active, configured, tc),
        events.len() > 0,
    ensures
        events[0] == ReloadEvent::Failed ==> states[1].planned() == ReloadAction::Fail(
            ReloadFailure::Clear,
        ),
        events[0] == ReloadEvent::Done && !configured ==> states[1].planned() == ReloadAction::Fail(
            ReloadFailure::NotConfigured,
        ),
        events[0] == ReloadEvent::Done && configured ==> states[1].planned()
            == ReloadAction::OpenBlocklist,
        events[0] == ReloadEvent::Done && configured && events.len() > 1 && events[1]
            == ReloadEvent::Failed ==> states[2].planned() == ReloadAction::Fail(
            ReloadFailure::Open,
        ),
{
    assert(states[1] == states[0].next(events[0]));
    if events.len() > 1 {
        assert(states[2] == states[1].next(events[1]));
    }
}

/// A reload in which the control record cannot be written fails for that, with nothing done
/// after it.
pub proof fn law_reload_that_cannot_activate(
    states: Seq<ReloadState>,
    events: Seq<ReloadEvent>,
    active: u32,
    tc: Tc,
    prefixes: Seq<AddressPrefix>,
)
    requires
        reloads(states, events, active, true, tc),
        stages(events, prefixes),
        prefixes.filter(|p: AddressPrefix| p is V4).len() <= tc.ipv4_max_entries,
        prefixes.filter(|p: AddressPrefix| p is V6).len() <= tc.ipv6_max_entries,
        events.len() == 2 * prefixes.len() + 4,
        events[2 * prefixes.len() as int + 2] == ReloadEvent::End,
        events[2 * prefixes.len() as int + 3] == ReloadEvent::Failed,
    ensures
        states.last().planned() == ReloadAction::Fail(ReloadFailure::Activate),
{
    let n = prefixes.len() as int;
    lemma_staged(states, events, active, tc, prefixes, n);
    assert(prefixes.take(n) =~= prefixes);
    assert(states[2 * n + 3] == states[2 * n + 2].next(events[2 * n + 2]));
    assert(states[2 * n + 4] == states[2 * n + 3].next(events[2 * n + 3]));
}

} // verus!
