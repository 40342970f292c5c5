//! Handing interfaces over from the links of an earlier run to new ones.

use crate::links::{
    ascending, is_stale, stale_names, starts_up, LinkAction, StartupEvent, StartupModel,
    StartupStage,
};
use crate::text::{decimal, spelled_u32};
use vstd::prelude::*;

verus! {

/// What the kernel knows of one interface.
pub struct Attachment {
    /// Whether a link to it is pinned.
    pub pinned: bool,
    /// Whether the link of an earlier run is attached.
    pub old: bool,
    /// Whether a new link is attached.
    pub new: bool,
}

impl Attachment {
    /// An interface as an earlier run leaves it behind: with a link that is pinned, or without.
    pub open spec fn left_behind(self) -> bool {
        self.pinned == self.old && !self.new
    }

    /// Whether traffic of the interface is filtered.
    pub open spec fn is_filtered(self) -> bool {
        self.old || self.new
    }

    /// An interface with a new link that is pinned.
    pub open spec fn renewed() -> Attachment {
        Attachment { pinned: true, old: false, new: true }
    }
}

/// What performing `action` on its interface, with the outcome `event`, does to it.
pub open spec fn handled(a: Attachment, action: LinkAction, event: StartupEvent) -> Attachment {
    let done = event == StartupEvent::Done;
    match action {
        LinkAction::Attach(_) => Attachment { new: done, ..a },
        LinkAction::Release(_) => Attachment { pinned: a.pinned && !done, ..a },
        LinkAction::Pin(_) => if done {
            Attachment::renewed()
        } else {
            Attachment { new: false, ..a }
        },
        LinkAction::Restore(_) => Attachment { pinned: done, old: done, ..a },
        _ => a,
    }
}

/// The interface that an action is about.
pub open spec fn subject(action: LinkAction) -> Option<u32> {
    match action {
        LinkAction::Probe(x) => Some(x),
        LinkAction::Attach(x) => Some(x),
        LinkAction::Release(x) => Some(x),
        LinkAction::Pin(x) => Some(x),
        LinkAction::Restore(x) => Some(x),
        LinkAction::Unpin(x) => Some(x),
        _ => None,
    }
}

/// Whether performing `action` with the outcome `event` leads from `before` to `after`. A pin is
/// reported absent if and only if there is none.
pub open spec fn carried_out(
    before: spec_fn(u32) -> Attachment,
    action: LinkAction,
    event: StartupEvent,
    after: spec_fn(u32) -> Attachment,
) -> bool {
    &&& forall|x: u32| #[trigger]
        after(x) == if subject(action) == Some(x) {
            handled(before(x), action, event)
        } else {
            before(x)
        }
    &&& action matches LinkAction::Probe(x) ==> (event != StartupEvent::Failed ==> (event
        == StartupEvent::Done) == before(x).pinned)
}

/// Whether the step at place `i` of a start leads from one kernel state to the next.
pub open spec fn carried_out_at(
    states: Seq<StartupModel>,
    events: Seq<StartupEvent>,
    kernel: Seq<spec_fn(u32) -> Attachment>,
    i: int,
) -> bool {
    carried_out(kernel[i], states[i].planned(), events[i], kernel[i + 1])
}

/// Whether `kernel` is what the kernel goes through in a start that finds interfaces as an
/// earlier run left them behind.
pub open spec fn hands_over(
    states: Seq<StartupModel>,
    events: Seq<StartupEvent>,
    kernel: Seq<spec_fn(u32) -> Attachment>,
    links: Set<u32>,
) -> bool {
    &&& starts_up(states, events, links)
    &&& ascending(states[0].wanted)
    &&& kernel.len() == states.len()
    &&& forall|x: u32| (#[trigger] kernel[0](x)).left_behind()
    &&& forall|i: int| 0 <= i < events.len() ==> #[trigger] carried_out_at(states, events, kernel, i)
}

/// Whether an old link could not be pinned again at place `i`.
pub open spec fn loses_link(states: Seq<StartupModel>, events: Seq<StartupEvent>, i: int) -> bool {
    states[i].stage is Restore && events[i] == StartupEvent::Failed
}

/// How far the interface being worked on has come, where `first` is how it was found and `lost`
/// tells whether an old link could not be pinned again.
spec fn current_at(stage: StartupStage, first: Attachment, now: Attachment, lost: bool) -> bool {
    match stage {
        StartupStage::Probe => now == first,
        StartupStage::Attach { old } => now == first && old == first.pinned,
        StartupStage::Release => first.pinned && now == (Attachment { new: true, ..first }),
        StartupStage::Pin { old } => old == first.pinned && now == (Attachment {
            pinned: false,
            old,
            new: true,
        }),
        StartupStage::Restore => first.pinned && now == (Attachment {
            pinned: false,
            old: true,
            new: false,
        }),
        StartupStage::Finished => true,
        StartupStage::Failed(_) => lost || (now.pinned == first.pinned && now.old == first.old),
    }
}

/// What holds of each interface at every point of a start.
spec fn progress(
    m: StartupModel,
    first: spec_fn(u32) -> Attachment,
    now: spec_fn(u32) -> Attachment,
    lost: bool,
) -> bool {
    &&& forall|j: int|
        0 <= j < m.at ==> #[trigger] now(m.wanted[j]) == Attachment::renewed()
    &&& 0 <= m.at < m.wanted.len() ==> current_at(
        m.stage,
        first(m.wanted[m.at]),
        now(m.wanted[m.at]),
        lost,
    )
    &&& forall|j: int|
        m.at < j < m.wanted.len() ==> #[trigger] now(m.wanted[j]) == first(m.wanted[j])
    &&& forall|x: u32| !m.wanted.contains(x) ==> #[trigger] now(x) == first(x)
    &&& lost ==> m.stage is Failed
}

proof fn lemma_progress_step(
    m: StartupModel,
    event: StartupEvent,
    first: spec_fn(u32) -> Attachment,
    now: spec_fn(u32) -> Attachment,
    after: spec_fn(u32) -> Attachment,
)
    requires
        m.well_formed(),
        m.at >= 0,
        m.awaits(event),
        ascending(m.wanted),
        forall|x: u32| (#[trigger] first(x)).left_behind(),
        progress(m, first, now, false),
        carried_out(now, m.planned(), event, after),
    ensures
        progress(
            m.next(event),
            first,
            after,
            m.stage is Restore && event == StartupEvent::Failed,
        ),
{
    let n = m.next(event);
    let x = m.wanted[m.at];
    assert(subject(m.planned()) == Some(x));
    assert(m.wanted.contains(x));
    assert(first(x).left_behind());
    assert(after(x) == handled(now(x), m.planned(), event));
    assert forall|j: int| 0 <= j < m.wanted.len() && j != m.at implies #[trigger] after(
        m.wanted[j],
    ) == now(m.wanted[j]) by {
        assert(m.wanted[j] != x);
    }
    assert forall|y: u32| !m.wanted.contains(y) implies #[trigger] after(y) == first(y) by {
        assert(now(y) == first(y));
    }
    if n.at == m.at + 1 {
        assert(after(x) == Attachment::renewed());
    }
}

proof fn lemma_progress(
    states: Seq<StartupModel>,
    events: Seq<StartupEvent>,
    kernel: Seq<spec_fn(u32) -> Attachment>,
    links: Set<u32>,
    n: int,
)
    requires
        hands_over(states, events, kernel, links),
        0 <= n <= events.len(),
    ensures
        states[n].well_formed(),
        0 <= states[n].at <= states[n].wanted.len(),
        states[n].wanted == states[0].wanted,
        states[n].stage is Finished ==> states[n].at == states[n].wanted.len(),
        exists|lost: bool| #[trigger]
            progress(states[n], kernel[0], kernel[n], lost) && (lost ==> n > 0 && loses_link(
                states,
                events,
                n - 1,
            )),
    decreases n,
{
    if n == 0 {
        assert(progress(states[0], kernel[0], kernel[0], false));
    } else {
        lemma_progress(states, events, kernel, links, n - 1);
        let m = states[n - 1];
        assert(m.awaits(events[n - 1]));
        assert(states[n] == m.next(events[n - 1]));
        assert(carried_out_at(states, events, kernel, n - 1));
        let lost = choose|lost: bool| #[trigger]
            progress(m, kernel[0], kernel[n - 1], lost) && (lost ==> n - 1 > 0 && loses_link(
                states,
                events,
                n - 2,
            ));
        lemma_progress_step(m, events[n - 1], kernel[0], kernel[n - 1], kernel[n]);
        assert(progress(
            states[n],
            kernel[0],
            kernel[n],
            loses_link(states, events, n - 1),
        ));
    }
}

/// An interface that an earlier run filtered is filtered at every point of a start, and once the
/// start is over, be it by a failure, a link to it is pinned: unless the old link had to be
/// pinned again and could not be.
pub proof fn law_filtered_interfaces_stay_filtered(
    states: Seq<StartupModel>,
    events: Seq<StartupEvent>,
    kernel: Seq<spec_fn(u32) -> Attachment>,
    links: Set<u32>,
    ifindex: u32,
)
    requires
        hands_over(states, events, kernel, links),
        kernel[0](ifindex).is_filtered(),
        events.len() > 0 ==> !loses_link(states, events, events.len() - 1),
    ensures
        kernel.last()(ifindex).is_filtered(),
        states.last().is_over() ==> kernel.last()(ifindex).pinned,
{
    let n = events.len() as int;
    lemma_progress(states, events, kernel, links, n);
    let m = states[n];
    let lost = choose|lost: bool| #[trigger]
        progress(m, kernel[0], kernel[n], lost) && (lost ==> n > 0 && loses_link(
            states,
            events,
            n - 1,
        ));
    assert(!lost);
    assert(kernel[0](ifindex).left_behind());
    if m.wanted.contains(ifindex) {
        let j = choose|j: int| 0 <= j < m.wanted.len() && m.wanted[j] == ifindex;
        if j < m.at {
            assert(kernel[n](m.wanted[j]) == Attachment::renewed());
        } else if j > m.at {
            assert(kernel[n](m.wanted[j]) == kernel[0](m.wanted[j]));
        }
    } else {
        assert(kernel[n](ifindex) == kernel[0](ifindex));
    }
}

/// A start that finishes leaves each interface that was asked for with a new link that is
/// pinned, and no other interface changed.
pub proof fn law_finished_start_renews_links(
    states: Seq<StartupModel>,
    events: Seq<StartupEvent>,
    kernel: Seq<spec_fn(u32) -> Attachment>,
    links: Set<u32>,
    ifindex: u32,
)
    requires
        hands_over(states, events, kernel, links),
        states.last().stage is Finished,
    ensures
        kernel.last()(ifindex) == if states[0].wanted.contains(ifindex) {
            Attachment::renewed()
        } else {
            kernel[0](ifindex)
        },
{
    let n = events.len() as int;
    lemma_progress(states, events, kernel, links, n);
    let m = states[n];
    if m.wanted.contains(ifindex) {
        let j = choose|j: int| 0 <= j < m.wanted.len() && m.wanted[j] == ifindex;
        assert(kernel[n](m.wanted[j]) == Attachment::renewed());
    } else {
        assert(kernel[n](ifindex) == kernel[0](ifindex));
    }
}

/// The files in the directory for links that are left of `names` once the stale ones are
/// unpinned.
pub open spec fn fresh_names(names: Seq<Seq<char>>, interfaces: Set<u32>) -> Set<Seq<char>> {
    names.to_set().difference(stale_names(names, interfaces).to_set())
}

/// Whether `name` is that of the pin of a link: the index of an interface, as it is written.
pub open spec fn is_pin_name(name: Seq<char>) -> bool {
    spelled_u32(name) matches Some(ifindex) && name == decimal(ifindex as nat)
}

/// Whether the file `name` is in the directory for links, where the kernel knows `kernel` of the
/// interfaces and `others` are files that are no pins.
pub open spec fn is_present(
    name: Seq<char>,
    kernel: spec_fn(u32) -> Attachment,
    others: Set<Seq<char>>,
) -> bool {
    if is_pin_name(name) {
        kernel(spelled_u32(name)->0).pinned
    } else {
        others.contains(name)
    }
}

/// The files that are unpinned are those that are stale.
proof fn lemma_fresh_names(names: Seq<Seq<char>>, interfaces: Set<u32>, name: Seq<char>)
    ensures
        fresh_names(names, interfaces).contains(name) <==> names.contains(name) && !is_stale(
            name,
            interfaces,
        ),
{
    broadcast use vstd::seq_lib::group_filter_ensures;

    let stale = |n: Seq<char>| is_stale(n, interfaces);
    if names.contains(name) && is_stale(name, interfaces) {
        let i = choose|i: int| 0 <= i < names.len() && names[i] == name;
        assert(stale(names[i]));
        assert(names.filter(stale).contains(names[i]));
    }
    if names.filter(stale).contains(name) {
        let i = choose|i: int| 0 <= i < names.filter(stale).len() && names.filter(stale)[i] == name;
        assert(stale(names.filter(stale)[i]));
    }
}

/// Once the links are activated, each file in the directory for links whose name is a number
/// belongs to an interface that was asked for, each such interface has its pin there, and files
/// that are no numbers stay as they were found.
pub proof fn law_activation_leaves_no_stale_pin(
    states: Seq<StartupModel>,
    events: Seq<StartupEvent>,
    kernel: Seq<spec_fn(u32) -> Attachment>,
    links: Set<u32>,
    names: Seq<Seq<char>>,
    name: Seq<char>,
)
    requires
        hands_over(states, events, kernel, links),
        states.last().stage is Finished,
        forall|n: Seq<char>| #[trigger]
            fresh_names(names, states[0].wanted.to_set()).contains(n) == is_present(
                n,
                kernel[0],
                fresh_names(names, states[0].wanted.to_set()),
            ),
    ensures
        ({
            let interfaces = states[0].wanted.to_set();
            let present = is_present(name, kernel.last(), fresh_names(names, interfaces));
            &&& present ==> !is_stale(name, interfaces)
            &&& is_pin_name(name) && interfaces.contains(spelled_u32(name)->0) ==> present
            &&& spelled_u32(name) is None ==> (present <==> names.contains(name))
        }),
{
    let interfaces = states[0].wanted.to_set();
    let fresh = fresh_names(names, interfaces);
    lemma_fresh_names(names, interfaces, name);
    assert(fresh.contains(name) == is_present(name, kernel[0], fresh));
    if is_pin_name(name) {
        let ifindex = spelled_u32(name)->0;
        law_finished_start_renews_links(states, events, kernel, links, ifindex);
    }
}

} // verus!
