//! What bringing links in line does, action by action.

use crate::links::{
    reconciles, LinkAction, LinkFailure, ReconcileModel, ReconcileStage, StartupEvent,
    StartupModel, StartupStage,
};
use vstd::prelude::*;

verus! {

/// Whether `states` is what a reconciliation goes through on the outcomes `oks`, where the links
/// `obsolete` are to be removed from `links` and links to the interfaces `missing` to be added.
pub open spec fn runs(
    states: Seq<ReconcileModel>,
    oks: Seq<bool>,
    links: Set<u32>,
    obsolete: Seq<u32>,
    missing: Seq<u32>,
) -> bool {
    &&& states.len() == oks.len() + 1
    &&& states[0] == ReconcileModel::initial(links, obsolete, missing)
    &&& missing.len() <= usize::MAX
    &&& forall|i: int| 0 <= i < oks.len() ==> states[i + 1] == states[i].next(#[trigger] oks[i])
}

/// Where a reconciliation stands once the first `k` obsolete links are unpinned.
proof fn lemma_unpinning(
    states: Seq<ReconcileModel>,
    oks: Seq<bool>,
    links: Set<u32>,
    obsolete: Seq<u32>,
    missing: Seq<u32>,
    k: int,
)
    requires
        runs(states, oks, links, obsolete, missing),
        0 <= k <= obsolete.len(),
        k <= oks.len(),
        forall|i: int| 0 <= i < k ==> #[trigger] oks[i],
    ensures
        states[k].obsolete == obsolete,
        states[k].missing == missing,
        k < obsolete.len() ==> states[k].stage == ReconcileStage::Unpin && states[k].at == k,
        k == obsolete.len() ==> states[k].at == 0 && states[k].stage == if missing.len() > 0 {
            ReconcileStage::Attach
        } else {
            ReconcileStage::Finished
        },
        forall|x: u32| #[trigger]
            states[k].links.contains(x) <==> links.contains(x) && !obsolete.take(k).contains(x),
    decreases k,
{
    if k == 0 {
        assert(obsolete.take(0) =~= Seq::<u32>::empty());
    } else {
        lemma_unpinning(states, oks, links, obsolete, missing, k - 1);
        assert(oks[k - 1]);
        assert(states[k] == states[k - 1].next(oks[k - 1]));
        lemma_take_contains(obsolete, k - 1);
    }
}

/// Taking one more element adds it to what is contained.
proof fn lemma_take_contains(s: Seq<u32>, n: int)
    requires
        0 <= n < s.len(),
    ensures
        forall|x: u32| #[trigger] s.take(n + 1).contains(x) <==> s.take(n).contains(x) || x == s[n],
{
    assert forall|x: u32| #[trigger] s.take(n + 1).contains(x) <==> s.take(n).contains(x) || x
        == s[n] by {
        let (less, more) = (s.take(n), s.take(n + 1));
        if more.contains(x) {
            let i = choose|i: int| 0 <= i < more.len() && more[i] == x;
            if i < n {
                assert(less[i] == x);
            }
        }
        if less.contains(x) {
            let i = choose|i: int| 0 <= i < less.len() && less[i] == x;
            assert(more[i] == x);
        }
        assert(more[n] == s[n]);
    }
}

/// Where a reconciliation stands once links to the first `k` missing interfaces are pinned.
proof fn lemma_attaching(
    states: Seq<ReconcileModel>,
    oks: Seq<bool>,
    links: Set<u32>,
    obsolete: Seq<u32>,
    missing: Seq<u32>,
    k: int,
)
    requires
        runs(states, oks, links, obsolete, missing),
        0 <= k <= missing.len(),
        obsolete.len() + 2 * k <= oks.len(),
        forall|i: int| 0 <= i < obsolete.len() + 2 * k ==> #[trigger] oks[i],
    ensures
        states[obsolete.len() + 2 * k].obsolete == obsolete,
        states[obsolete.len() + 2 * k].missing == missing,
        states[obsolete.len() + 2 * k].at == k,
        states[obsolete.len() + 2 * k].stage == if k < missing.len() {
            ReconcileStage::Attach
        } else {
            ReconcileStage::Finished
        },
        forall|x: u32| #[trigger]
            states[obsolete.len() + 2 * k].links.contains(x) <==> (links.contains(x)
                && !obsolete.contains(x)) || missing.take(k).contains(x),
        k > 0 ==> states[obsolete.len() + 2 * k - 2].planned() == LinkAction::Attach(missing[k - 1])
            && states[obsolete.len() + 2 * k - 1].planned() == LinkAction::Pin(missing[k - 1]),
    decreases k,
{
    let o = obsolete.len() as int;
    if k == 0 {
        lemma_unpinning(states, oks, links, obsolete, missing, o);
        assert(obsolete.take(o) =~= obsolete);
        assert(missing.take(0) =~= Seq::<u32>::empty());
    } else {
        lemma_attaching(states, oks, links, obsolete, missing, k - 1);
        let at = o + 2 * (k - 1);
        assert(oks[at] && oks[at + 1]);
        assert(states[at + 1] == states[at].next(oks[at]));
        assert(states[at + 2] == states[at + 1].next(oks[at + 1]));
        lemma_take_contains(missing, k - 1);
    }
}

/// A reconciliation in which nothing fails: each obsolete link is unpinned, then the program is
/// attached to each missing interface and the new link pinned, all in order. The links are then
/// those kept and the new ones, and the interfaces that exist are adopted once the obsolete links
/// are gone.
pub proof fn law_reconciliation_that_goes_through(
    states: Seq<ReconcileModel>,
    oks: Seq<bool>,
    links: Set<u32>,
    obsolete: Seq<u32>,
    missing: Seq<u32>,
    i: int,
    j: int,
)
    requires
        runs(states, oks, links, obsolete, missing),
        forall|i: int| 0 <= i < oks.len() ==> #[trigger] oks[i],
        oks.len() == obsolete.len() + 2 * missing.len(),
    ensures
        0 <= i < obsolete.len() ==> states[i].planned() == LinkAction::Unpin(obsolete[i])
            && !states[i].adopts(),
        0 <= j < missing.len() ==> {
            &&& states[obsolete.len() + 2 * j].planned() == LinkAction::Attach(missing[j])
            &&& states[obsolete.len() + 2 * j + 1].planned() == LinkAction::Pin(missing[j])
            &&& states[obsolete.len() + 2 * j].adopts()
        },
        states.last().planned() == LinkAction::Finish,
        states.last().adopts(),
        forall|x: u32| #[trigger]
            states.last().links.contains(x) <==> (links.contains(x) && !obsolete.contains(x))
                || missing.contains(x),
{
    let o = obsolete.len() as int;
    let m = missing.len() as int;
    if 0 <= i < o {
        lemma_unpinning(states, oks, links, obsolete, missing, i);
    }
    if 0 <= j < m {
        lemma_attaching(states, oks, links, obsolete, missing, j);
        lemma_attaching(states, oks, links, obsolete, missing, j + 1);
    }
    lemma_attaching(states, oks, links, obsolete, missing, m);
    assert(missing.take(m) =~= missing);
}

/// A reconciliation in which an obsolete link cannot be unpinned fails for that link at once. It
/// and those before it are given up, and the interfaces that exist are not adopted.
pub proof fn law_reconciliation_that_cannot_unpin(
    states: Seq<ReconcileModel>,
    oks: Seq<bool>,
    links: Set<u32>,
    obsolete: Seq<u32>,
    missing: Seq<u32>,
    k: int,
)
    requires
        runs(states, oks, links, obsolete, missing),
        0 <= k < obsolete.len(),
        oks.len() == k + 1,
        forall|i: int| 0 <= i < k ==> #[trigger] oks[i],
        !oks[k],
    ensures
        states.last().planned() == LinkAction::Fail(LinkFailure::Unpin(obsolete[k])),
        !states.last().adopts(),
        forall|x: u32| #[trigger]
            states.last().links.contains(x) <==> links.contains(x) && !obsolete.take(k + 1).contains(
                x,
            ),
{
    lemma_unpinning(states, oks, links, obsolete, missing, k);
    assert(states[k + 1] == states[k].next(oks[k]));
    lemma_take_contains(obsolete, k);
}

/// Where a reconciliation stands while the first `k` links that it added are taken back.
proof fn lemma_rollback(
    states: Seq<ReconcileModel>,
    oks: Seq<bool>,
    links: Set<u32>,
    obsolete: Seq<u32>,
    missing: Seq<u32>,
    k: int,
    done: int,
)
    requires
        runs(states, oks, links, obsolete, missing),
        0 <= k < missing.len(),
        oks.len() == obsolete.len() + 3 * k + 1,
        forall|i: int| 0 <= i < obsolete.len() + 2 * k ==> #[trigger] oks[i],
        !oks[obsolete.len() + 2 * k],
        0 <= done <= k,
    ensures
        states[obsolete.len() + 2 * k + 1 + done].missing == missing,
        states[obsolete.len() + 2 * k + 1 + done].adopts(),
        states[obsolete.len() + 2 * k + 1 + done].planned() == if done < k {
            LinkAction::Unpin(missing[done])
        } else {
            LinkAction::Fail(LinkFailure::Attach(missing[k]))
        },
        done < k ==> states[obsolete.len() + 2 * k + 1 + done].at == done && states[obsolete.len()
            + 2 * k + 1 + done].stage == (ReconcileStage::Rollback {
            upto: k as usize,
            failed: missing[k],
        }),
        forall|x: u32| #[trigger]
            states[obsolete.len() + 2 * k + 1 + done].links.contains(x) <==> ((links.contains(x)
                && !obsolete.contains(x)) || missing.take(k).contains(x)) && !missing.take(
                done,
            ).contains(x),
    decreases done,
{
    let start = obsolete.len() + 2 * k;
    if done == 0 {
        lemma_attaching(states, oks, links, obsolete, missing, k);
        assert(states[start + 1] == states[start].next(oks[start]));
        assert(missing.take(0) =~= Seq::<u32>::empty());
    } else {
        lemma_rollback(states, oks, links, obsolete, missing, k, done - 1);
        let at = start + done;
        assert(states[at + 1] == states[at].next(oks[at]));
        lemma_take_contains(missing, done - 1);
    }
}

/// A reconciliation in which the program cannot be attached to a missing interface: the links that
/// were added before are unpinned again, in order, whether that works or not, and it fails for
/// that interface. The links kept are left.
pub proof fn law_reconciliation_that_cannot_attach(
    states: Seq<ReconcileModel>,
    oks: Seq<bool>,
    links: Set<u32>,
    obsolete: Seq<u32>,
    missing: Seq<u32>,
    k: int,
    i: int,
)
    requires
        runs(states, oks, links, obsolete, missing),
        forall|x: u32| #[trigger] missing.contains(x) ==> !links.contains(x),
        0 <= k < missing.len(),
        oks.len() == obsolete.len() + 3 * k + 1,
        forall|i: int| 0 <= i < obsolete.len() + 2 * k ==> #[trigger] oks[i],
        !oks[obsolete.len() + 2 * k],
    ensures
        0 <= i < k ==> states[obsolete.len() + 2 * k + 1 + i].planned() == LinkAction::Unpin(
            missing[i],
        ),
        states.last().planned() == LinkAction::Fail(LinkFailure::Attach(missing[k])),
        states.last().adopts(),
        forall|x: u32| #[trigger]
            states.last().links.contains(x) <==> links.contains(x) && !obsolete.contains(x),
{
    if 0 <= i < k {
        lemma_rollback(states, oks, links, obsolete, missing, k, i);
    }
    lemma_rollback(states, oks, links, obsolete, missing, k, k);
    let end = states[obsolete.len() + 2 * k + 1 + k];
    assert(states.last() == end);
    assert forall|x: u32| #[trigger] end.links.contains(x) <==> links.contains(x)
        && !obsolete.contains(x) by {
        let added = missing.take(k);
        if added.contains(x) {
            let n = choose|n: int| 0 <= n < added.len() && added[n] == x;
            assert(missing[n] == x);
            assert(missing.contains(x));
        }
    }
}

/// A reconciliation in which a new link cannot be pinned fails for that interface at once. The
/// links kept and those added before are left.
pub proof fn law_reconciliation_that_cannot_pin(
    states: Seq<ReconcileModel>,
    oks: Seq<bool>,
    links: Set<u32>,
    obsolete: Seq<u32>,
    missing: Seq<u32>,
    k: int,
)
    requires
        runs(states, oks, links, obsolete, missing),
        0 <= k < missing.len(),
        oks.len() == obsolete.len() + 2 * k + 2,
        forall|i: int| 0 <= i < obsolete.len() + 2 * k + 1 ==> #[trigger] oks[i],
        !oks[obsolete.len() + 2 * k + 1],
    ensures
        states.last().planned() == LinkAction::Fail(LinkFailure::Pin(missing[k])),
        states.last().adopts(),
        forall|x: u32| #[trigger]
            states.last().links.contains(x) <==> (links.contains(x) && !obsolete.contains(x))
                || missing.take(k).contains(x),
{
    let at = obsolete.len() + 2 * k;
    lemma_attaching(states, oks, links, obsolete, missing, k);
    assert(states[at + 1] == states[at].next(oks[at]));
    assert(states[at + 2] == states[at + 1].next(oks[at + 1]));
}

/// Whether the links that are pinned in the kernel go from `before` to `after` when `action` is
/// carried out with the outcome `ok`.
pub open spec fn pins_change(
    before: Set<u32>,
    action: LinkAction,
    ok: bool,
    after: Set<u32>,
) -> bool {
    after == match action {
        LinkAction::Unpin(x) if ok => before.remove(x),
        LinkAction::Pin(x) if ok => before.insert(x),
        _ => before,
    }
}

/// Whether the step at place `i` of a reconciliation changes what is pinned as its action says.
pub open spec fn pins_change_at(
    states: Seq<ReconcileModel>,
    oks: Seq<bool>,
    kernel: Seq<Set<u32>>,
    i: int,
) -> bool {
    pins_change(kernel[i], states[i].planned(), oks[i], kernel[i + 1])
}

/// What holds of the links in the kernel during a reconciliation.
proof fn lemma_kernel(
    states: Seq<ReconcileModel>,
    oks: Seq<bool>,
    kernel: Seq<Set<u32>>,
    links: Set<u32>,
    current: Set<u32>,
    n: int,
)
    requires
        reconciles(states, oks, links, current),
        states[0].missing.len() <= usize::MAX,
        kernel.len() == states.len(),
        kernel[0] == links,
        forall|i: int| 0 <= i < oks.len() ==> #[trigger] pins_change_at(states, oks, kernel, i),
        0 <= n <= oks.len(),
    ensures
        links.intersect(current).subset_of(kernel[n]),
        !(states[n].stage is Failed) && !(states[n].stage is Rollback) ==> kernel[n]
            == states[n].links,
    decreases n,
{
    if n > 0 {
        lemma_kernel(states, oks, kernel, links, current, n - 1);
        crate::links::lemma_reconcile_run(states, oks, links, current, n - 1);
        let m = states[n - 1];
        assert(!m.is_over());
        assert(states[n] == m.next(oks[n - 1]));
        assert(pins_change_at(states, oks, kernel, n - 1));
        if let LinkAction::Unpin(x) = m.planned() {
            if m.stage is Unpin {
                assert(m.obsolete.to_set().contains(x));
            } else {
                assert(m.missing.to_set().contains(x));
            }
            assert(!links.intersect(current).contains(x));
        }
    }
}

/// What is pinned in the kernel follows the actions of a reconciliation: one that finishes leaves
/// a pinned link for each interface that exists and for no other, and at no time, whatever fails,
/// is the link of an interface that still exists unpinned.
pub proof fn law_pinned_links_follow_the_actions(
    states: Seq<ReconcileModel>,
    oks: Seq<bool>,
    kernel: Seq<Set<u32>>,
    links: Set<u32>,
    current: Set<u32>,
)
    requires
        reconciles(states, oks, links, current),
        states[0].missing.len() <= usize::MAX,
        kernel.len() == states.len(),
        kernel[0] == links,
        forall|i: int| 0 <= i < oks.len() ==> #[trigger] pins_change_at(states, oks, kernel, i),
    ensures
        states.last().planned() == LinkAction::Finish ==> kernel.last() == current,
        links.intersect(current).subset_of(kernel.last()),
{
    lemma_kernel(states, oks, kernel, links, current, oks.len() as int);
    crate::links::law_reconciled_links(states, oks, links, current);
}

/// What a start does for one interface, from finding out about its pin to the pin of its new link.
/// A pin that is there is opened, the program attached, the pin removed and the new link pinned in
/// its place. Without a pin, the program is attached and the link pinned. Then the next interface
/// has its turn. A step that fails has the start fail for it; if it is the pinning of a link in
/// the place of an old one, the old one is pinned again first.
pub proof fn law_start_of_one_interface(
    m: StartupModel,
    any: StartupEvent,
)
    requires
        m.stage == StartupStage::Probe,
        0 <= m.at < m.wanted.len(),
    ensures
        ({
            let x = m.wanted[m.at];
            let found = m.next(StartupEvent::Done);
            let absent = m.next(StartupEvent::Absent);
            let replacing = found.next(StartupEvent::Done);
            let released = replacing.next(StartupEvent::Done);
            let adding = absent.next(StartupEvent::Done);
            let unpinned = released.next(StartupEvent::Failed);
            &&& m.planned() == LinkAction::Probe(x)
            &&& m.next(StartupEvent::Failed).planned() == LinkAction::Fail(LinkFailure::Probe(x))
            &&& found.planned() == LinkAction::Attach(x)
            &&& absent.planned() == LinkAction::Attach(x)
            &&& found.next(StartupEvent::Failed).planned() == LinkAction::Fail(
                LinkFailure::Attach(x),
            )
            &&& absent.next(StartupEvent::Failed).planned() == LinkAction::Fail(
                LinkFailure::Attach(x),
            )
            &&& replacing.planned() == LinkAction::Release(x)
            &&& replacing.next(StartupEvent::Failed).planned() == LinkAction::Fail(
                LinkFailure::Unpin(x),
            )
            &&& released.planned() == LinkAction::Pin(x)
            &&& adding.planned() == LinkAction::Pin(x)
            &&& adding.next(StartupEvent::Failed).planned() == LinkAction::Fail(LinkFailure::Pin(x))
            &&& unpinned.planned() == LinkAction::Restore(x)
            &&& unpinned.next(any).planned() == LinkAction::Fail(LinkFailure::Pin(x))
            &&& unpinned.next(any).links == m.links
            &&& adding.next(StartupEvent::Failed).links == m.links
            &&& replacing.next(StartupEvent::Failed).links == m.links
            &&& released.next(StartupEvent::Done) == adding.next(StartupEvent::Done)
            &&& adding.next(StartupEvent::Done) == (StartupModel {
                links: m.links.insert(x),
                wanted: m.wanted,
                at: m.at + 1,
                stage: if m.at + 1 < m.wanted.len() {
                    StartupStage::Probe
                } else {
                    StartupStage::Finished
                },
            })
            &&& m.at + 1 == m.wanted.len() ==> adding.next(StartupEvent::Done).planned()
                == LinkAction::Finish
        }),
{
}

/// A start begins with the first interface, and is finished at once if there is none.
pub proof fn law_start_begins(links: Set<u32>, wanted: Seq<u32>)
    ensures
        StartupModel::initial(links, wanted).links == links,
        StartupModel::initial(links, wanted).wanted == wanted,
        StartupModel::initial(links, wanted).at == 0,
        wanted.len() > 0 ==> StartupModel::initial(links, wanted).stage == StartupStage::Probe,
        wanted.len() == 0 ==> StartupModel::initial(links, wanted).planned() == LinkAction::Finish,
{
}

} // verus!
