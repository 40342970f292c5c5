//! The links by which the TC program is attached to interfaces.
//!
//! An interface is known by its index. [`Startup`] replaces the links that an earlier run left
//! behind, [`Reconcile`] brings the links back in line with the interfaces that exist.

use crate::interfaces::texts;
use crate::text::{chars_of, parse_u32, spelled_u32};
use std::collections::{BTreeMap, BTreeSet};
use vstd::prelude::*;
use vstd::std_specs::btree::{
    group_btree_axioms, increasing_seq, spec_btree_keys_iter, spec_keys_iter,
};
use vstd::std_specs::cmp::OrdSpec;
use vstd::std_specs::iter::IteratorSpec;

verus! {

/// Whether numbers stand in strictly increasing order.
pub open spec fn ascending(s: Seq<u32>) -> bool {
    forall|i: int, j: int| 0 <= i < j < s.len() ==> s[i] < s[j]
}

proof fn lemma_ascending(s: Seq<&u32>)
    requires
        increasing_seq(s),
    ensures
        ascending(s.unref()),
{
    broadcast use group_btree_axioms;

    assert(vstd::laws_cmp::obeys_cmp::<&u32>());
    assert forall|i: int, j: int| 0 <= i < j < s.len() implies s.unref()[i] < s.unref()[j] by {
        assert(OrdSpec::cmp_spec(&s[i], &s[j]) is Less);
    }
}

/// Taking one more element of a sequence adds it to the set of those taken.
proof fn lemma_take_to_set(s: Seq<u32>, n: int)
    requires
        0 <= n < s.len(),
    ensures
        s.take(n + 1).to_set() == s.take(n).to_set().insert(s[n]),
{
    assert(s.take(n + 1) =~= s.take(n).push(s[n]));
    crate::interfaces::lemma_push_to_set(s.take(n), s[n]);
}

/// The keys of `map`, in increasing order.
fn keys_of(map: &BTreeMap<u32, String>) -> (r: Vec<u32>)
    ensures
        ascending(r@),
        r@.to_set() == map@.dom(),
{
    let ghost all = IteratorSpec::remaining(&spec_keys_iter(map));
    let mut r: Vec<u32> = Vec::new();
    for k in it: map.keys()
        invariant
            it.seq() == all,
            r@ == all.unref().take(it.index()),
    {
        r.push(*k);
        assert(all.unref().take(it.index() + 1) =~= r@);
    }
    proof {
        broadcast use group_btree_axioms;

        assert(all.unref().take(all.len() as int) =~= all.unref());
        lemma_ascending(all);
    }
    r
}

/// The elements of `set`, in increasing order.
pub fn elements_of(set: &BTreeSet<u32>) -> (r: Vec<u32>)
    ensures
        ascending(r@),
        r@.to_set() == set@,
        forall|i: int, j: int| 0 <= i < j < r@.len() ==> r@[i] < r@[j],
{
    let ghost all = IteratorSpec::remaining(&spec_btree_keys_iter(set));
    let mut r: Vec<u32> = Vec::new();
    for k in it: set.iter()
        invariant
            it.seq() == all,
            r@ == all.unref().take(it.index()),
    {
        r.push(*k);
        assert(all.unref().take(it.index() + 1) =~= r@);
    }
    proof {
        broadcast use group_btree_axioms;

        assert(all.unref().take(all.len() as int) =~= all.unref());
        lemma_ascending(all);
    }
    r
}

/// The links whose interface is not among `current`, in increasing order.
fn obsolete_links(links: &BTreeSet<u32>, current: &BTreeMap<u32, String>) -> (r: Vec<u32>)
    ensures
        ascending(r@),
        r@.to_set() == links@.difference(current@.dom()),
{
    let all = elements_of(links);
    let mut r: Vec<u32> = Vec::new();
    let mut i: usize = 0;
    assert(r@.to_set() =~= all@.take(0).to_set().difference(current@.dom()));
    while i < all.len()
        invariant
            i <= all.len(),
            ascending(all@),
            ascending(r@),
            forall|a: int, b: int| 0 <= a < r@.len() && i <= b < all@.len() ==> r@[a] < all@[b],
            r@.to_set() == all@.take(i as int).to_set().difference(current@.dom()),
        decreases all.len() - i,
    {
        let ghost before = r@;
        if !current.contains_key(&all[i]) {
            r.push(all[i]);
            proof {
                crate::interfaces::lemma_push_to_set(before, all@[i as int]);
            }
        }
        proof {
            lemma_take_to_set(all@, i as int);
            assert(r@.to_set() =~= all@.take(i + 1).to_set().difference(current@.dom()));
        }
        i = i + 1;
    }
    assert(all@.take(all.len() as int) =~= all@);
    r
}

/// The interfaces among `current` that have no link, in increasing order.
fn missing_links(current: &BTreeMap<u32, String>, links: &BTreeSet<u32>) -> (r: Vec<u32>)
    ensures
        ascending(r@),
        r@.to_set() == current@.dom().difference(links@),
{
    let all = keys_of(current);
    let mut r: Vec<u32> = Vec::new();
    let mut i: usize = 0;
    assert(r@.to_set() =~= all@.take(0).to_set().difference(links@));
    while i < all.len()
        invariant
            i <= all.len(),
            ascending(all@),
            ascending(r@),
            forall|a: int, b: int| 0 <= a < r@.len() && i <= b < all@.len() ==> r@[a] < all@[b],
            r@.to_set() == all@.take(i as int).to_set().difference(links@),
        decreases all.len() - i,
    {
        let ghost before = r@;
        if !links.contains(&all[i]) {
            r.push(all[i]);
            proof {
                crate::interfaces::lemma_push_to_set(before, all@[i as int]);
            }
        }
        proof {
            lemma_take_to_set(all@, i as int);
            assert(r@.to_set() =~= all@.take(i + 1).to_set().difference(links@));
        }
        i = i + 1;
    }
    assert(all@.take(all.len() as int) =~= all@);
    r
}

/// Whether a file in the link directory is a link to an interface that is not among
/// `interfaces`: its name is the index of the interface.
pub open spec fn is_stale(name: Seq<char>, interfaces: Set<u32>) -> bool {
    spelled_u32(name) matches Some(ifindex) && !interfaces.contains(ifindex)
}

/// Those of `names` that are links to interfaces not among `interfaces`, in order.
pub open spec fn stale_names(names: Seq<Seq<char>>, interfaces: Set<u32>) -> Seq<Seq<char>> {
    names.filter(|name: Seq<char>| is_stale(name, interfaces))
}

/// Whether a file in the link directory is a link to an interface that is not among
/// `interfaces`.
pub fn is_stale_pin(name: &str, interfaces: &BTreeMap<u32, String>) -> (r: bool)
    ensures
        r == is_stale(name@, interfaces@.dom()),
        r == (spelled_u32(name@) matches Some(ifindex) && !interfaces@.contains_key(ifindex)),
{
    match parse_u32(&chars_of(name)) {
        Some(ifindex) => !interfaces.contains_key(&ifindex),
        None => false,
    }
}

/// Those of the files `names` in the link directory that are links to interfaces not among
/// `interfaces`, in order.
pub fn stale_pins(names: &Vec<String>, interfaces: &BTreeMap<u32, String>) -> (r: Vec<String>)
    ensures
        texts(r@) == stale_names(texts(names@), interfaces@.dom()),
        texts(r@) == texts(names@).filter(
            |name: Seq<char>|
                spelled_u32(name) matches Some(ifindex) && !interfaces@.contains_key(ifindex),
        ),
{
    assert((|name: Seq<char>| is_stale(name, interfaces@.dom())) =~= (|name: Seq<char>|
        spelled_u32(name) matches Some(ifindex) && !interfaces@.contains_key(ifindex)));
    let ghost all = texts(names@);
    let ghost wanted = |name: Seq<char>| is_stale(name, interfaces@.dom());
    let mut r: Vec<String> = Vec::new();
    let mut i: usize = 0;
    proof {
        reveal(Seq::filter);
        assert(texts(r@) =~= all.take(0).filter(wanted));
    }
    while i < names.len()
        invariant
            i <= names.len(),
            all == texts(names@),
            wanted == (|name: Seq<char>| is_stale(name, interfaces@.dom())),
            texts(r@) == all.take(i as int).filter(wanted),
        decreases names.len() - i,
    {
        let ghost before = r@;
        if is_stale_pin(names[i].as_str(), interfaces) {
            r.push(names[i].clone());
            assert(texts(r@) =~= texts(before).push(all[i as int]));
        }
        proof {
            reveal(Seq::filter);
            assert(all.take(i + 1).drop_last() =~= all.take(i as int));
            assert(texts(r@) =~= all.take(i + 1).filter(wanted));
        }
        i = i + 1;
    }
    assert(all.take(all.len() as int) =~= all);
    r
}

/// Why links could not be brought in line.
#[derive(Clone, Copy, Debug, PartialEq, Eq, Structural)]
pub enum LinkFailure {
    /// An existing pin could not be opened.
    Probe(u32),
    /// A link could not be unpinned.
    Unpin(u32),
    /// The program could not be attached.
    Attach(u32),
    /// A link could not be pinned.
    Pin(u32),
}

/// What is to be done next about links.
#[derive(Clone, Copy, Debug, PartialEq, Eq, Structural)]
pub enum LinkAction {
    /// Open the pin that the interface has, if it has one.
    Probe(u32),
    /// Attach the program to the interface.
    Attach(u32),
    /// Remove the pin of the interface, and keep the link it stood for.
    Release(u32),
    /// Pin the link that was just attached, and let go of one that was released.
    Pin(u32),
    /// Pin the link that was released again.
    Restore(u32),
    /// Remove the link of the interface and its pin.
    Unpin(u32),
    /// Nothing: the links are in line.
    Finish,
    /// Nothing: the links could not be brought in line.
    Fail(LinkFailure),
}

/// Where [`Reconcile`] stands.
#[derive(Clone, Copy, Debug, PartialEq, Eq, Structural)]
pub enum ReconcileStage {
    /// An obsolete link is being removed.
    Unpin,
    /// The program is being attached to an interface without a link.
    Attach,
    /// The link that was just attached is being pinned.
    Pin,
    /// The first `upto` links that were attached are being removed, as the program could not
    /// be attached to the interface `failed`.
    Rollback { upto: usize, failed: u32 },
    /// The links are in line.
    Finished,
    /// The links could not be brought in line.
    Failed(LinkFailure),
}

/// Bringing the links in line with the interfaces that exist.
#[derive(Debug)]
pub struct Reconcile {
    links: BTreeSet<u32>,
    obsolete: Vec<u32>,
    missing: Vec<u32>,
    at: usize,
    stage: ReconcileStage,
}

/// [`Reconcile`] as a mathematical value.
pub struct ReconcileModel {
    pub links: Set<u32>,
    pub obsolete: Seq<u32>,
    pub missing: Seq<u32>,
    pub at: int,
    pub stage: ReconcileStage,
}

impl View for Reconcile {
    type V = ReconcileModel;

    closed spec fn view(&self) -> ReconcileModel {
        ReconcileModel {
            links: self.links@,
            obsolete: self.obsolete@,
            missing: self.missing@,
            at: self.at as int,
            stage: self.stage,
        }
    }
}

impl ReconcileModel {
    /// Whether the place at which work goes on exists.
    pub open spec fn well_formed(self) -> bool {
        match self.stage {
            ReconcileStage::Unpin => 0 <= self.at < self.obsolete.len(),
            ReconcileStage::Attach => 0 <= self.at < self.missing.len(),
            ReconcileStage::Pin => 0 <= self.at < self.missing.len(),
            ReconcileStage::Rollback { upto, .. } => 0 <= self.at < upto < self.missing.len(),
            _ => true,
        }
    }

    /// Whether the work is over.
    pub open spec fn is_over(self) -> bool {
        self.stage is Finished || self.stage is Failed
    }

    /// Whether the interfaces that exist have taken the place of those known before: once all
    /// obsolete links are gone.
    pub open spec fn adopts(self) -> bool {
        match self.stage {
            ReconcileStage::Unpin => false,
            ReconcileStage::Failed(LinkFailure::Unpin(_)) => false,
            _ => true,
        }
    }

    /// The work on the interface at `at` among those without a link.
    pub open spec fn attaching(self, at: int) -> ReconcileModel {
        ReconcileModel {
            at,
            stage: if at < self.missing.len() {
                ReconcileStage::Attach
            } else {
                ReconcileStage::Finished
            },
            ..self
        }
    }

    /// The work before anything was done.
    pub open spec fn initial(links: Set<u32>, obsolete: Seq<u32>, missing: Seq<u32>) -> Self {
        let idle = ReconcileModel {
            links,
            obsolete,
            missing,
            at: 0,
            stage: ReconcileStage::Unpin,
        };
        if obsolete.len() > 0 {
            idle
        } else {
            idle.attaching(0)
        }
    }

    /// What is to be done next.
    pub open spec fn planned(self) -> LinkAction {
        match self.stage {
            ReconcileStage::Unpin => LinkAction::Unpin(self.obsolete[self.at]),
            ReconcileStage::Attach => LinkAction::Attach(self.missing[self.at]),
            ReconcileStage::Pin => LinkAction::Pin(self.missing[self.at]),
            ReconcileStage::Rollback { .. } => LinkAction::Unpin(self.missing[self.at]),
            ReconcileStage::Finished => LinkAction::Finish,
            ReconcileStage::Failed(f) => LinkAction::Fail(f),
        }
    }

    /// The work after what was to be done succeeded (`ok`) or failed. A link that is to be
    /// removed is given up either way.
    pub open spec fn next(self, ok: bool) -> ReconcileModel {
        match self.stage {
            ReconcileStage::Unpin => {
                let rest = ReconcileModel { links: self.links.remove(self.obsolete[self.at]), ..self };
                if !ok {
                    ReconcileModel {
                        stage: ReconcileStage::Failed(LinkFailure::Unpin(self.obsolete[self.at])),
                        ..rest
                    }
                } else if self.at + 1 < self.obsolete.len() {
                    ReconcileModel { at: self.at + 1, ..rest }
                } else {
                    rest.attaching(0)
                }
            },
            ReconcileStage::Attach => if ok {
                ReconcileModel { stage: ReconcileStage::Pin, ..self }
            } else if self.at > 0 {
                ReconcileModel {
                    at: 0,
                    stage: ReconcileStage::Rollback {
                        upto: self.at as usize,
                        failed: self.missing[self.at],
                    },
                    ..self
                }
            } else {
                ReconcileModel {
                    stage: ReconcileStage::Failed(LinkFailure::Attach(self.missing[self.at])),
                    ..self
                }
            },
            ReconcileStage::Pin => if ok {
                ReconcileModel {
                    links: self.links.insert(self.missing[self.at]),
                    ..self.attaching(self.at + 1)
                }
            } else {
                ReconcileModel {
                    stage: ReconcileStage::Failed(LinkFailure::Pin(self.missing[self.at])),
                    ..self
                }
            },
            ReconcileStage::Rollback { upto, failed } => {
                let rest = ReconcileModel {
                    links: self.links.remove(self.missing[self.at]),
                    at: self.at + 1,
                    ..self
                };
                if self.at + 1 < upto {
                    rest
                } else {
                    ReconcileModel {
                        stage: ReconcileStage::Failed(LinkFailure::Attach(failed)),
                        ..rest
                    }
                }
            },
            _ => self,
        }
    }
}

impl Reconcile {
    /// Starts to bring `links` in line with the interfaces `current`.
    pub fn start(links: &BTreeSet<u32>, current: &BTreeMap<u32, String>) -> (r: Reconcile)
        ensures
            r@ == ReconcileModel::initial(links@, r@.obsolete, r@.missing),
            r@.well_formed(),
            ascending(r@.obsolete),
            r@.obsolete.to_set() == links@.difference(current@.dom()),
            ascending(r@.missing),
            r@.missing.to_set() == current@.dom().difference(links@),
            r@.links == links@,
            forall|i: int, j: int|
                0 <= i < j < r@.obsolete.len() ==> r@.obsolete[i] < r@.obsolete[j],
            forall|i: int, j: int| 0 <= i < j < r@.missing.len() ==> r@.missing[i] < r@.missing[j],
            forall|x: u32| #[trigger]
                r@.obsolete.contains(x) <==> links@.contains(x) && !current@.contains_key(x),
            forall|x: u32| #[trigger]
                r@.missing.contains(x) <==> current@.contains_key(x) && !links@.contains(x),
    {
        let obsolete = obsolete_links(links, current);
        let missing = missing_links(current, links);
        let stage = if obsolete.len() > 0 {
            ReconcileStage::Unpin
        } else if missing.len() > 0 {
            ReconcileStage::Attach
        } else {
            ReconcileStage::Finished
        };
        proof {
            assert forall|x: u32| #[trigger] obsolete@.contains(x) <==> links@.contains(x)
                && !current@.contains_key(x) by {
                assert(obsolete@.to_set().contains(x) == links@.difference(
                    current@.dom(),
                ).contains(x));
            }
            assert forall|x: u32| #[trigger] missing@.contains(x) <==> current@.contains_key(x)
                && !links@.contains(x) by {
                assert(missing@.to_set().contains(x) == current@.dom().difference(links@).contains(
                    x,
                ));
            }
        }
        Reconcile { links: links.clone(), obsolete, missing, at: 0, stage }
    }

    /// What is to be done next.
    pub fn action(&self) -> (a: LinkAction)
        requires
            self@.well_formed(),
        ensures
            a == self@.planned(),
    {
        match self.stage {
            ReconcileStage::Unpin => LinkAction::Unpin(self.obsolete[self.at]),
            ReconcileStage::Attach => LinkAction::Attach(self.missing[self.at]),
            ReconcileStage::Pin => LinkAction::Pin(self.missing[self.at]),
            ReconcileStage::Rollback { .. } => LinkAction::Unpin(self.missing[self.at]),
            ReconcileStage::Finished => LinkAction::Finish,
            ReconcileStage::Failed(f) => LinkAction::Fail(f),
        }
    }

    /// Whether the interfaces that exist have taken the place of those known before.
    pub fn adopted(&self) -> (r: bool)
        ensures
            r == self@.adopts(),
    {
        match self.stage {
            ReconcileStage::Unpin => false,
            ReconcileStage::Failed(LinkFailure::Unpin(_)) => false,
            _ => true,
        }
    }

    /// Hands the links over.
    pub fn into_links(self) -> (r: BTreeSet<u32>)
        ensures
            r@ == self@.links,
    {
        self.links
    }

    /// Goes on with the interface at `at` among those without a link.
    fn attach_at(&mut self, at: usize)
        ensures
            final(self)@ == old(self)@.attaching(at as int),
    {
        self.at = at;
        self.stage =
        if at < self.missing.len() {
            ReconcileStage::Attach
        } else {
            ReconcileStage::Finished
        };
    }

    /// Goes on after what was to be done succeeded (`ok`) or failed.
    pub fn advance(&mut self, ok: bool)
        requires
            old(self)@.well_formed(),
            !old(self)@.is_over(),
        ensures
            final(self)@ == old(self)@.next(ok),
            final(self)@.well_formed(),
    {
        match self.stage {
            ReconcileStage::Unpin => {
                let count: usize = self.obsolete.len();
                let ifindex = self.obsolete[self.at];
                self.links.remove(&ifindex);
                if !ok {
                    self.stage = ReconcileStage::Failed(LinkFailure::Unpin(ifindex));
                } else if self.at < count - 1 {
                    self.at = self.at + 1;
                } else {
                    self.attach_at(0);
                }
            },
            ReconcileStage::Attach => {
                let ifindex = self.missing[self.at];
                if ok {
                    self.stage = ReconcileStage::Pin;
                } else if self.at > 0 {
                    self.stage = ReconcileStage::Rollback { upto: self.at, failed: ifindex };
                    self.at = 0;
                } else {
                    self.stage = ReconcileStage::Failed(LinkFailure::Attach(ifindex));
                }
            },
            ReconcileStage::Pin => {
                let count: usize = self.missing.len();
                let ifindex = self.missing[self.at];
                if ok {
                    self.links.insert(ifindex);
                    assert(self.at < count);
                    self.attach_at(self.at + 1);
                } else {
                    self.stage = ReconcileStage::Failed(LinkFailure::Pin(ifindex));
                }
            },
            ReconcileStage::Rollback { upto, failed } => {
                let ifindex = self.missing[self.at];
                self.links.remove(&ifindex);
                self.at = self.at + 1;
                if self.at >= upto {
                    self.stage = ReconcileStage::Failed(LinkFailure::Attach(failed));
                }
            },
            _ => {},
        }
    }
}

/// Whether `states` is what [`Reconcile`] goes through, from links `links` to interfaces
/// `current`, when what was to be done had the outcomes `oks`.
pub open spec fn reconciles(
    states: Seq<ReconcileModel>,
    oks: Seq<bool>,
    links: Set<u32>,
    current: Set<u32>,
) -> bool {
    &&& states.len() == oks.len() + 1
    &&& states[0] == ReconcileModel::initial(links, states[0].obsolete, states[0].missing)
    &&& ascending(states[0].obsolete)
    &&& states[0].obsolete.to_set() == links.difference(current)
    &&& ascending(states[0].missing)
    &&& states[0].missing.to_set() == current.difference(links)
    &&& forall|i: int|
        0 <= i < oks.len() ==> {
            &&& !states[i].is_over()
            &&& states[i + 1] == states[i].next(#[trigger] oks[i])
        }
}

/// Which links there are at each stage.
pub open spec fn links_at(m: ReconcileModel, links: Set<u32>, current: Set<u32>) -> bool {
    let kept = links.intersect(current);
    match m.stage {
        ReconcileStage::Unpin => m.links == links.difference(m.obsolete.take(m.at).to_set()),
        ReconcileStage::Attach => m.links == kept.union(m.missing.take(m.at).to_set()),
        ReconcileStage::Pin => m.links == kept.union(m.missing.take(m.at).to_set()),
        ReconcileStage::Rollback { upto, .. } => m.links == kept.union(
            m.missing.subrange(m.at, upto as int).to_set(),
        ),
        ReconcileStage::Finished => m.links == current,
        ReconcileStage::Failed(LinkFailure::Attach(_)) => m.links == kept,
        ReconcileStage::Failed(_) => kept.subset_of(m.links) && m.links.subset_of(
            links.union(current),
        ),
    }
}

/// In an ascending sequence, the first element of a range is not in the rest of it.
proof fn lemma_subrange_remove(s: Seq<u32>, a: int, b: int)
    requires
        ascending(s),
        0 <= a < b <= s.len(),
    ensures
        s.subrange(a, b).to_set().remove(s[a]) == s.subrange(a + 1, b).to_set(),
{
    let whole = s.subrange(a, b);
    let rest = s.subrange(a + 1, b);
    assert forall|x: u32| #[trigger] whole.to_set().remove(s[a]).contains(x) <==> rest.to_set().contains(
        x,
    ) by {
        if whole.contains(x) && x != s[a] {
            let i = choose|i: int| 0 <= i < whole.len() && whole[i] == x;
            assert(rest[i - 1] == x);
        }
        if rest.contains(x) {
            let i = choose|i: int| 0 <= i < rest.len() && rest[i] == x;
            assert(whole[i + 1] == x);
            assert(s[a] < s[a + 1 + i]);
        }
    }
    assert(whole.to_set().remove(s[a]) =~= rest.to_set());
}

proof fn lemma_reconcile_step(m: ReconcileModel, ok: bool, links: Set<u32>, current: Set<u32>)
    requires
        m.well_formed(),
        !m.is_over(),
        m.missing.len() <= usize::MAX,
        ascending(m.obsolete),
        m.obsolete.to_set() == links.difference(current),
        ascending(m.missing),
        m.missing.to_set() == current.difference(links),
        links_at(m, links, current),
    ensures
        links_at(m.next(ok), links, current),
        m.next(ok).well_formed(),
        m.next(ok).obsolete == m.obsolete,
        m.next(ok).missing == m.missing,
{
    let n = m.next(ok);
    let kept = links.intersect(current);
    assert(m.missing.take(m.missing.len() as int) =~= m.missing);
    assert(m.missing.take(0).to_set() =~= Set::<u32>::empty());
    assert(kept.union(m.missing.to_set()) =~= current);
    match m.stage {
        ReconcileStage::Unpin => {
            lemma_take_to_set(m.obsolete, m.at);
            assert(n.links =~= links.difference(m.obsolete.take(m.at + 1).to_set()));
            assert forall|x: u32| m.obsolete.take(m.at + 1).to_set().contains(x) implies !kept.contains(
                x,
            ) by {
                let t = m.obsolete.take(m.at + 1);
                let i = choose|i: int| 0 <= i < t.len() && t[i] == x;
                assert(m.obsolete[i] == x);
                assert(m.obsolete.to_set().contains(x));
            }
            if ok && m.at + 1 == m.obsolete.len() {
                assert(m.obsolete.take(m.at + 1) =~= m.obsolete);
                assert(n.links =~= kept);
                assert(kept.union(Set::<u32>::empty()) =~= kept);
            }
        },
        ReconcileStage::Attach => {
            if !ok {
                if m.at > 0 {
                    assert(m.missing.subrange(0, m.at) =~= m.missing.take(m.at));
                } else {
                    assert(kept.union(Set::<u32>::empty()) =~= kept);
                }
            }
        },
        ReconcileStage::Pin => {
            lemma_take_to_set(m.missing, m.at);
            assert(m.links.insert(m.missing[m.at]) =~= kept.union(
                m.missing.take(m.at + 1).to_set(),
            ));
            assert forall|x: u32| m.missing.take(m.at).to_set().contains(
                x,
            ) implies current.contains(x) by {
                let t = m.missing.take(m.at);
                let i = choose|i: int| 0 <= i < t.len() && t[i] == x;
                assert(m.missing[i] == x);
                assert(m.missing.to_set().contains(x));
            }
        },
        ReconcileStage::Rollback { upto, .. } => {
            lemma_subrange_remove(m.missing, m.at, upto as int);
            assert(m.missing.to_set().contains(m.missing[m.at]));
            assert(n.links =~= kept.union(m.missing.subrange(m.at + 1, upto as int).to_set()));
            if m.at + 1 == upto {
                assert(m.missing.subrange(m.at + 1, upto as int).to_set() =~= Set::<u32>::empty());
                assert(kept.union(Set::<u32>::empty()) =~= kept);
            }
        },
        _ => {},
    }
}

pub proof fn lemma_reconcile_run(
    states: Seq<ReconcileModel>,
    oks: Seq<bool>,
    links: Set<u32>,
    current: Set<u32>,
    n: int,
)
    requires
        reconciles(states, oks, links, current),
        states[0].missing.len() <= usize::MAX,
        0 <= n <= oks.len(),
    ensures
        links_at(states[n], links, current),
        states[n].well_formed(),
        states[n].obsolete == states[0].obsolete,
        states[n].missing == states[0].missing,
    decreases n,
{
    if n == 0 {
        let m = states[0];
        let kept = links.intersect(current);
        assert(m.obsolete.take(0).to_set() =~= Set::<u32>::empty());
        assert(m.missing.take(0).to_set() =~= Set::<u32>::empty());
        assert(links.difference(Set::<u32>::empty()) =~= links);
        assert(kept.union(Set::<u32>::empty()) =~= kept);
        if m.obsolete.len() == 0 {
            assert(m.obsolete.to_set() =~= Set::<u32>::empty());
            assert forall|x: u32| links.contains(x) implies current.contains(x) by {
                assert(!links.difference(current).contains(x));
            }
            assert(links =~= kept);
            if m.missing.len() == 0 {
                assert(m.missing.to_set() =~= Set::<u32>::empty());
                assert forall|x: u32| current.contains(x) implies links.contains(x) by {
                    assert(!current.difference(links).contains(x));
                }
                assert(links =~= current);
            }
        }
    } else {
        lemma_reconcile_run(states, oks, links, current, n - 1);
        assert(states[n] == states[n - 1].next(oks[n - 1]));
        lemma_reconcile_step(states[n - 1], oks[n - 1], links, current);
    }
}

/// Reconciliation that finishes leaves one link for each interface that exists. If the program
/// cannot be attached to an interface, the links that were added are taken back. At no time is
/// the link of an interface that still exists given up.
pub proof fn law_reconciled_links(
    states: Seq<ReconcileModel>,
    oks: Seq<bool>,
    links: Set<u32>,
    current: Set<u32>,
)
    requires
        reconciles(states, oks, links, current),
        states[0].missing.len() <= usize::MAX,
    ensures
        states.last().stage is Finished ==> states.last().links == current,
        states.last().stage matches ReconcileStage::Failed(LinkFailure::Attach(_))
            ==> states.last().links == links.intersect(current),
        links.intersect(current).subset_of(states.last().links),
        states.last().links.subset_of(links.union(current)),
{
    let n = oks.len() as int;
    lemma_reconcile_run(states, oks, links, current, n);
    let m = states[n];
    assert forall|x: u32| #[trigger] links.intersect(current).contains(x) implies m.links.contains(
        x,
    ) by {
        if m.stage is Unpin {
            if m.obsolete.take(m.at).contains(x) {
                let i = choose|i: int| 0 <= i < m.at && m.obsolete.take(m.at)[i] == x;
                assert(m.obsolete[i] == x);
                assert(m.obsolete.to_set().contains(x));
            }
        }
    }
    assert forall|x: u32| #[trigger] m.links.contains(x) implies links.union(current).contains(
        x,
    ) by {
        match m.stage {
            ReconcileStage::Attach => {
                if m.missing.take(m.at).contains(x) {
                    let i = choose|i: int| 0 <= i < m.at && m.missing.take(m.at)[i] == x;
                    assert(m.missing[i] == x);
                    assert(m.missing.to_set().contains(x));
                }
            },
            ReconcileStage::Pin => {
                if m.missing.take(m.at).contains(x) {
                    let i = choose|i: int| 0 <= i < m.at && m.missing.take(m.at)[i] == x;
                    assert(m.missing[i] == x);
                    assert(m.missing.to_set().contains(x));
                }
            },
            ReconcileStage::Rollback { upto, .. } => {
                let t = m.missing.subrange(m.at, upto as int);
                if t.contains(x) {
                    let i = choose|i: int| 0 <= i < t.len() && t[i] == x;
                    assert(m.missing[m.at + i] == x);
                    assert(m.missing.to_set().contains(x));
                }
            },
            _ => {},
        }
    }
}

/// Where [`Startup`] stands.
#[derive(Clone, Copy, Debug, PartialEq, Eq, Structural)]
pub enum StartupStage {
    /// The pin that an earlier run left behind is being opened.
    Probe,
    /// The program is being attached; `old` tells whether there is a link to replace.
    Attach { old: bool },
    /// The pin of the link to replace is being removed.
    Release,
    /// The new link is being pinned.
    Pin { old: bool },
    /// The link to replace is being pinned again, as the new one could not be.
    Restore,
    /// Each interface has a new link.
    Finished,
    /// The links could not be replaced.
    Failed(LinkFailure),
}

/// What came of an action of [`Startup`].
#[derive(Clone, Copy, Debug, PartialEq, Eq, Structural)]
pub enum StartupEvent {
    /// It was done.
    Done,
    /// There is no pin to open.
    Absent,
    /// It failed.
    Failed,
}

/// Replacing the links that an earlier run left behind.
#[derive(Debug)]
pub struct Startup {
    links: BTreeSet<u32>,
    wanted: Vec<u32>,
    at: usize,
    stage: StartupStage,
}

/// [`Startup`] as a mathematical value.
pub struct StartupModel {
    pub links: Set<u32>,
    pub wanted: Seq<u32>,
    pub at: int,
    pub stage: StartupStage,
}

impl View for Startup {
    type V = StartupModel;

    closed spec fn view(&self) -> StartupModel {
        StartupModel {
            links: self.links@,
            wanted: self.wanted@,
            at: self.at as int,
            stage: self.stage,
        }
    }
}

impl StartupModel {
    /// Whether the work is over.
    pub open spec fn is_over(self) -> bool {
        self.stage is Finished || self.stage is Failed
    }

    /// Whether the place at which work goes on exists.
    pub open spec fn well_formed(self) -> bool {
        !self.is_over() ==> 0 <= self.at < self.wanted.len()
    }

    /// The work on the interface at `at`.
    pub open spec fn probing(self, at: int) -> StartupModel {
        StartupModel {
            at,
            stage: if at < self.wanted.len() {
                StartupStage::Probe
            } else {
                StartupStage::Finished
            },
            ..self
        }
    }

    /// The work before anything was done.
    pub open spec fn initial(links: Set<u32>, wanted: Seq<u32>) -> StartupModel {
        StartupModel { links, wanted, at: 0, stage: StartupStage::Probe }.probing(0)
    }

    /// The interface being worked on.
    pub open spec fn ifindex(self) -> u32 {
        self.wanted[self.at]
    }

    /// What is to be done next.
    pub open spec fn planned(self) -> LinkAction {
        match self.stage {
            StartupStage::Probe => LinkAction::Probe(self.ifindex()),
            StartupStage::Attach { .. } => LinkAction::Attach(self.ifindex()),
            StartupStage::Release => LinkAction::Release(self.ifindex()),
            StartupStage::Pin { .. } => LinkAction::Pin(self.ifindex()),
            StartupStage::Restore => LinkAction::Restore(self.ifindex()),
            StartupStage::Finished => LinkAction::Finish,
            StartupStage::Failed(f) => LinkAction::Fail(f),
        }
    }

    /// Whether `event` can come of what is to be done next.
    pub open spec fn awaits(self, event: StartupEvent) -> bool {
        !self.is_over() && (event == StartupEvent::Absent ==> self.stage is Probe)
    }

    /// The work with another stage.
    pub open spec fn in_stage(self, stage: StartupStage) -> StartupModel {
        StartupModel { stage, ..self }
    }

    /// The work after `event`. The new link is attached before the old one loses its pin, and
    /// if the new one cannot be pinned, the old one is pinned again.
    pub open spec fn next(self, event: StartupEvent) -> StartupModel {
        let failed = event == StartupEvent::Failed;
        match self.stage {
            StartupStage::Probe => if failed {
                self.in_stage(StartupStage::Failed(LinkFailure::Probe(self.ifindex())))
            } else {
                self.in_stage(StartupStage::Attach { old: event == StartupEvent::Done })
            },
            StartupStage::Attach { old } => if failed {
                self.in_stage(StartupStage::Failed(LinkFailure::Attach(self.ifindex())))
            } else if old {
                self.in_stage(StartupStage::Release)
            } else {
                self.in_stage(StartupStage::Pin { old: false })
            },
            StartupStage::Release => if failed {
                self.in_stage(StartupStage::Failed(LinkFailure::Unpin(self.ifindex())))
            } else {
                self.in_stage(StartupStage::Pin { old: true })
            },
            StartupStage::Pin { old } => if !failed {
                StartupModel {
                    links: self.links.insert(self.ifindex()),
                    ..self.probing(self.at + 1)
                }
            } else if old {
                self.in_stage(StartupStage::Restore)
            } else {
                self.in_stage(StartupStage::Failed(LinkFailure::Pin(self.ifindex())))
            },
            StartupStage::Restore => self.in_stage(
                StartupStage::Failed(LinkFailure::Pin(self.ifindex())),
            ),
            _ => self,
        }
    }
}

impl Startup {
    /// Starts to give each of `interfaces` a new link, in addition to the links `links`.
    pub fn start(links: &BTreeSet<u32>, interfaces: &BTreeMap<u32, String>) -> (r: Startup)
        ensures
            r@ == StartupModel::initial(links@, r@.wanted),
            r@.well_formed(),
            ascending(r@.wanted),
            r@.wanted.to_set() == interfaces@.dom(),
            r@.links == links@,
            forall|i: int, j: int| 0 <= i < j < r@.wanted.len() ==> r@.wanted[i] < r@.wanted[j],
            forall|x: u32| #[trigger] r@.wanted.contains(x) <==> interfaces@.contains_key(x),
    {
        let wanted = keys_of(interfaces);
        assert forall|x: u32| #[trigger] wanted@.contains(x) <==> interfaces@.contains_key(x) by {
            assert(wanted@.to_set().contains(x) == interfaces@.dom().contains(x));
        }
        let stage = if wanted.len() > 0 {
            StartupStage::Probe
        } else {
            StartupStage::Finished
        };
        Startup { links: links.clone(), wanted, at: 0, stage }
    }

    /// What is to be done next.
    pub fn action(&self) -> (a: LinkAction)
        requires
            self@.well_formed(),
        ensures
            a == self@.planned(),
    {
        match self.stage {
            StartupStage::Probe => LinkAction::Probe(self.wanted[self.at]),
            StartupStage::Attach { .. } => LinkAction::Attach(self.wanted[self.at]),
            StartupStage::Release => LinkAction::Release(self.wanted[self.at]),
            StartupStage::Pin { .. } => LinkAction::Pin(self.wanted[self.at]),
            StartupStage::Restore => LinkAction::Restore(self.wanted[self.at]),
            StartupStage::Finished => LinkAction::Finish,
            StartupStage::Failed(f) => LinkAction::Fail(f),
        }
    }

    /// Hands the links over.
    pub fn into_links(self) -> (r: BTreeSet<u32>)
        ensures
            r@ == self@.links,
    {
        self.links
    }

    /// Goes on after `event`, which came of what was to be done.
    pub fn advance(&mut self, event: StartupEvent)
        requires
            old(self)@.well_formed(),
            old(self)@.awaits(event),
        ensures
            final(self)@ == old(self)@.next(event),
            final(self)@.well_formed(),
    {
        let failed = event == StartupEvent::Failed;
        let count: usize = self.wanted.len();
        let ifindex = self.wanted[self.at];
        match self.stage {
            StartupStage::Probe => {
                self.stage =
                if failed {
                    StartupStage::Failed(LinkFailure::Probe(ifindex))
                } else {
                    StartupStage::Attach { old: event == StartupEvent::Done }
                };
            },
            StartupStage::Attach { old } => {
                self.stage =
                if failed {
                    StartupStage::Failed(LinkFailure::Attach(ifindex))
                } else if old {
                    StartupStage::Release
                } else {
                    StartupStage::Pin { old: false }
                };
            },
            StartupStage::Release => {
                self.stage =
                if failed {
                    StartupStage::Failed(LinkFailure::Unpin(ifindex))
                } else {
                    StartupStage::Pin { old: true }
                };
            },
            StartupStage::Pin { old } => {
                if !failed {
                    self.links.insert(ifindex);
                    self.at = self.at + 1;
                    self.stage =
                    if self.at < count {
                        StartupStage::Probe
                    } else {
                        StartupStage::Finished
                    };
                } else if old {
                    self.stage = StartupStage::Restore;
                } else {
                    self.stage = StartupStage::Failed(LinkFailure::Pin(ifindex));
                }
            },
            StartupStage::Restore => {
                self.stage = StartupStage::Failed(LinkFailure::Pin(ifindex));
            },
            _ => {},
        }
    }
}

/// Whether `states` is what [`Startup`] goes through, from links `links`, when what was to be
/// done had the outcomes `events`.
pub open spec fn starts_up(
    states: Seq<StartupModel>,
    events: Seq<StartupEvent>,
    links: Set<u32>,
) -> bool {
    &&& states.len() == events.len() + 1
    &&& states[0] == StartupModel::initial(links, states[0].wanted)
    &&& forall|i: int|
        0 <= i < events.len() ==> {
            &&& states[i].awaits(#[trigger] events[i])
            &&& states[i + 1] == states[i].next(events[i])
        }
}

proof fn lemma_startup_run(
    states: Seq<StartupModel>,
    events: Seq<StartupEvent>,
    links: Set<u32>,
    n: int,
)
    requires
        starts_up(states, events, links),
        0 <= n <= events.len(),
    ensures
        states[n].wanted == states[0].wanted,
        states[n].well_formed(),
        0 <= states[n].at <= states[n].wanted.len(),
        states[n].stage is Finished ==> states[n].at == states[n].wanted.len(),
        states[n].links == links.union(states[n].wanted.take(states[n].at).to_set()),
    decreases n,
{
    if n == 0 {
        assert(states[0].wanted.take(0).to_set() =~= Set::<u32>::empty());
        assert(links.union(Set::<u32>::empty()) =~= links);
    } else {
        lemma_startup_run(states, events, links, n - 1);
        let m = states[n - 1];
        assert(states[n] == m.next(events[n - 1]));
        if states[n].at != m.at {
            lemma_take_to_set(m.wanted, m.at);
            assert(states[n].links =~= links.union(m.wanted.take(m.at + 1).to_set()));
        }
    }
}

/// Once [`Startup`] is finished, each interface that was asked for has a link, and until then
/// those before the one being worked on have. No link is given up.
pub proof fn law_started_links(
    states: Seq<StartupModel>,
    events: Seq<StartupEvent>,
    links: Set<u32>,
)
    requires
        starts_up(states, events, links),
    ensures
        states.last().stage is Finished ==> states.last().links == links.union(
            states[0].wanted.to_set(),
        ),
        states.last().links == links.union(
            states[0].wanted.take(states.last().at).to_set(),
        ),
{
    let n = events.len() as int;
    lemma_startup_run(states, events, links, n);
    assert(states[n].wanted.take(states[n].wanted.len() as int) =~= states[n].wanted);
}

/// A link that an earlier run left behind loses its pin only after a new link was attached to
/// its interface, and where the new link cannot take its place, it is pinned again before the
/// failure is reported.
pub proof fn law_old_link_outlives_replacement(m: StartupModel, event: StartupEvent)
    requires
        m.well_formed(),
        m.awaits(event),
    ensures
        m.next(event).planned() is Release ==> m.planned() == LinkAction::Attach(m.ifindex())
            && event == StartupEvent::Done && m.next(event).planned() == LinkAction::Release(
            m.ifindex(),
        ),
        m.stage == (StartupStage::Pin { old: true }) && event == StartupEvent::Failed ==> m.next(
            event,
        ).planned() == LinkAction::Restore(m.ifindex()),
        m.next(event).planned() == LinkAction::Fail(LinkFailure::Pin(m.ifindex())) ==> m.planned()
            is Restore || m.stage == (StartupStage::Pin { old: false }),
{
}

/// How many steps lead to a state of [`Reconcile`] if nothing fails.
spec fn reconcile_steps(m: ReconcileModel) -> int {
    match m.stage {
        ReconcileStage::Unpin => m.at,
        ReconcileStage::Attach => m.obsolete.len() + 2 * m.at,
        ReconcileStage::Pin => m.obsolete.len() + 2 * m.at + 1,
        _ => m.obsolete.len() as int + 2 * m.missing.len(),
    }
}

proof fn lemma_reconcile_goes_through(
    states: Seq<ReconcileModel>,
    oks: Seq<bool>,
    links: Set<u32>,
    current: Set<u32>,
    n: int,
)
    requires
        reconciles(states, oks, links, current),
        states[0].missing.len() <= usize::MAX,
        forall|i: int| 0 <= i < oks.len() ==> #[trigger] oks[i],
        0 <= n <= oks.len(),
    ensures
        !(states[n].stage is Failed),
        !(states[n].stage is Rollback),
        reconcile_steps(states[n]) == n,
    decreases n,
{
    if n > 0 {
        lemma_reconcile_goes_through(states, oks, links, current, n - 1);
        lemma_reconcile_run(states, oks, links, current, n - 1);
        assert(states[n] == states[n - 1].next(oks[n - 1]));
    }
}

/// Reconciliation in which nothing fails is finished once each obsolete link is unpinned and
/// each interface without a link is attached to and its link pinned.
pub proof fn law_reconcile_goes_through(
    states: Seq<ReconcileModel>,
    oks: Seq<bool>,
    links: Set<u32>,
    current: Set<u32>,
)
    requires
        reconciles(states, oks, links, current),
        states[0].missing.len() <= usize::MAX,
        forall|i: int| 0 <= i < oks.len() ==> #[trigger] oks[i],
    ensures
        !(states.last().stage is Failed),
        states.last().stage is Finished <==> oks.len() == states[0].obsolete.len() + 2
            * states[0].missing.len(),
{
    let n = oks.len() as int;
    lemma_reconcile_goes_through(states, oks, links, current, n);
    lemma_reconcile_run(states, oks, links, current, n);
}

/// How many steps at most lead to a state of [`Startup`] if nothing fails.
spec fn startup_steps(m: StartupModel) -> int {
    4 * m.at + match m.stage {
        StartupStage::Attach { .. } => 1int,
        StartupStage::Release => 2,
        StartupStage::Pin { .. } => 3,
        _ => 0,
    }
}

proof fn lemma_startup_goes_through(
    states: Seq<StartupModel>,
    events: Seq<StartupEvent>,
    links: Set<u32>,
    n: int,
)
    requires
        starts_up(states, events, links),
        forall|i: int| 0 <= i < events.len() ==> #[trigger] events[i] != StartupEvent::Failed,
        0 <= n <= events.len(),
    ensures
        !(states[n].stage is Failed),
        !(states[n].stage is Restore),
        startup_steps(states[n]) >= n,
    decreases n,
{
    if n > 0 {
        lemma_startup_goes_through(states, events, links, n - 1);
        assert(states[n] == states[n - 1].next(events[n - 1]));
    }
}

/// A start in which nothing fails is finished after at most four steps for each interface.
pub proof fn law_startup_goes_through(
    states: Seq<StartupModel>,
    events: Seq<StartupEvent>,
    links: Set<u32>,
)
    requires
        starts_up(states, events, links),
        forall|i: int| 0 <= i < events.len() ==> #[trigger] events[i] != StartupEvent::Failed,
    ensures
        !(states.last().stage is Failed),
        events.len() <= 4 * states[0].wanted.len(),
        events.len() == 4 * states[0].wanted.len() ==> states.last().stage is Finished,
{
    let n = events.len() as int;
    lemma_startup_goes_through(states, events, links, n);
    lemma_startup_run(states, events, links, n);
}

} // verus!
