//! The manager of the TC backend: what it knows between operations.

use crate::config::{Config, Direction, Tc};
use crate::control::{
    adopts, pinned_refusal, validate_pinned_layout, Control, LayoutError, SLOT_COUNT,
};
use crate::interfaces::{texts, InterfaceSet};
use crate::links::{
    ascending, elements_of, stale_names, stale_pins, Reconcile, ReconcileModel, Startup,
    StartupModel,
};
use crate::path::optional_path;
use crate::pins::{clears, remove_map_pins, Removal};
use crate::reload::{Reload, ReloadState};
use crate::resolve::{InterfaceSearch, SearchModel};
use crate::text::spelled_u32;
use std::collections::{BTreeMap, BTreeSet};
use vstd::prelude::*;

verus! {

/// What the manager of the TC backend knows: its settings, the interfaces it was asked to
/// filter, those that were found, by index, and the interfaces that have a link.
#[derive(Debug)]
pub struct TcManager {
    pub config: Tc,
    pub interface_names: InterfaceSet,
    pub interfaces: BTreeMap<u32, String>,
    pub links: BTreeSet<u32>,
}

/// What takes the TC backend down: the links of `links` are to be removed, in order, then what
/// `pins` lists.
#[derive(Debug)]
pub struct Cleanup {
    pub links: Vec<u32>,
    pub pins: Vec<Removal>,
}

impl TcManager {
    /// A manager that has attached nothing yet, with the control record to be written, if the
    /// one found, `control`, is not to be kept.
    pub fn new(
        config: Tc,
        interface_names: InterfaceSet,
        interfaces: BTreeMap<u32, String>,
        control: Control,
    ) -> (r: Result<(TcManager, Option<Control>), LayoutError>)
        ensures
            match r {
                Ok((m, write)) => {
                    &&& adopts(control, Ok(write))
                    &&& m.config == config
                    &&& m.interface_names == interface_names
                    &&& m.interfaces == interfaces
                    &&& m.links@ == Set::<u32>::empty()
                },
                Err(e) => adopts(control, Err(e)),
            },
    {
        match control.adopt() {
            Ok(write) => Ok(
                (TcManager { config, interface_names, interfaces, links: BTreeSet::new() }, write),
            ),
            Err(e) => Err(e),
        }
    }

    /// Starts to give each interface that was found a link, where `pins` are the files in the
    /// directory for links: those to be unpinned first, in order, and the work that follows.
    pub fn activate(&self, pins: &Vec<String>) -> (r: (Vec<String>, Startup))
        ensures
            texts(r.0@) == stale_names(texts(pins@), self.interfaces@.dom()),
            r.1@ == StartupModel::initial(self.links@, r.1@.wanted),
            r.1@.well_formed(),
            ascending(r.1@.wanted),
            r.1@.wanted.to_set() == self.interfaces@.dom(),
            texts(r.0@) == texts(pins@).filter(
                |name: Seq<char>|
                    spelled_u32(name) matches Some(ifindex) && !self.interfaces@.contains_key(
                        ifindex,
                    ),
            ),
            r.1@.links == self.links@,
            forall|i: int, j: int| 0 <= i < j < r.1@.wanted.len() ==> r.1@.wanted[i] < r.1@.wanted[j],
            forall|x: u32| #[trigger] r.1@.wanted.contains(x) <==> self.interfaces@.contains_key(x),
    {
        (stale_pins(pins, &self.interfaces), Startup::start(&self.links, &self.interfaces))
    }

    /// Takes over the links that [`TcManager::activate`] led to.
    pub fn activated(&mut self, run: Startup)
        ensures
            final(self).links@ == run@.links,
            final(self).config == old(self).config,
            final(self).interface_names == old(self).interface_names,
            final(self).interfaces == old(self).interfaces,
    {
        self.links = run.into_links();
    }

    /// Starts a reload of the outbound blocklist of `config` under the control record
    /// `control`.
    pub fn reload(&self, config: &Config, control: Control) -> (r: Reload)
        requires
            control.active_slot < SLOT_COUNT,
        ensures
            r@ == ReloadState::initial(
                control.active_slot,
                config.blocklist(Direction::Outbound) is Some,
                self.config.ipv4_max_entries,
                self.config.ipv6_max_entries,
            ),
            r@.well_formed(),
            r.source() == optional_path(config.blocklist(Direction::Outbound)),
            r@.active == control.active_slot,
            r@.configured == config.files.outbound is Some,
            r@.ipv4_max == self.config.ipv4_max_entries,
            r@.ipv6_max == self.config.ipv6_max_entries,
            r@.ipv4 == 0,
            r@.ipv6 == 0,
            match config.files.outbound {
                Some(path) => r.source() == Some(path.bytes@),
                None => r.source() is None,
            },
    {
        Reload::start(config, &self.config, control)
    }

    /// Starts to bring the kernel state back in line: if the control record is in order, the
    /// interfaces are searched anew.
    pub fn reconcile(&self, control: Control) -> (r: Result<InterfaceSearch, LayoutError>)
        ensures
            match r {
                Ok(search) => {
                    &&& control.compatible()
                    &&& search@.well_formed()
                    &&& search@ == SearchModel::initial(self.interface_names.listed())
                    &&& search@.names.to_set() == self.interface_names@
                    &&& search@.next == 0
                    &&& search@.found == Map::<u32, Seq<char>>::empty()
                },
                Err(e) => !control.compatible() && e == control.mismatch(),
            },
    {
        match control.check() {
            Ok(_) => Ok(InterfaceSearch::start(&self.interface_names)),
            Err(e) => Err(e),
        }
    }

    /// Starts to bring the links in line with the interfaces `current` that were found.
    pub fn reconcile_links(&self, current: &BTreeMap<u32, String>) -> (r: Reconcile)
        ensures
            r@ == ReconcileModel::initial(self.links@, r@.obsolete, r@.missing),
            r@.well_formed(),
            ascending(r@.obsolete),
            r@.obsolete.to_set() == self.links@.difference(current@.dom()),
            ascending(r@.missing),
            r@.missing.to_set() == current@.dom().difference(self.links@),
            r@.links == self.links@,
            forall|i: int, j: int|
                0 <= i < j < r@.obsolete.len() ==> r@.obsolete[i] < r@.obsolete[j],
            forall|i: int, j: int| 0 <= i < j < r@.missing.len() ==> r@.missing[i] < r@.missing[j],
            forall|x: u32| #[trigger]
                r@.obsolete.contains(x) <==> self.links@.contains(x) && !current@.contains_key(x),
            forall|x: u32| #[trigger]
                r@.missing.contains(x) <==> current@.contains_key(x) && !self.links@.contains(x),
    {
        Reconcile::start(&self.links, current)
    }

    /// Takes over the links that [`TcManager::reconcile_links`] led to, and the interfaces `current`
    /// unless obsolete links are left.
    pub fn reconciled(&mut self, run: Reconcile, current: BTreeMap<u32, String>)
        ensures
            final(self).links@ == run@.links,
            final(self).interfaces == if run@.adopts() {
                current
            } else {
                old(self).interfaces
            },
            final(self).config == old(self).config,
            final(self).interface_names == old(self).interface_names,
    {
        if run.adopted() {
            self.interfaces = current;
        }
        self.links = run.into_links();
    }

    /// What takes the backend down.
    pub fn cleanup(self) -> (r: Cleanup)
        ensures
            ascending(r.links@),
            r.links@.to_set() == self.links@,
            forall|i: int, j: int| 0 <= i < j < r.links@.len() ==> r.links@[i] < r.links@[j],
            clears(r.pins@, self.config.pin_path@),
    {
        Cleanup { links: elements_of(&self.links), pins: remove_map_pins(&self.config.pin_path) }
    }

    /// What is left to be removed, once all links are gone, of the state that an earlier run
    /// with the settings `config` left behind, where `found` is its control record. State
    /// without a record, or with one that is not compatible, is not touched.
    pub fn cleanup_pinned(config: &Tc, found: Option<Control>) -> (r: Result<
        Vec<Removal>,
        LayoutError,
    >)
        ensures
            match r {
                Ok(plan) => pinned_refusal(found) is None && clears(plan@, config.pin_path@),
                Err(e) => pinned_refusal(found) == Some(e),
            },
    {
        match validate_pinned_layout(found) {
            Ok(_) => Ok(remove_map_pins(&config.pin_path)),
            Err(e) => Err(e),
        }
    }
}

} // verus!
