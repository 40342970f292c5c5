//! Replacing the blocklist of the TC backend.
//!
//! The prefixes of the new list go into the slot that is not in use. Only when all of them
//! stand there does the control record point to that slot.

use crate::classifier::{contents, destination, treated, TC_ACT_SHOT};
use crate::config::{Config, Direction, Tc};
use crate::control::{Control, LAYOUT_VERSION, SLOT_COUNT};
use crate::path::{optional_path, FilePath};
use crate::table::{hit, Address, AddressPrefix, KernelMaps, Table};
use crate::text::{decimal, decimal_string, optional_text};
use vstd::prelude::*;

verus! {

/// Why the new list cannot be put in place.
#[derive(Clone, Copy, Debug, PartialEq, Eq, Structural)]
pub enum StagingFault {
    /// The list holds more IPv4 prefixes than the given capacity.
    Ipv4Full(u32),
    /// The list holds more IPv6 prefixes than the given capacity.
    Ipv6Full(u32),
    /// The list could not be read, or a prefix could not be stored.
    Outside,
}

/// Why a reload failed.
#[derive(Clone, Copy, Debug, PartialEq, Eq, Structural)]
pub enum ReloadFailure {
    /// The slot that is not in use could not be cleared.
    Clear,
    /// No file is configured for the outbound blocklist.
    NotConfigured,
    /// The file could not be opened.
    Open,
    /// The list could not be put in place.
    Staging(StagingFault),
    /// The control record could not be written.
    Activate,
}

impl StagingFault {
    /// The message for the fault. What failed outside has a message of its own.
    pub open spec fn text(self) -> Option<Seq<char>> {
        match self {
            StagingFault::Ipv4Full(max) => Some(
                "TC IPv4 map capacity exceeded ("@ + decimal(max as nat) + ")"@,
            ),
            StagingFault::Ipv6Full(max) => Some(
                "TC IPv6 map capacity exceeded ("@ + decimal(max as nat) + ")"@,
            ),
            StagingFault::Outside => None,
        }
    }

    /// The message for the fault. What failed outside has a message of its own.
    pub fn message(self) -> (s: Option<String>)
        ensures
            optional_text(s) == self.text(),
    {
        let (front, max) = match self {
            StagingFault::Ipv4Full(max) => ("TC IPv4 map capacity exceeded (", max),
            StagingFault::Ipv6Full(max) => ("TC IPv6 map capacity exceeded (", max),
            StagingFault::Outside => {
                return None;
            },
        };
        let mut s = front.to_owned();
        s.append(decimal_string(max).as_str());
        s.append(")");
        Some(s)
    }
}

impl ReloadFailure {
    /// The message for the failure. What failed outside has a message of its own.
    pub open spec fn text(self) -> Option<Seq<char>> {
        match self {
            ReloadFailure::NotConfigured => Some("outbound blocklist is not configured for TC"@),
            ReloadFailure::Staging(fault) => fault.text(),
            _ => None,
        }
    }

    /// The message for the failure. What failed outside has a message of its own.
    pub fn message(self) -> (s: Option<String>)
        ensures
            optional_text(s) == self.text(),
    {
        match self {
            ReloadFailure::NotConfigured => Some(
                "outbound blocklist is not configured for TC".to_owned(),
            ),
            ReloadFailure::Staging(fault) => fault.message(),
            _ => None,
        }
    }
}

/// Where a reload stands.
#[derive(Clone, Copy, Debug)]
pub enum Stage {
    /// The slot that is not in use is being cleared.
    Clear,
    /// The list is being opened.
    Open,
    /// The next prefix is being read.
    Read,
    /// A prefix is being stored.
    Insert(AddressPrefix),
    /// What was stored is being removed because of a fault.
    Discard(StagingFault),
    /// The control record is being written.
    Activate,
    /// The slot that was in use is being cleared.
    Retire,
    /// The reload is done.
    Finished,
    /// The reload failed.
    Failed(ReloadFailure),
}

/// What is to be done next.
#[derive(Clone, Copy, Debug)]
pub enum ReloadAction {
    /// Remove all prefixes from a slot.
    ClearSlot(u32),
    /// Open the file that [`Reload::blocklist`] gives.
    OpenBlocklist,
    /// Read the next prefix of the list.
    ReadPrefix,
    /// Store a prefix in a table.
    Insert { table: Table, prefix: AddressPrefix },
    /// Write the control record.
    Activate(Control),
    /// Nothing: the reload is done.
    Finish,
    /// Nothing: the reload failed.
    Fail(ReloadFailure),
}

/// What came of an action.
#[derive(Clone, Copy, Debug)]
pub enum ReloadEvent {
    /// It was done.
    Done,
    /// It failed.
    Failed,
    /// This prefix was read.
    Prefix(AddressPrefix),
    /// There are no more prefixes.
    End,
}

/// How far a reload has come.
#[derive(Clone, Copy, Debug)]
pub struct ReloadState {
    pub active: u32,
    pub configured: bool,
    pub ipv4_max: u32,
    pub ipv6_max: u32,
    pub ipv4: u64,
    pub ipv6: u64,
    pub stage: Stage,
}

impl ReloadState {
    /// Whether the reload knows a slot and stored no more prefixes than fit.
    pub open spec fn well_formed(self) -> bool {
        &&& self.active < SLOT_COUNT
        &&& self.ipv4 <= self.ipv4_max
        &&& self.ipv6 <= self.ipv6_max
        &&& match self.stage {
            Stage::Insert(p) => if p.is_v4() {
                self.ipv4 < self.ipv4_max
            } else {
                self.ipv6 < self.ipv6_max
            },
            _ => true,
        }
    }

    /// The slot that is not in use when the reload starts.
    pub open spec fn inactive(self) -> u32 {
        (1 - self.active) as u32
    }

    /// A reload that has not done anything yet.
    pub open spec fn initial(active: u32, configured: bool, ipv4_max: u32, ipv6_max: u32) -> ReloadState {
        ReloadState {
            active,
            configured,
            ipv4_max,
            ipv6_max,
            ipv4: 0,
            ipv6: 0,
            stage: Stage::Clear,
        }
    }

    /// What is to be done next.
    pub open spec fn planned(self) -> ReloadAction {
        match self.stage {
            Stage::Clear => ReloadAction::ClearSlot(self.inactive()),
            Stage::Open => ReloadAction::OpenBlocklist,
            Stage::Read => ReloadAction::ReadPrefix,
            Stage::Insert(prefix) => ReloadAction::Insert {
                table: prefix.table(self.inactive()),
                prefix,
            },
            Stage::Discard(_) => ReloadAction::ClearSlot(self.inactive()),
            Stage::Activate => ReloadAction::Activate(Control::pointing_to(self.inactive())),
            Stage::Retire => ReloadAction::ClearSlot(self.active),
            Stage::Finished => ReloadAction::Finish,
            Stage::Failed(f) => ReloadAction::Fail(f),
        }
    }

    /// Whether `event` can come of what is to be done next.
    pub open spec fn awaits(self, event: ReloadEvent) -> bool {
        match self.stage {
            Stage::Finished => false,
            Stage::Failed(_) => false,
            Stage::Read => !(event is Done),
            _ => event is Done || event is Failed,
        }
    }

    /// Where the reload goes when `prefix` was read: a list with more prefixes than fit is
    /// discarded.
    pub open spec fn after_prefix(self, prefix: AddressPrefix) -> Stage {
        if prefix.is_v4() && self.ipv4 >= self.ipv4_max {
            Stage::Discard(StagingFault::Ipv4Full(self.ipv4_max))
        } else if !prefix.is_v4() && self.ipv6 >= self.ipv6_max {
            Stage::Discard(StagingFault::Ipv6Full(self.ipv6_max))
        } else {
            Stage::Insert(prefix)
        }
    }

    /// Where the reload goes on `event`.
    pub open spec fn next_stage(self, event: ReloadEvent) -> Stage {
        match self.stage {
            Stage::Clear => if event is Done {
                if self.configured {
                    Stage::Open
                } else {
                    Stage::Failed(ReloadFailure::NotConfigured)
                }
            } else {
                Stage::Failed(ReloadFailure::Clear)
            },
            Stage::Open => if event is Done {
                Stage::Read
            } else {
                Stage::Failed(ReloadFailure::Open)
            },
            Stage::Read => match event {
                ReloadEvent::Prefix(prefix) => self.after_prefix(prefix),
                ReloadEvent::End => Stage::Activate,
                _ => Stage::Discard(StagingFault::Outside),
            },
            Stage::Insert(_) => if event is Done {
                Stage::Read
            } else {
                Stage::Discard(StagingFault::Outside)
            },
            Stage::Discard(fault) => Stage::Failed(ReloadFailure::Staging(fault)),
            Stage::Activate => if event is Done {
                Stage::Retire
            } else {
                Stage::Failed(ReloadFailure::Activate)
            },
            Stage::Retire => Stage::Finished,
            Stage::Finished => Stage::Finished,
            Stage::Failed(f) => Stage::Failed(f),
        }
    }

    /// The reload after `event`: a prefix counts once it is stored.
    pub open spec fn next(self, event: ReloadEvent) -> ReloadState {
        let stored = match self.stage {
            Stage::Insert(p) if event is Done => Some(p),
            _ => None,
        };
        ReloadState {
            ipv4: match stored {
                Some(p) if p.is_v4() => (self.ipv4 + 1) as u64,
                _ => self.ipv4,
            },
            ipv6: match stored {
                Some(p) if !p.is_v4() => (self.ipv6 + 1) as u64,
                _ => self.ipv6,
            },
            stage: self.next_stage(event),
            ..self
        }
    }
}

/// A reload in progress.
#[derive(Debug)]
pub struct Reload {
    state: ReloadState,
    file: Option<FilePath>,
}

impl View for Reload {
    type V = ReloadState;

    closed spec fn view(&self) -> ReloadState {
        self.state
    }
}

impl Reload {
    /// The file that holds the list.
    pub closed spec fn source(&self) -> Option<Seq<u8>> {
        optional_path(self.file)
    }

    /// Starts a reload of the outbound blocklist of `config` under the control record
    /// `control`, with the capacities of `tc`.
    pub fn start(config: &Config, tc: &Tc, control: Control) -> (r: Reload)
        requires
            control.active_slot < SLOT_COUNT,
        ensures
            r@ == ReloadState::initial(
                control.active_slot,
                config.blocklist(Direction::Outbound) is Some,
                tc.ipv4_max_entries,
                tc.ipv6_max_entries,
            ),
            r@.well_formed(),
            r.source() == optional_path(config.blocklist(Direction::Outbound)),
            r@.active == control.active_slot,
            r@.configured == config.files.outbound is Some,
            r@.ipv4_max == tc.ipv4_max_entries,
            r@.ipv6_max == tc.ipv6_max_entries,
            r@.ipv4 == 0,
            r@.ipv6 == 0,
            r@.stage == Stage::Clear,
            match config.files.outbound {
                Some(path) => r.source() == Some(path.bytes@),
                None => r.source() is None,
            },
    {
        let file = match config.blocklist_path(Direction::Outbound) {
            Some(path) => Some(path.clone()),
            None => None,
        };
        Reload {
            state: ReloadState {
                active: control.active_slot,
                configured: file.is_some(),
                ipv4_max: tc.ipv4_max_entries,
                ipv6_max: tc.ipv6_max_entries,
                ipv4: 0,
                ipv6: 0,
                stage: Stage::Clear,
            },
            file,
        }
    }

    /// The file that holds the list, for [`ReloadAction::OpenBlocklist`].
    pub fn blocklist(&self) -> (path: Option<&FilePath>)
        ensures
            match path {
                Some(p) => self.source() == Some(p@),
                None => self.source() is None,
            },
    {
        self.file.as_ref()
    }

    /// How far the reload has come.
    pub fn state(&self) -> (s: ReloadState)
        ensures
            s == self@,
    {
        self.state
    }

    /// What is to be done next.
    pub fn action(&self) -> (a: ReloadAction)
        requires
            self@.well_formed(),
        ensures
            a == self@.planned(),
    {
        let inactive: u32 = 1 - self.state.active;
        match self.state.stage {
            Stage::Clear => ReloadAction::ClearSlot(inactive),
            Stage::Open => ReloadAction::OpenBlocklist,
            Stage::Read => ReloadAction::ReadPrefix,
            Stage::Insert(prefix) => ReloadAction::Insert {
                table: prefix.table_in(inactive),
                prefix,
            },
            Stage::Discard(_) => ReloadAction::ClearSlot(inactive),
            Stage::Activate => ReloadAction::Activate(
                Control { layout_version: LAYOUT_VERSION, active_slot: inactive },
            ),
            Stage::Retire => ReloadAction::ClearSlot(self.state.active),
            Stage::Finished => ReloadAction::Finish,
            Stage::Failed(f) => ReloadAction::Fail(f),
        }
    }

    /// Goes on after `event`, which came of what was to be done.
    pub fn advance(&mut self, event: ReloadEvent)
        requires
            old(self)@.well_formed(),
            old(self)@.awaits(event),
        ensures
            final(self)@ == old(self)@.next(event),
            final(self)@.well_formed(),
            final(self).source() == old(self).source(),
    {
        let done = matches!(event, ReloadEvent::Done);
        self.state.stage = match self.state.stage {
            Stage::Clear => if !done {
                Stage::Failed(ReloadFailure::Clear)
            } else if self.state.configured {
                Stage::Open
            } else {
                Stage::Failed(ReloadFailure::NotConfigured)
            },
            Stage::Open => if done {
                Stage::Read
            } else {
                Stage::Failed(ReloadFailure::Open)
            },
            Stage::Read => match event {
                ReloadEvent::Prefix(prefix) => {
                    let v4 = matches!(prefix, AddressPrefix::V4 { .. });
                    if v4 && self.state.ipv4 >= self.state.ipv4_max as u64 {
                        Stage::Discard(StagingFault::Ipv4Full(self.state.ipv4_max))
                    } else if !v4 && self.state.ipv6 >= self.state.ipv6_max as u64 {
                        Stage::Discard(StagingFault::Ipv6Full(self.state.ipv6_max))
                    } else {
                        Stage::Insert(prefix)
                    }
                },
                ReloadEvent::End => Stage::Activate,
                _ => Stage::Discard(StagingFault::Outside),
            },
            Stage::Insert(prefix) => if done {
                match prefix {
                    AddressPrefix::V4 { .. } => {
                        self.state.ipv4 = self.state.ipv4 + 1;
                    },
                    AddressPrefix::V6 { .. } => {
                        self.state.ipv6 = self.state.ipv6 + 1;
                    },
                }
                Stage::Read
            } else {
                Stage::Discard(StagingFault::Outside)
            },
            Stage::Discard(fault) => Stage::Failed(ReloadFailure::Staging(fault)),
            Stage::Activate => if done {
                Stage::Retire
            } else {
                Stage::Failed(ReloadFailure::Activate)
            },
            Stage::Retire => Stage::Finished,
            Stage::Finished => Stage::Finished,
            Stage::Failed(f) => Stage::Failed(f),
        };
    }
}

/// What performing `action` does to the kernel maps. An action that fails may have done part of
/// its work, but touches nothing else.
pub open spec fn performed(
    before: KernelMaps,
    action: ReloadAction,
    ok: bool,
    after: KernelMaps,
) -> bool {
    match action {
        ReloadAction::ClearSlot(slot) => {
            &&& after.control == before.control
            &&& forall|t: Table| !t.in_slot(slot) ==> #[trigger] after.entries[t] == before.entries[t]
            &&& ok ==> forall|t: Table|
                t.in_slot(slot) ==> #[trigger] after.entries[t] == Set::<AddressPrefix>::empty()
        },
        ReloadAction::Insert { table, prefix } => {
            &&& after.control == before.control
            &&& forall|t: Table| t != table ==> #[trigger] after.entries[t] == before.entries[t]
            &&& ok ==> after.entries[table] == before.entries[table].insert(prefix)
        },
        ReloadAction::Activate(control) => {
            &&& forall|t: Table| #[trigger] after.entries[t] == before.entries[t]
            &&& after.control == if ok {
                control
            } else {
                before.control
            }
        },
        _ => after == before,
    }
}

/// The prefixes that were read, in order.
pub open spec fn listed(events: Seq<ReloadEvent>) -> Seq<AddressPrefix>
    decreases events.len(),
{
    if events.len() == 0 {
        seq![]
    } else {
        match events.last() {
            ReloadEvent::Prefix(p) => listed(events.drop_last()).push(p),
            _ => listed(events.drop_last()),
        }
    }
}

/// Those of `prefixes` that belong into `table` of `slot`.
pub open spec fn share(prefixes: Seq<AddressPrefix>, slot: u32, table: Table) -> Set<AddressPrefix> {
    Set::new(|p: AddressPrefix| prefixes.contains(p) && p.table(slot) == table)
}

/// The number of IPv4 prefixes among `prefixes`.
pub open spec fn count_v4(prefixes: Seq<AddressPrefix>) -> nat
    decreases prefixes.len(),
{
    if prefixes.len() == 0 {
        0
    } else {
        count_v4(prefixes.drop_last()) + if prefixes.last().is_v4() {
            1nat
        } else {
            0nat
        }
    }
}

/// Whether `stages` and `maps` are what a reload and the kernel maps go through when the
/// actions of the reload are performed and have the outcomes `events`.
pub open spec fn is_run(
    stages: Seq<ReloadState>,
    events: Seq<ReloadEvent>,
    maps: Seq<KernelMaps>,
) -> bool {
    &&& stages.len() == events.len() + 1
    &&& maps.len() == events.len() + 1
    &&& forall|i: int|
        0 <= i < events.len() ==> {
            &&& stages[i].awaits(#[trigger] events[i])
            &&& stages[i + 1] == stages[i].next(events[i])
            &&& performed(maps[i], stages[i].planned(), !(events[i] is Failed), maps[i + 1])
        }
}

/// Whether the slot that is filled holds exactly `prefixes`.
pub open spec fn filled(r: ReloadState, maps: KernelMaps, prefixes: Seq<AddressPrefix>) -> bool {
    forall|t: Table|
        t.in_slot(r.inactive()) ==> #[trigger] maps.entries[t] == share(prefixes, r.inactive(), t)
}

/// Whether the tables of `slot` hold nothing.
pub open spec fn emptied(maps: KernelMaps, slot: u32) -> bool {
    forall|t: Table|
        t.in_slot(slot) ==> #[trigger] maps.entries[t] == Set::<AddressPrefix>::empty()
}

/// Whether the slot in use and the control record are as they were.
pub open spec fn untouched(r: ReloadState, first: KernelMaps, maps: KernelMaps) -> bool {
    &&& maps.control == first.control
    &&& forall|t: Table| t.in_slot(r.active) ==> #[trigger] maps.entries[t] == first.entries[t]
}

/// Whether the reload counted `prefixes`.
pub open spec fn counted(r: ReloadState, prefixes: Seq<AddressPrefix>) -> bool {
    r.ipv4 == count_v4(prefixes) && r.ipv6 == prefixes.len() - count_v4(prefixes)
}

/// What holds of a reload that started with the kernel maps `first` and read `prefixes`.
pub open spec fn in_step(
    r: ReloadState,
    first: KernelMaps,
    maps: KernelMaps,
    prefixes: Seq<AddressPrefix>,
) -> bool {
    match r.stage {
        Stage::Clear => untouched(r, first, maps) && prefixes.len() == 0 && r.ipv4 == 0 && r.ipv6
            == 0,
        Stage::Open => untouched(r, first, maps) && filled(r, maps, prefixes) && prefixes.len() == 0
            && r.ipv4 == 0 && r.ipv6 == 0,
        Stage::Read => untouched(r, first, maps) && filled(r, maps, prefixes) && counted(
            r,
            prefixes,
        ),
        Stage::Insert(p) => {
            &&& untouched(r, first, maps)
            &&& prefixes.len() > 0
            &&& prefixes.last() == p
            &&& filled(r, maps, prefixes.drop_last())
            &&& counted(r, prefixes.drop_last())
        },
        Stage::Discard(fault) => untouched(r, first, maps) && full_if_said(r, fault, prefixes),
        Stage::Activate => untouched(r, first, maps) && filled(r, maps, prefixes) && counted(
            r,
            prefixes,
        ),
        Stage::Retire => filled(r, maps, prefixes) && counted(r, prefixes) && maps.control
            == Control::pointing_to(r.inactive()),
        Stage::Finished => filled(r, maps, prefixes) && counted(r, prefixes) && maps.control
            == Control::pointing_to(r.inactive()),
        Stage::Failed(ReloadFailure::Staging(fault)) => untouched(r, first, maps) && full_if_said(
            r,
            fault,
            prefixes,
        ),
        Stage::Failed(_) => untouched(r, first, maps),
    }
}

/// Whether `prefixes` are more than fit, if that is the fault.
pub open spec fn full_if_said(
    r: ReloadState,
    fault: StagingFault,
    prefixes: Seq<AddressPrefix>,
) -> bool {
    match fault {
        StagingFault::Ipv4Full(max) => max == r.ipv4_max && count_v4(prefixes) == max + 1,
        StagingFault::Ipv6Full(max) => max == r.ipv6_max && prefixes.len() - count_v4(prefixes)
            == max + 1,
        StagingFault::Outside => true,
    }
}

proof fn lemma_count_v4(prefixes: Seq<AddressPrefix>)
    ensures
        count_v4(prefixes) <= prefixes.len(),
    decreases prefixes.len(),
{
    if prefixes.len() > 0 {
        lemma_count_v4(prefixes.drop_last());
    }
}

proof fn lemma_count_push(prefixes: Seq<AddressPrefix>, p: AddressPrefix)
    ensures
        count_v4(prefixes.push(p)) == count_v4(prefixes) + if p.is_v4() {
            1nat
        } else {
            0nat
        },
{
    assert(prefixes.push(p).drop_last() =~= prefixes);
}

proof fn lemma_share_push(prefixes: Seq<AddressPrefix>, p: AddressPrefix, slot: u32, table: Table)
    ensures
        share(prefixes.push(p), slot, table) == if p.table(slot) == table {
            share(prefixes, slot, table).insert(p)
        } else {
            share(prefixes, slot, table)
        },
{
    let more = prefixes.push(p);
    assert forall|q: AddressPrefix| more.contains(q) <==> prefixes.contains(q) || q == p by {
        if prefixes.contains(q) {
            let i = choose|i: int| 0 <= i < prefixes.len() && prefixes[i] == q;
            assert(more[i] == q);
        }
        assert(more[prefixes.len() as int] == p);
    }
    if p.table(slot) == table {
        assert(share(more, slot, table) =~= share(prefixes, slot, table).insert(p));
    } else {
        assert(share(more, slot, table) =~= share(prefixes, slot, table));
    }
}

/// One step of a reload keeps what [`in_step`] says.
proof fn lemma_step(
    r: ReloadState,
    first: KernelMaps,
    maps: KernelMaps,
    prefixes: Seq<AddressPrefix>,
    event: ReloadEvent,
    after: KernelMaps,
)
    requires
        r.well_formed(),
        in_step(r, first, maps, prefixes),
        r.awaits(event),
        performed(maps, r.planned(), !(event is Failed), after),
    ensures
        in_step(
            r.next(event),
            first,
            after,
            match event {
                ReloadEvent::Prefix(p) => prefixes.push(p),
                _ => prefixes,
            },
        ),
        r.next(event).well_formed(),
{
    let n = r.next(event);
    match r.stage {
        Stage::Clear => {
            if event is Done {
                assert forall|t: Table| t.in_slot(r.inactive()) implies #[trigger] after.entries[t]
                    == share(prefixes, r.inactive(), t) by {
                    assert(share(prefixes, r.inactive(), t) =~= Set::<AddressPrefix>::empty());
                }
            }
        },
        Stage::Read => {
            if let ReloadEvent::Prefix(p) = event {
                lemma_count_push(prefixes, p);
                lemma_count_v4(prefixes);
                assert(prefixes.push(p).drop_last() =~= prefixes);
            }
        },
        Stage::Insert(p) => {
            let before = prefixes.drop_last();
            assert(before.push(p) =~= prefixes);
            lemma_count_push(before, p);
            lemma_count_v4(before);
            if event is Done {
                assert forall|t: Table| t.in_slot(r.inactive()) implies #[trigger] after.entries[t]
                    == share(prefixes, r.inactive(), t) by {
                    lemma_share_push(before, p, r.inactive(), t);
                    assert(maps.entries[t] == share(before, r.inactive(), t));
                }
            }
        },
        _ => {},
    }
}

/// What [`in_step`] says holds at every point of a run.
proof fn lemma_run(
    stages: Seq<ReloadState>,
    events: Seq<ReloadEvent>,
    maps: Seq<KernelMaps>,
    n: int,
)
    requires
        is_run(stages, events, maps),
        stages[0].well_formed(),
        stages[0].stage is Clear,
        stages[0].ipv4 == 0,
        stages[0].ipv6 == 0,
        0 <= n <= events.len(),
    ensures
        in_step(stages[n], maps[0], maps[n], listed(events.take(n))),
        stages[n].well_formed(),
        stages[n].active == stages[0].active,
        stages[n].ipv4_max == stages[0].ipv4_max,
        stages[n].ipv6_max == stages[0].ipv6_max,
    decreases n,
{
    if n == 0 {
        assert(events.take(0) =~= Seq::<ReloadEvent>::empty());
    } else {
        lemma_run(stages, events, maps, n - 1);
        let event = events[n - 1];
        assert(events.take(n).drop_last() =~= events.take(n - 1));
        lemma_step(
            stages[n - 1],
            maps[0],
            maps[n - 1],
            listed(events.take(n - 1)),
            event,
            maps[n],
        );
    }
}

/// Whether a run is one of a reload that starts under the control record then in force.
pub open spec fn is_reload(
    stages: Seq<ReloadState>,
    events: Seq<ReloadEvent>,
    maps: Seq<KernelMaps>,
) -> bool {
    &&& is_run(stages, events, maps)
    &&& maps[0].control.active_slot < SLOT_COUNT
    &&& stages[0] == ReloadState::initial(
        maps[0].control.active_slot,
        stages[0].configured,
        stages[0].ipv4_max,
        stages[0].ipv6_max,
    )
}

/// Until a reload writes the control record, and for good if it fails, that record and the slot in
/// use are as they were, and the same addresses are blocked as before.
pub proof fn law_unfinished_reload_changes_nothing(
    stages: Seq<ReloadState>,
    events: Seq<ReloadEvent>,
    maps: Seq<KernelMaps>,
    address: Address,
)
    requires
        is_reload(stages, events, maps),
        !(stages.last().stage is Retire),
        !(stages.last().stage is Finished),
    ensures
        untouched(stages[0], maps[0], maps.last()),
        maps.last().control == maps[0].control,
        maps.last().blocks(address) == maps[0].blocks(address),
{
    let n = events.len() as int;
    lemma_run(stages, events, maps, n);
    assert(untouched(stages[n], maps[0], maps[n]));
    assert(address.table(maps[0].control.active_slot).in_slot(stages[n].active));
}

/// Once a reload wrote the control record, the other slot is in use, and exactly the addresses
/// that a prefix of the new list covers are blocked.
pub proof fn law_finished_reload_blocks_the_list(
    stages: Seq<ReloadState>,
    events: Seq<ReloadEvent>,
    maps: Seq<KernelMaps>,
    address: Address,
)
    requires
        is_reload(stages, events, maps),
        stages.last().stage is Retire || stages.last().stage is Finished,
    ensures
        maps.last().control == Control::pointing_to((1 - maps[0].control.active_slot) as u32),
        maps.last().control.compatible(),
        maps.last().blocks(address) <==> exists|i: int|
            0 <= i < listed(events).len() && (#[trigger] listed(events)[i]).covers(address),
{
    let n = events.len() as int;
    lemma_run(stages, events, maps, n);
    assert(events.take(n) =~= events);
    let slot = stages[n].inactive();
    let prefixes = listed(events);
    let t = address.table(slot);
    assert(t.in_slot(slot));
    assert(maps[n].entries[t] == share(prefixes, slot, t));
    if maps[n].blocks(address) {
        let p = choose|p: AddressPrefix|
            maps[n].entries[t].contains(p) && #[trigger] p.covers(address);
        let i = choose|i: int| 0 <= i < prefixes.len() && prefixes[i] == p;
        assert(prefixes[i].covers(address));
    }
    if exists|i: int| 0 <= i < prefixes.len() && (#[trigger] prefixes[i]).covers(address) {
        let i = choose|i: int| 0 <= i < prefixes.len() && (#[trigger] prefixes[i]).covers(address);
        assert(prefixes[i].table(slot) == t);
        assert(maps[n].entries[t].contains(prefixes[i]));
        assert(hit(maps[n].entries[t], address));
    }
}

/// A finished reload leaves exactly the new list in the slot now in use, and nothing in the other
/// one if that could be cleared.
pub proof fn law_finished_reload_leaves_the_list(
    stages: Seq<ReloadState>,
    events: Seq<ReloadEvent>,
    maps: Seq<KernelMaps>,
)
    requires
        is_reload(stages, events, maps),
        stages.last().stage is Finished,
    ensures
        filled(stages[0], maps.last(), listed(events)),
        events.last() is Done ==> emptied(maps.last(), stages[0].active),
{
    let n = events.len() as int;
    lemma_run(stages, events, maps, n);
    lemma_run(stages, events, maps, n - 1);
    assert(events.take(n) =~= events);
    assert(stages[n - 1].awaits(events[n - 1]));
    assert(stages[n] == stages[n - 1].next(events[n - 1]));
    assert(performed(
        maps[n - 1],
        stages[n - 1].planned(),
        !(events[n - 1] is Failed),
        maps[n],
    ));
    assert(stages[n - 1].stage is Retire);
}

/// A list that cannot be put in place leaves nothing behind in the slot that is not in use, if
/// that could be cleared.
pub proof fn law_discarded_list_leaves_nothing(
    stages: Seq<ReloadState>,
    events: Seq<ReloadEvent>,
    maps: Seq<KernelMaps>,
)
    requires
        is_reload(stages, events, maps),
        stages.last().stage matches Stage::Failed(ReloadFailure::Staging(_)),
        events.last() is Done,
    ensures
        emptied(maps.last(), stages[0].inactive()),
{
    let n = events.len() as int;
    lemma_run(stages, events, maps, n - 1);
    assert(stages[n - 1].awaits(events[n - 1]));
    assert(stages[n] == stages[n - 1].next(events[n - 1]));
    assert(performed(
        maps[n - 1],
        stages[n - 1].planned(),
        !(events[n - 1] is Failed),
        maps[n],
    ));
    assert(stages[n - 1].stage is Discard);
}

/// A frame on its way out after a reload is dropped if and only if it carries an IP packet to an
/// address that a prefix of the new list covers.
pub proof fn law_reloaded_list_is_enforced(
    stages: Seq<ReloadState>,
    events: Seq<ReloadEvent>,
    maps: Seq<KernelMaps>,
    packet: Seq<u8>,
    action: i32,
)
    requires
        is_reload(stages, events, maps),
        stages.last().stage is Retire || stages.last().stage is Finished,
        treated(packet, maps.last(), action),
    ensures
        action == TC_ACT_SHOT <==> exists|a: Address, i: int|
            #![trigger destination(a), listed(events)[i]]
            contents(packet) == destination(a) && 0 <= i < listed(events).len() && listed(
                events,
            )[i].covers(a),
{
    let prefixes = listed(events);
    if action == TC_ACT_SHOT {
        let a = choose|a: Address|
            contents(packet) == #[trigger] destination(a) && maps.last().blocks(a);
        law_finished_reload_blocks_the_list(stages, events, maps, a);
        let i = choose|i: int| 0 <= i < prefixes.len() && (#[trigger] prefixes[i]).covers(a);
        assert(contents(packet) == destination(a) && prefixes[i].covers(a));
    }
    if exists|a: Address, i: int|
        #![trigger destination(a), prefixes[i]]
        contents(packet) == destination(a) && 0 <= i < prefixes.len() && prefixes[i].covers(a) {
        let (a, i) = choose|a: Address, i: int|
            #![trigger destination(a), prefixes[i]]
            contents(packet) == destination(a) && 0 <= i < prefixes.len() && prefixes[i].covers(a);
        law_finished_reload_blocks_the_list(stages, events, maps, a);
        assert(maps.last().blocks(a));
    }
}

/// A reload goes through only if the list fits, and counts what it stored; where it fails
/// because a table is full, the list is longer than the table.
pub proof fn law_reload_respects_capacity(
    stages: Seq<ReloadState>,
    events: Seq<ReloadEvent>,
    maps: Seq<KernelMaps>,
)
    requires
        is_reload(stages, events, maps),
    ensures
        stages.last().stage is Finished ==> {
            &&& stages.last().ipv4 == count_v4(listed(events)) <= stages[0].ipv4_max
            &&& stages.last().ipv6 == listed(events).len() - count_v4(listed(events))
                <= stages[0].ipv6_max
        },
        stages.last().stage matches Stage::Failed(
            ReloadFailure::Staging(StagingFault::Ipv4Full(max)),
        ) ==> max == stages[0].ipv4_max && count_v4(listed(events)) == max + 1,
        stages.last().stage matches Stage::Failed(
            ReloadFailure::Staging(StagingFault::Ipv6Full(max)),
        ) ==> max == stages[0].ipv6_max && listed(events).len() - count_v4(listed(events)) == max
            + 1,
{
    let n = events.len() as int;
    lemma_run(stages, events, maps, n);
    assert(events.take(n) =~= events);
}

/// A table's share of a list has no more elements than the list has prefixes of its family.
proof fn lemma_share_len(prefixes: Seq<AddressPrefix>, slot: u32, table: Table)
    ensures
        share(prefixes, slot, table).finite(),
        table == Table::v4(slot) ==> share(prefixes, slot, table).len() <= count_v4(prefixes),
        table == Table::v6(slot) ==> share(prefixes, slot, table).len() <= prefixes.len()
            - count_v4(prefixes),
    decreases prefixes.len(),
{
    if prefixes.len() == 0 {
        assert(share(prefixes, slot, table) =~= Set::<AddressPrefix>::empty());
    } else {
        let front = prefixes.drop_last();
        assert(front.push(prefixes.last()) =~= prefixes);
        lemma_share_len(front, slot, table);
        lemma_share_push(front, prefixes.last(), slot, table);
    }
}

/// Where a reload with the capacities of `tc` goes through, each table of the slot now in use
/// holds no more prefixes than it has room for.
pub proof fn law_stored_list_fits_its_tables(
    stages: Seq<ReloadState>,
    events: Seq<ReloadEvent>,
    maps: Seq<KernelMaps>,
    tc: Tc,
    table: Table,
)
    requires
        is_reload(stages, events, maps),
        stages[0].ipv4_max == tc.ipv4_max_entries,
        stages[0].ipv6_max == tc.ipv6_max_entries,
        stages.last().stage is Finished,
        table.in_slot(stages[0].inactive()),
    ensures
        maps.last().entries[table].finite(),
        maps.last().entries[table].len() <= table.room(tc),
{
    law_finished_reload_leaves_the_list(stages, events, maps);
    law_reload_respects_capacity(stages, events, maps);
    lemma_share_len(listed(events), stages[0].inactive(), table);
}

/// More of a list holds at least as many prefixes of each family.
proof fn lemma_listed_grows(events: Seq<ReloadEvent>, n: int)
    requires
        0 <= n <= events.len(),
    ensures
        count_v4(listed(events.take(n))) <= count_v4(listed(events)),
        listed(events.take(n)).len() - count_v4(listed(events.take(n))) <= listed(events).len()
            - count_v4(listed(events)),
    decreases events.len() - n,
{
    if n < events.len() {
        assert(events.take(n + 1).drop_last() =~= events.take(n));
        if let ReloadEvent::Prefix(p) = events[n] {
            lemma_count_push(listed(events.take(n)), p);
        }
        lemma_listed_grows(events, n + 1);
    } else {
        assert(events.take(n) =~= events);
    }
}

proof fn lemma_goes_through(
    stages: Seq<ReloadState>,
    events: Seq<ReloadEvent>,
    maps: Seq<KernelMaps>,
    n: int,
)
    requires
        is_reload(stages, events, maps),
        stages[0].configured,
        forall|i: int| 0 <= i < events.len() ==> !(#[trigger] events[i] is Failed),
        count_v4(listed(events)) <= stages[0].ipv4_max,
        listed(events).len() - count_v4(listed(events)) <= stages[0].ipv6_max,
        0 <= n <= events.len(),
    ensures
        stages[n].configured,
        !(stages[n].stage is Failed),
        !(stages[n].stage is Discard),
    decreases n,
{
    if n > 0 {
        lemma_goes_through(stages, events, maps, n - 1);
        lemma_run(stages, events, maps, n - 1);
        let r = stages[n - 1];
        let event = events[n - 1];
        assert(stages[n] == r.next(event));
        if r.stage is Read {
            if let ReloadEvent::Prefix(p) = event {
                assert(events.take(n).drop_last() =~= events.take(n - 1));
                lemma_count_push(listed(events.take(n - 1)), p);
                lemma_listed_grows(events, n);
            }
        }
    }
}

/// A reload goes through if a list is configured, the list fits and nothing fails: two steps
/// after the end of the list it is finished.
pub proof fn law_reload_goes_through(
    stages: Seq<ReloadState>,
    events: Seq<ReloadEvent>,
    maps: Seq<KernelMaps>,
)
    requires
        is_reload(stages, events, maps),
        stages[0].configured,
        forall|i: int| 0 <= i < events.len() ==> !(#[trigger] events[i] is Failed),
        count_v4(listed(events)) <= stages[0].ipv4_max,
        listed(events).len() - count_v4(listed(events)) <= stages[0].ipv6_max,
    ensures
        !(stages.last().stage is Failed),
        events.len() >= 3 && events[events.len() - 3] is End ==> stages.last().stage is Finished,
{
    let n = events.len() as int;
    lemma_goes_through(stages, events, maps, n);
    if n >= 3 && events[n - 3] is End {
        assert(stages[n - 3].awaits(events[n - 3]));
        assert(stages[n - 2] == stages[n - 3].next(events[n - 3]));
        assert(stages[n - 2].awaits(events[n - 2]));
        assert(stages[n - 1] == stages[n - 2].next(events[n - 2]));
        assert(stages[n - 1].awaits(events[n - 1]));
        assert(stages[n] == stages[n - 1].next(events[n - 1]));
    }
}

} // verus!
