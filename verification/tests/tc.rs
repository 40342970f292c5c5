use cidrwall::classifier::{
    cidrwall_tc, try_cidrwall, verdict, Step, Truncated, HEADER_BYTES, TC_ACT_SHOT, TC_ACT_UNSPEC,
};
use cidrwall::config::{Config, Files, Nftables, Rules, Runtime, Tc, Xdp};
use cidrwall::control::{
    validate_pinned_layout, Control, LayoutError, Occasion, LAYOUT_VERSION,
};
use cidrwall::interfaces::InterfaceSet;
use cidrwall::links::{
    is_stale_pin, LinkAction, LinkFailure, Reconcile, StartupEvent,
};
use cidrwall::manager::TcManager;
use cidrwall::path::FilePath;
use cidrwall::pins::{link_dir, link_path, remove_map_pins};
use cidrwall::reload::{ReloadAction, ReloadEvent, ReloadFailure, StagingFault};
use cidrwall::resolve::{InterfaceSearch, ResolveError};
use cidrwall::table::{Address, AddressPrefix, Table};
use cidrwall::text::{decimal_string, parse_u32, trim};
use std::collections::{BTreeMap, BTreeSet};
use std::path::Path;
use cidrwall::links::StartupEvent::{Absent, Done, Failed};

fn frame(tags: &[u16], ether_type: u16, payload: &[u8]) -> Vec<u8> {
    let mut bytes = vec![0u8; 12];
    for tag in tags {
        bytes.extend_from_slice(&tag.to_be_bytes());
        bytes.extend_from_slice(&[0, 5]);
    }
    bytes.extend_from_slice(&ether_type.to_be_bytes());
    bytes.extend_from_slice(payload);
    bytes
}

fn ipv4(destination: [u8; 4]) -> Vec<u8> {
    let mut packet = vec![0u8; 20];
    packet[0] = 0x45;
    packet[12..16].copy_from_slice(&[10, 0, 0, 1]);
    packet[16..20].copy_from_slice(&destination);
    packet
}

fn ipv6(destination: [u8; 16]) -> Vec<u8> {
    let mut packet = vec![0u8; 40];
    packet[0] = 0x60;
    packet[24..40].copy_from_slice(&destination);
    packet
}

const SLOT_A: Control = Control { layout_version: LAYOUT_VERSION, active_slot: 0 };
const SLOT_B: Control = Control { layout_version: LAYOUT_VERSION, active_slot: 1 };

fn v4_of(packet: &[u8]) -> Option<[u8; 4]> {
    match try_cidrwall(packet) {
        Ok(Some(Address::V4(a))) => Some(a),
        _ => None,
    }
}

#[test]
fn actions_have_the_kernel_values() {
    assert_eq!(i64::from(TC_ACT_SHOT), i64::from(aya_ebpf::bindings::TC_ACT_SHOT));
    assert_eq!(i64::from(TC_ACT_UNSPEC), i64::from(aya_ebpf::bindings::TC_ACT_UNSPEC));
    assert_eq!(verdict(true), TC_ACT_SHOT);
    assert_eq!(verdict(false), TC_ACT_UNSPEC);
}

#[test]
fn finds_ipv4_destinations_behind_vlan_tags() {
    let to = [192, 0, 2, 7];
    assert_eq!(v4_of(&frame(&[], 0x0800, &ipv4(to))), Some(to));
    assert_eq!(v4_of(&frame(&[0x8100], 0x0800, &ipv4(to))), Some(to));
    assert_eq!(v4_of(&frame(&[0x88a8, 0x8100], 0x0800, &ipv4(to))), Some(to));
    assert!(matches!(
        try_cidrwall(&frame(&[0x88a8, 0x8100, 0x8100], 0x0800, &ipv4(to))),
        Ok(None)
    ));
}

#[test]
fn finds_ipv6_destinations() {
    let to = [0x20, 1, 0xd, 0xb8, 0, 0, 0, 0, 0, 0, 0, 0, 0, 0, 0, 9];
    match try_cidrwall(&frame(&[0x8100], 0x86dd, &ipv6(to))) {
        Ok(Some(Address::V6(a))) => assert_eq!(a, to),
        other => panic!("{:?}", other),
    }
}

#[test]
fn leaves_other_frames_alone() {
    assert!(matches!(try_cidrwall(&frame(&[], 0x0806, &[0; 40])), Ok(None)));
    let mut wrong_version = ipv4([1, 2, 3, 4]);
    wrong_version[0] = 0x65;
    assert!(matches!(try_cidrwall(&frame(&[], 0x0800, &wrong_version)), Ok(None)));
    let mut short_header = ipv4([1, 2, 3, 4]);
    short_header[0] = 0x44;
    assert!(matches!(try_cidrwall(&frame(&[], 0x0800, &short_header)), Ok(None)));
    let mut not_v6 = ipv6([0; 16]);
    not_v6[0] = 0x45;
    assert!(matches!(try_cidrwall(&frame(&[], 0x86dd, &not_v6)), Ok(None)));
}

#[test]
fn cut_frames_pass() {
    let whole = frame(&[0x8100], 0x0800, &ipv4([1, 2, 3, 4]));
    for n in 0..whole.len() {
        assert!(matches!(try_cidrwall(&whole[..n]), Err(Truncated)), "{}", n);
        assert!(matches!(cidrwall_tc(&whole[..n], None), Step::Verdict(TC_ACT_UNSPEC)));
    }
    let whole = frame(&[], 0x86dd, &ipv6([7; 16]));
    for n in 0..whole.len() {
        assert!(matches!(try_cidrwall(&whole[..n]), Err(Truncated)), "{}", n);
    }
    assert!(try_cidrwall(&whole).is_ok());
}

#[test]
fn lookups_go_to_the_active_slot() {
    let packet = frame(&[], 0x0800, &ipv4([1, 2, 3, 4]));
    for (control, expected) in [
        (None, Table::Ipv4A),
        (Some(SLOT_A), Table::Ipv4A),
        (Some(SLOT_B), Table::Ipv4B),
    ] {
        match cidrwall_tc(&packet, control) {
            Step::Lookup { table, address: Address::V4(a) } => {
                assert_eq!(table, expected);
                assert_eq!(a, [1, 2, 3, 4]);
            }
            other => panic!("{:?}", other),
        }
    }
    match cidrwall_tc(&frame(&[], 0x86dd, &ipv6([1; 16])), Some(SLOT_B)) {
        Step::Lookup { table, .. } => assert_eq!(table, Table::Ipv6B),
        other => panic!("{:?}", other),
    }
}

#[test]
fn control_records_are_adopted_or_refused() {
    let blank = Control { layout_version: 0, active_slot: 0 };
    assert_eq!(blank.adopt(), Ok(Some(SLOT_A)));
    assert_eq!(SLOT_B.adopt(), Ok(None));
    let bad_slot = Control { layout_version: LAYOUT_VERSION, active_slot: 2 };
    let mismatch = LayoutError::Incompatible { layout_version: LAYOUT_VERSION, active_slot: 2 };
    assert_eq!(bad_slot.adopt(), Err(mismatch));
    assert_eq!(bad_slot.check(), Err(mismatch));
    assert!(Control { layout_version: LAYOUT_VERSION + 1, active_slot: 0 }.adopt().is_err());
    assert_eq!(validate_pinned_layout(None), Err(LayoutError::Missing));
    assert_eq!(validate_pinned_layout(Some(SLOT_B)), Ok(()));
    assert_eq!(validate_pinned_layout(Some(bad_slot)), Err(mismatch));
    assert!(validate_pinned_layout(Some(blank)).is_err());
}

fn config(outbound: Option<&str>) -> Config {
    let mut files = Files::default();
    files.outbound = outbound.map(FilePath::new);
    Config {
        files,
        zones: None,
        nftables: Nftables::default(),
        xdp: Xdp::default(),
        tc: Tc::default(),
        runtime: Runtime::default(),
        rules: Rules::default(),
    }
}

fn manager(ipv4_max: u32, ipv6_max: u32, interfaces: &[(u32, &str)], links: &[u32]) -> TcManager {
    let mut tc = Tc::default();
    tc.ipv4_max_entries = ipv4_max;
    tc.ipv6_max_entries = ipv6_max;
    let (mut m, _) =
        TcManager::new(tc, names(&["eth1", "eth0"]), by_index(interfaces), SLOT_A).unwrap();
    m.links = links.iter().copied().collect();
    m
}

fn by_index(interfaces: &[(u32, &str)]) -> BTreeMap<u32, String> {
    interfaces.iter().map(|(i, n)| (*i, n.to_string())).collect()
}

fn v4(last: u8) -> AddressPrefix {
    AddressPrefix::V4 { address: [10, 0, 0, last], prefix_len: 32 }
}

fn v6(last: u8) -> AddressPrefix {
    let mut address = [0; 16];
    address[15] = last;
    AddressPrefix::V6 { address, prefix_len: 128 }
}

/// Performs a reload of `list` in which the action number `fail_at` fails, and tells what was
/// done, how it ended and how many prefixes were counted.
fn run_reload(
    m: &TcManager,
    config: &Config,
    control: Control,
    list: &[AddressPrefix],
    fail_at: usize,
) -> (Vec<String>, Option<ReloadFailure>, (u64, u64)) {
    let mut reload = m.reload(config, control);
    let mut log = Vec::new();
    let mut rest = list.iter();
    loop {
        let action = reload.action();
        let event = match action {
            ReloadAction::Finish => return (log, None, (reload.state().ipv4, reload.state().ipv6)),
            ReloadAction::Fail(f) => return (log, Some(f), (reload.state().ipv4, reload.state().ipv6)),
            ReloadAction::ReadPrefix => match rest.next() {
                Some(p) => ReloadEvent::Prefix(*p),
                None => ReloadEvent::End,
            },
            ReloadAction::ClearSlot(slot) => {
                log.push(format!("clear {}", slot));
                ReloadEvent::Done
            }
            ReloadAction::OpenBlocklist => {
                log.push("open".to_string());
                ReloadEvent::Done
            }
            ReloadAction::Insert { table, .. } => {
                log.push(format!("insert {}", table.name()));
                ReloadEvent::Done
            }
            ReloadAction::Activate(c) => {
                log.push(format!("activate {} {}", c.layout_version, c.active_slot));
                ReloadEvent::Done
            }
        };
        let failed = log.len() == fail_at && matches!(event, ReloadEvent::Done);
        reload.advance(if failed { ReloadEvent::Failed } else { event });
    }
}

const NEVER: usize = usize::MAX;

#[test]
fn reload_fills_the_other_slot_and_switches() {
    let m = manager(2, 1, &[], &[]);
    let c = config(Some("/data/outbound.txt"));
    let (log, end, counts) = run_reload(&m, &c, SLOT_A, &[v4(1), v6(1), v4(2)], NEVER);
    assert_eq!(
        log,
        [
            "clear 1",
            "open",
            "insert IPV4_B",
            "insert IPV6_B",
            "insert IPV4_B",
            "activate 1 1",
            "clear 0"
        ]
    );
    assert_eq!(end, None);
    assert_eq!(counts, (2, 1));

    let (log, end, _) = run_reload(&m, &c, SLOT_B, &[v4(1)], NEVER);
    assert_eq!(log, ["clear 0", "open", "insert IPV4_A", "activate 1 0", "clear 1"]);
    assert_eq!(end, None);
}

fn covers(prefix: &AddressPrefix, address: &Address) -> bool {
    let (a, b, len) = match (prefix, address) {
        (AddressPrefix::V4 { address, prefix_len }, Address::V4(b)) => {
            (address.to_vec(), b.to_vec(), *prefix_len)
        }
        (AddressPrefix::V6 { address, prefix_len }, Address::V6(b)) => {
            (address.to_vec(), b.to_vec(), *prefix_len)
        }
        _ => return false,
    };
    (0..usize::from(len)).all(|i| (a[i / 8] ^ b[i / 8]) >> (7 - i % 8) & 1 == 0)
}

/// The kernel maps: the control record, and the prefixes of each table by its name.
struct Kernel {
    control: Control,
    tables: BTreeMap<String, Vec<AddressPrefix>>,
}

impl Kernel {
    fn reload(&mut self, list: &[AddressPrefix]) {
        let mut reload = manager(9, 9, &[], &[]).reload(&config(Some("/x")), self.control);
        let mut rest = list.iter();
        loop {
            let event = match reload.action() {
                ReloadAction::Finish => return,
                ReloadAction::Fail(failure) => panic!("{:?}", failure),
                ReloadAction::OpenBlocklist => ReloadEvent::Done,
                ReloadAction::ReadPrefix => match rest.next() {
                    Some(p) => ReloadEvent::Prefix(*p),
                    None => ReloadEvent::End,
                },
                ReloadAction::ClearSlot(slot) => {
                    self.tables.remove(Table::for_v4(slot).name());
                    self.tables.remove(Table::for_v6(slot).name());
                    ReloadEvent::Done
                }
                ReloadAction::Insert { table, prefix } => {
                    self.tables.entry(table.name().to_string()).or_default().push(prefix);
                    ReloadEvent::Done
                }
                ReloadAction::Activate(control) => {
                    self.control = control;
                    ReloadEvent::Done
                }
            };
            reload.advance(event);
        }
    }

    fn action(&self, packet: &[u8]) -> i32 {
        match cidrwall_tc(packet, Some(self.control)) {
            Step::Verdict(action) => action,
            Step::Lookup { table, address } => verdict(
                self.tables
                    .get(table.name())
                    .is_some_and(|entries| entries.iter().any(|p| covers(p, &address))),
            ),
        }
    }
}

#[test]
fn the_reloaded_list_is_enforced() {
    let mut kernel = Kernel { control: SLOT_A, tables: BTreeMap::new() };
    let to = |address| frame(&[0x8100], 0x0800, &ipv4(address));
    let lan = AddressPrefix::V4 { address: [10, 1, 0, 0], prefix_len: 16 };
    assert_eq!(kernel.action(&to([10, 1, 2, 3])), TC_ACT_UNSPEC);
    kernel.reload(&[lan, v6(7)]);
    assert_eq!(kernel.control, SLOT_B);
    assert_eq!(kernel.action(&to([10, 1, 2, 3])), TC_ACT_SHOT);
    assert_eq!(kernel.action(&to([10, 2, 2, 3])), TC_ACT_UNSPEC);
    let mut last = [0; 16];
    last[15] = 7;
    assert_eq!(kernel.action(&frame(&[], 0x86dd, &ipv6(last))), TC_ACT_SHOT);
    kernel.reload(&[v4(1)]);
    assert_eq!(kernel.control, SLOT_A);
    assert_eq!(kernel.action(&to([10, 1, 2, 3])), TC_ACT_UNSPEC);
    assert_eq!(kernel.action(&to([10, 0, 0, 1])), TC_ACT_SHOT);
    assert_eq!(kernel.action(&frame(&[], 0x86dd, &ipv6(last))), TC_ACT_UNSPEC);
}

#[test]
fn headers_decide() {
    let mut packet = frame(&[0x88a8, 0x8100], 0x86dd, &ipv6([5; 16]));
    assert_eq!(packet.len(), HEADER_BYTES);
    let address = |packet: &[u8]| match try_cidrwall(packet) {
        Ok(Some(Address::V6(a))) => a,
        other => panic!("{:?}", other),
    };
    assert_eq!(address(&packet), [5; 16]);
    packet.extend_from_slice(&[0xff; 100]);
    assert_eq!(address(&packet), address(&packet[..HEADER_BYTES]));
}

#[test]
fn reload_refuses_lists_that_do_not_fit() {
    let m = manager(1, 1, &[], &[]);
    let c = config(Some("/data/outbound.txt"));
    let (log, end, _) = run_reload(&m, &c, SLOT_A, &[v4(1), v6(1), v4(2), v4(3)], NEVER);
    assert_eq!(end, Some(ReloadFailure::Staging(StagingFault::Ipv4Full(1))));
    assert_eq!(log, ["clear 1", "open", "insert IPV4_B", "insert IPV6_B", "clear 1"]);
    let (_, end, _) = run_reload(&m, &c, SLOT_A, &[v6(1), v6(2)], NEVER);
    assert_eq!(end, Some(ReloadFailure::Staging(StagingFault::Ipv6Full(1))));
}

#[test]
fn reload_failures_leave_the_active_slot_alone() {
    let m = manager(9, 9, &[], &[]);
    let c = config(Some("/data/outbound.txt"));
    let list = [v4(1)];
    let ends = [
        (1, ReloadFailure::Clear, vec!["clear 1"]),
        (2, ReloadFailure::Open, vec!["clear 1", "open"]),
        (
            3,
            ReloadFailure::Staging(StagingFault::Outside),
            vec!["clear 1", "open", "insert IPV4_B", "clear 1"],
        ),
        (
            4,
            ReloadFailure::Activate,
            vec!["clear 1", "open", "insert IPV4_B", "activate 1 1"],
        ),
    ];
    for (fail_at, failure, steps) in ends {
        let (log, end, _) = run_reload(&m, &c, SLOT_A, &list, fail_at);
        assert_eq!(end, Some(failure));
        assert_eq!(log, steps);
    }
    // What is left in the slot that went out of use does no harm.
    let (_, end, _) = run_reload(&m, &c, SLOT_A, &list, 5);
    assert_eq!(end, None);
    let (log, end, _) = run_reload(&m, &config(None), SLOT_A, &list, NEVER);
    assert_eq!(end, Some(ReloadFailure::NotConfigured));
    assert_eq!(log, ["clear 1"]);
}

#[test]
fn reading_errors_discard_what_was_staged() {
    let m = manager(9, 9, &[], &[]);
    let mut reload = m.reload(&config(Some("/x")), SLOT_A);
    reload.advance(ReloadEvent::Done);
    reload.advance(ReloadEvent::Done);
    reload.advance(ReloadEvent::Failed);
    assert!(matches!(reload.action(), ReloadAction::ClearSlot(1)));
    reload.advance(ReloadEvent::Failed);
    assert!(matches!(
        reload.action(),
        ReloadAction::Fail(ReloadFailure::Staging(StagingFault::Outside))
    ));
}

fn run_reconcile(run: &mut Reconcile, oks: &[bool]) -> Vec<LinkAction> {
    let mut actions = Vec::new();
    for ok in oks {
        actions.push(run.action());
        run.advance(*ok);
    }
    actions.push(run.action());
    actions
}

fn set(items: &[u32]) -> BTreeSet<u32> {
    items.iter().copied().collect()
}

#[test]
fn reconcile_drops_obsolete_and_adds_missing_links() {
    let mut m = manager(1, 1, &[(2, "eth0"), (3, "eth1")], &[2, 3]);
    let current = by_index(&[(3, "eth1"), (7, "eth2"), (5, "eth3")]);
    let mut run = m.reconcile_links(&current);
    let actions = run_reconcile(&mut run, &[true; 5]);
    assert_eq!(
        actions,
        [
            LinkAction::Unpin(2),
            LinkAction::Attach(5),
            LinkAction::Pin(5),
            LinkAction::Attach(7),
            LinkAction::Pin(7),
            LinkAction::Finish
        ]
    );
    m.reconciled(run, current);
    assert_eq!(m.links, set(&[3, 5, 7]));
    assert_eq!(m.interfaces.len(), 3);

    let current = by_index(&[(3, "eth1"), (7, "eth2"), (5, "eth3")]);
    assert_eq!(m.reconcile_links(&current).action(), LinkAction::Finish);
}

#[test]
fn reconcile_takes_back_new_links_when_attaching_fails() {
    let mut m = manager(1, 1, &[], &[4]);
    let current = by_index(&[(4, "a"), (5, "b"), (6, "c"), (7, "d")]);
    let mut run = m.reconcile_links(&current);
    let actions = run_reconcile(&mut run, &[true, true, true, true, false, true, false]);
    assert_eq!(
        actions[4..],
        [
            LinkAction::Attach(7),
            LinkAction::Unpin(5),
            LinkAction::Unpin(6),
            LinkAction::Fail(LinkFailure::Attach(7))
        ]
    );
    m.reconciled(run, current);
    assert_eq!(m.links, set(&[4]));
    assert_eq!(m.interfaces.len(), 4);
}

#[test]
fn reconcile_stops_at_pin_and_unpin_failures() {
    let mut m = manager(1, 1, &[(1, "a")], &[1, 2]);
    let mut run = m.reconcile_links(&by_index(&[(9, "z")]));
    let actions = run_reconcile(&mut run, &[false]);
    assert_eq!(actions, [LinkAction::Unpin(1), LinkAction::Fail(LinkFailure::Unpin(1))]);
    m.reconciled(run, by_index(&[(9, "z")]));
    assert_eq!(m.links, set(&[2]));
    assert_eq!(m.interfaces, by_index(&[(1, "a")]));

    let mut m = manager(1, 1, &[], &[]);
    let current = by_index(&[(1, "a"), (2, "b")]);
    let mut run = m.reconcile_links(&current);
    let actions = run_reconcile(&mut run, &[true, true, true, false]);
    assert_eq!(actions[4], LinkAction::Fail(LinkFailure::Pin(2)));
    m.reconciled(run, current);
    assert_eq!(m.links, set(&[1]));

    let mut run = manager(1, 1, &[], &[]).reconcile_links(&by_index(&[(1, "a")]));
    let actions = run_reconcile(&mut run, &[false]);
    assert_eq!(actions[1], LinkAction::Fail(LinkFailure::Attach(1)));
}

fn run_startup(m: &mut TcManager, events: &[StartupEvent]) -> Vec<LinkAction> {
    let (_, mut run) = m.activate(&Vec::new());
    let mut actions = Vec::new();
    for event in events {
        actions.push(run.action());
        run.advance(*event);
    }
    actions.push(run.action());
    m.activated(run);
    actions
}

#[test]
fn startup_replaces_old_links() {
    let mut m = manager(1, 1, &[(8, "eth1"), (2, "eth0")], &[]);
    let actions = run_startup(&mut m, &[Done, Done, Done, Done, Absent, Done, Done]);
    assert_eq!(
        actions,
        [
            LinkAction::Probe(2),
            LinkAction::Attach(2),
            LinkAction::Release(2),
            LinkAction::Pin(2),
            LinkAction::Probe(8),
            LinkAction::Attach(8),
            LinkAction::Pin(8),
            LinkAction::Finish
        ]
    );
    assert_eq!(m.links, set(&[2, 8]));
    assert_eq!(run_startup(&mut manager(1, 1, &[], &[]), &[]), [LinkAction::Finish]);
}

#[test]
fn startup_restores_the_old_link_when_pinning_fails() {
    let start = || manager(1, 1, &[(2, "eth0")], &[]);
    let last = |events: &[StartupEvent]| {
        let mut m = start();
        let actions = run_startup(&mut m, events);
        assert!(m.links.is_empty());
        actions[actions.len() - 1]
    };
    assert_eq!(last(&[Done, Done, Done, Failed]), LinkAction::Restore(2));
    assert_eq!(
        last(&[Done, Done, Done, Failed, Failed]),
        LinkAction::Fail(LinkFailure::Pin(2))
    );
    assert_eq!(last(&[Absent, Done, Failed]), LinkAction::Fail(LinkFailure::Pin(2)));
    assert_eq!(last(&[Failed]), LinkAction::Fail(LinkFailure::Probe(2)));
    assert_eq!(last(&[Absent, Failed]), LinkAction::Fail(LinkFailure::Attach(2)));
    assert_eq!(last(&[Done, Done, Failed]), LinkAction::Fail(LinkFailure::Unpin(2)));
}

#[test]
fn filtered_interfaces_stay_filtered_at_startup() {
    // Whether a link is pinned, the old one is attached, and a new one is.
    for fail_at in 0..9 {
        let mut kernel = BTreeMap::from([(2, (true, true, false)), (5, (true, true, false))]);
        let m = manager(1, 1, &[(2, "eth0"), (5, "eth1")], &[]);
        let (_, mut run) = m.activate(&Vec::new());
        let mut step = 0;
        loop {
            let failed = step == fail_at;
            match run.action() {
                LinkAction::Probe(_) => {}
                LinkAction::Attach(i) => kernel.get_mut(&i).unwrap().2 = !failed,
                LinkAction::Release(i) => kernel.get_mut(&i).unwrap().0 = failed,
                LinkAction::Pin(i) if failed => kernel.get_mut(&i).unwrap().2 = false,
                LinkAction::Pin(i) => *kernel.get_mut(&i).unwrap() = (true, false, true),
                LinkAction::Restore(i) => kernel.get_mut(&i).unwrap().0 = true,
                LinkAction::Unpin(_) => unreachable!(),
                LinkAction::Finish | LinkAction::Fail(_) => break,
            }
            run.advance(if failed { Failed } else { Done });
            step += 1;
            assert!(kernel.values().all(|(_, old, new)| *old || *new), "{} {}", fail_at, step);
        }
        assert!(kernel.values().all(|(pinned, _, _)| *pinned), "{}", fail_at);
        assert_eq!(matches!(run.action(), LinkAction::Finish), fail_at == 8);
    }
}

#[test]
fn stale_pins_are_known_by_their_names() {
    let wanted = by_index(&[(3, "eth0")]);
    assert!(!is_stale_pin("3", &wanted));
    assert!(!is_stale_pin("+03", &wanted));
    assert!(is_stale_pin("4", &wanted));
    assert!(!is_stale_pin("4.bak", &wanted));
    assert!(!is_stale_pin("-4", &wanted));
    assert!(!is_stale_pin("", &wanted));
    assert!(!is_stale_pin("4294967296", &wanted));
    assert!(is_stale_pin("4294967295", &wanted));
}

#[test]
fn activation_unpins_stale_links_first() {
    let m = manager(1, 1, &[(3, "eth0"), (12, "eth1")], &[]);
    let found = ["12", "7", "notes", "+3", "03", "99"].map(String::from).to_vec();
    let (stale, run) = m.activate(&found);
    assert_eq!(stale, ["7", "99"]);
    assert_eq!(run.action(), LinkAction::Probe(3));
}

#[test]
fn reloads_name_the_outbound_list() {
    let m = manager(1, 1, &[], &[]);
    let mut c = config(Some("/data/outbound.txt"));
    c.files.inbound = Some(FilePath::new("/data/inbound.txt"));
    let mut reload = m.reload(&c, SLOT_A);
    reload.advance(ReloadEvent::Done);
    assert!(matches!(reload.action(), ReloadAction::OpenBlocklist));
    assert_eq!(bytes(reload.blocklist().unwrap()), "/data/outbound.txt");
    c.files.outbound = None;
    assert!(m.reload(&c, SLOT_A).blocklist().is_none());
}

#[test]
fn failures_have_their_messages() {
    let text = |failure: ReloadFailure| failure.message();
    assert_eq!(
        text(ReloadFailure::NotConfigured).unwrap(),
        "outbound blocklist is not configured for TC"
    );
    assert_eq!(
        text(ReloadFailure::Staging(StagingFault::Ipv4Full(70))).unwrap(),
        "TC IPv4 map capacity exceeded (70)"
    );
    assert_eq!(
        text(ReloadFailure::Staging(StagingFault::Ipv6Full(5_000_000))).unwrap(),
        "TC IPv6 map capacity exceeded (5000000)"
    );
    for failure in [
        ReloadFailure::Clear,
        ReloadFailure::Open,
        ReloadFailure::Activate,
        ReloadFailure::Staging(StagingFault::Outside),
    ] {
        assert_eq!(text(failure), None);
    }

    let foreign = LayoutError::Incompatible { layout_version: 7, active_slot: 10 };
    assert_eq!(
        foreign.message(Occasion::Start, "/pins"),
        "/pins contains an incompatible TC map layout (version=7, active_slot=10)"
    );
    assert_eq!(
        foreign.message(Occasion::Reconcile, "/pins"),
        "TC control map has an incompatible layout"
    );
    assert_eq!(
        foreign.message(Occasion::Cleanup, "/pins"),
        "refusing to clean an incompatible TC layout at /pins"
    );
    assert_eq!(
        LayoutError::Missing.message(Occasion::Cleanup, "/pins"),
        "no cidrwall TC state exists at /pins"
    );

    let name = || "eth0".to_string();
    assert_eq!(
        ResolveError::InvalidName(name()).message("\"eth0\""),
        "invalid interface name \"eth0\""
    );
    assert_eq!(
        ResolveError::Missing(name()).message("\"eth0\""),
        "TC interface \"eth0\" does not exist"
    );
    assert_eq!(
        ResolveError::Unreadable(name()).message("/sys/class/net/eth0/ifindex"),
        "read interface index from /sys/class/net/eth0/ifindex"
    );
    assert_eq!(
        ResolveError::SharedIndex(12).message(""),
        "multiple TC interfaces resolved to ifindex 12"
    );
}

#[test]
fn other_header_fields_do_not_count() {
    let mut packet = frame(&[], 0x0800, &ipv4([9, 8, 7, 6]));
    for i in (0..12).chain(15..30) {
        packet[i] = 0xee;
    }
    assert_eq!(v4_of(&packet), Some([9, 8, 7, 6]));
}

fn bytes(path: &FilePath) -> String {
    String::from_utf8(path.bytes.clone()).unwrap()
}

#[test]
fn pins_stand_below_the_pin_path() {
    let mut tc = Tc::default();
    assert_eq!(bytes(&link_dir(&tc)), "/sys/fs/bpf/cidrwall-tc/links");
    assert_eq!(bytes(&link_path(&tc, 4_000_000_000)), "/sys/fs/bpf/cidrwall-tc/links/4000000000");
    tc.pin_path = FilePath::new("/pins/");
    assert_eq!(bytes(&link_path(&tc, 0)), "/pins/links/0");

    let plan: Vec<(String, bool)> = remove_map_pins(&FilePath::new("/pins"))
        .iter()
        .map(|r| (bytes(&r.path), r.is_directory))
        .collect();
    let expected = [
        ("/pins/CONTROL", false),
        ("/pins/IPV4_A", false),
        ("/pins/IPV4_B", false),
        ("/pins/IPV6_A", false),
        ("/pins/IPV6_B", false),
        ("/pins/links", true),
        ("/pins", true),
    ];
    assert_eq!(plan, expected.map(|(p, d)| (p.to_string(), d)));
}

#[test]
fn managers_start_from_the_record_found() {
    let start = |control| TcManager::new(Tc::default(), InterfaceSet::new(), by_index(&[]), control);
    let (m, write) = start(Control { layout_version: 0, active_slot: 9 }).unwrap();
    assert!(m.links.is_empty());
    assert_eq!(write, Some(SLOT_A));
    assert_eq!(start(SLOT_B).unwrap().1, None);
    assert!(matches!(
        start(Control { layout_version: 7, active_slot: 0 }),
        Err(LayoutError::Incompatible { layout_version: 7, active_slot: 0 })
    ));
}

#[test]
fn reconciling_starts_with_a_sound_record() {
    let m = manager(1, 1, &[(2, "eth0")], &[2]);
    let search = m.reconcile(SLOT_B).unwrap();
    assert_eq!(bytes(&search.request().unwrap().unwrap()), "/sys/class/net/eth0/ifindex");
    let bad = Control { layout_version: LAYOUT_VERSION, active_slot: 2 };
    assert!(m.reconcile(bad).is_err());
}

#[test]
fn tables_have_the_capacity_of_their_family() {
    let mut tc = Tc::default();
    tc.ipv4_max_entries = 4;
    tc.ipv6_max_entries = 6;
    let tables = [Table::Ipv4A, Table::Ipv4B, Table::Ipv6A, Table::Ipv6B];
    assert_eq!(tables.map(|t| t.capacity(&tc)), [4, 4, 6, 6]);
}

#[test]
fn a_second_cleanup_finds_nothing() {
    let tc = Tc::default();
    let root = "/sys/fs/bpf/cidrwall-tc";
    let record = format!("{}/CONTROL", root);
    let mut places: BTreeSet<String> =
        ["/", "/sys", "/sys/fs", "/sys/fs/bpf", root, &record].map(String::from).into();
    for name in ["IPV4_A", "IPV4_B", "IPV6_A", "IPV6_B", "links"] {
        places.insert(format!("{}/{}", root, name));
    }
    let found = |places: &BTreeSet<String>| places.contains(&record).then_some(SLOT_A);
    for removal in TcManager::cleanup_pinned(&tc, found(&places)).unwrap() {
        let place = bytes(&removal.path);
        assert!(!places.iter().any(|p| p.starts_with(&format!("{}/", place))));
        places.remove(&place);
    }
    assert_eq!(places.len(), 4);
    assert!(matches!(
        TcManager::cleanup_pinned(&tc, found(&places)),
        Err(LayoutError::Missing)
    ));
}

#[test]
fn cleanup_removes_links_then_pins() {
    let mut m = manager(1, 1, &[], &[9, 3]);
    m.config.pin_path = FilePath::new("/pins");
    let cleanup = m.cleanup();
    assert_eq!(cleanup.links, [3, 9]);
    assert_eq!(cleanup.pins.len(), 7);
    assert_eq!(bytes(&cleanup.pins[0].path), "/pins/CONTROL");
    assert_eq!(bytes(&cleanup.pins[6].path), "/pins");
}

#[test]
fn pinned_state_is_removed_only_if_it_is_ours() {
    let tc = Tc::default();
    let plan = TcManager::cleanup_pinned(&tc, Some(SLOT_B)).unwrap();
    assert_eq!(plan.len(), 7);
    assert_eq!(bytes(&plan[5].path), "/sys/fs/bpf/cidrwall-tc/links");
    assert!(matches!(TcManager::cleanup_pinned(&tc, None), Err(LayoutError::Missing)));
    let foreign = Control { layout_version: LAYOUT_VERSION + 1, active_slot: 0 };
    assert!(matches!(
        TcManager::cleanup_pinned(&tc, Some(foreign)),
        Err(LayoutError::Incompatible { .. })
    ));
}

fn names(items: &[&str]) -> InterfaceSet {
    let mut set = InterfaceSet::new();
    for item in items {
        set.insert(item.to_string());
    }
    set
}

#[test]
fn interfaces_are_found_by_index() {
    let mut search = InterfaceSearch::start(&names(&["eth1", "eth0"]));
    assert_eq!(bytes(&search.request().unwrap().unwrap()), "/sys/class/net/eth0/ifindex");
    search.supply(Some("7\n")).unwrap();
    assert_eq!(bytes(&search.request().unwrap().unwrap()), "/sys/class/net/eth1/ifindex");
    search.supply(Some(" 2 \n")).unwrap();
    assert!(search.request().unwrap().is_none());
    assert_eq!(search.finish(), by_index(&[(2, "eth1"), (7, "eth0")]));
}

#[test]
fn interface_errors_are_told_apart() {
    for bad in ["a/b", "/", ".", ".."] {
        match InterfaceSearch::start(&names(&[bad])).request() {
            Err(ResolveError::InvalidName(name)) => assert_eq!(name, bad),
            other => panic!("{:?}", other),
        }
    }
    assert!(InterfaceSearch::start(&names(&["..."])).request().is_ok());
    let start = || InterfaceSearch::start(&names(&["eth0", "eth1"]));
    match start().supply(None) {
        Err(ResolveError::Missing(name)) => assert_eq!(name, "eth0"),
        other => panic!("{:?}", other),
    }
    match start().supply(Some("two")) {
        Err(ResolveError::Unreadable(name)) => assert_eq!(name, "eth0"),
        other => panic!("{:?}", other),
    }
    let mut search = start();
    search.supply(Some("3")).unwrap();
    assert!(matches!(search.supply(Some("3")), Err(ResolveError::SharedIndex(3))));
}

#[test]
fn numbers_read_back() {
    for n in [0, 1, 9, 10, 4_294_967_295] {
        assert_eq!(decimal_string(n), n.to_string());
        let chars: Vec<char> = decimal_string(n).chars().collect();
        assert_eq!(parse_u32(&chars), Some(n));
    }
}

#[test]
fn numbers_are_read_as_std_reads_them() {
    for s in ["", "+", "-0", "+7", "007", "4294967295", "4294967296", "99999999999999999999", "1a", " 1"] {
        let chars: Vec<char> = s.chars().collect();
        assert_eq!(parse_u32(&chars), s.parse::<u32>().ok(), "{:?}", s);
    }
}

#[test]
fn text_is_trimmed_as_std_trims_it() {
    for s in ["", " ", "a", " a b\n", "\u{3000}x\u{85}", "\u{200b}y", "\u{a0}\u{2029}z\u{1680}\t"] {
        assert_eq!(trim(s).iter().collect::<String>(), s.trim(), "{:?}", s);
    }
    for c in (0..=0x10ffffu32).filter_map(char::from_u32) {
        assert_eq!(trim(&c.to_string()).is_empty(), c.is_whitespace(), "{:?}", c);
    }
}

#[test]
fn names_are_ordered_as_std_orders_them() {
    let items = ["eth10", "eth2", "", "\u{e9}", "z", "eth", "eth2", "\u{10000}", "\u{ffff}"];
    let expected: Vec<String> =
        items.iter().map(|s| s.to_string()).collect::<BTreeSet<String>>().into_iter().collect();
    assert_eq!(*names(&items).names(), expected);
    assert!(names(&items).contains(&"eth".to_string()));
    assert!(!names(&items).contains(&"eth1".to_string()));
    assert!(names(&[]).is_empty());
    let mut both = names(&["a", "c"]);
    both.extend(&names(&["b", "c"]));
    assert_eq!(*both.names(), ["a", "b", "c"]);
}

#[test]
fn paths_are_compared_and_joined_as_std_does() {
    let samples = [
        "", "/", "//", ".", "./", "./a", "a", "a/", "a/.", "a//b", "a/b", "/a", "/a/", "/./a",
        "/a/../b", "/b", "..", "../a", ".a", "/.a", "a/./b/", "./.", "/.", ". ",
    ];
    for a in samples {
        for b in samples {
            let same = FilePath::new(a).same_as(&FilePath::new(b));
            assert_eq!(same, Path::new(a) == Path::new(b), "{:?} {:?}", a, b);
            let joined = Path::new(a).join(b);
            assert_eq!(bytes(&FilePath::new(a).join(b)), joined.to_str().unwrap());
        }
        assert_eq!(FilePath::new(a).is_absolute(), Path::new(a).is_absolute());
        assert_eq!(FilePath::new(a).is_empty(), a.is_empty());
    }
}
