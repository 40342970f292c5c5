use cidrwall::config::{
    CleanupTarget, Cli, Config, Direction, Files, Nftables, RuleMapping, Rules, Runtime, Tc,
    TcAttachOrder, TcRule, Xdp, XdpMode, XdpRule,
};
use cidrwall::error::{ConfigError, Defect};
use cidrwall::path::FilePath;
use cidrwall::validate::{Validation, ZoneSource};
use cidrwall::zones::{Chain, Zone, Zones};
use std::time::Duration;

fn path(s: &str) -> FilePath {
    FilePath::new(s)
}

fn strings(names: &[&str]) -> Vec<String> {
    names.iter().map(|n| n.to_string()).collect()
}

fn zone(interfaces: &[&str]) -> Zone {
    Zone { interfaces: strings(interfaces), local: false }
}

fn mapping(blocklist: Direction, ingress: &[&str], egress: &[&str]) -> RuleMapping {
    RuleMapping { blocklist, ingress_zones: strings(ingress), egress_zones: strings(egress) }
}

fn xdp_rule(blocklist: Direction, zones: &[&str]) -> XdpRule {
    XdpRule { blocklist, ingress_zones: strings(zones) }
}

fn tc_rule(blocklist: Direction, zones: &[&str]) -> TcRule {
    TcRule { blocklist, egress_zones: strings(zones) }
}

fn bare() -> Config {
    Config {
        files: Files::default(),
        zones: None,
        nftables: Nftables::default(),
        xdp: Xdp::default(),
        tc: Tc::default(),
        runtime: Runtime::default(),
        rules: Rules::default(),
    }
}

fn wan_zones() -> Zones {
    let mut zones = Zones::new();
    zones.insert("WAN".to_string(), zone(&["eth0"]));
    zones
}

fn inline_config() -> Config {
    let mut config = bare();
    config.files.inbound = Some(path("/data/inbound.txt"));
    config.files.outbound = Some(path("/data/outbound.txt"));
    let mut zones = wan_zones();
    zones.insert("LOCAL".to_string(), Zone { interfaces: Vec::new(), local: true });
    config.zones = Some(zones);
    config.rules.input.push(mapping(Direction::Inbound, &["WAN"], &[]));
    config
}

fn cli() -> Cli {
    Cli {
        config: path("/etc/cidrwall/cidrwall.toml"),
        zones: None,
        inbound: None,
        outbound: None,
        table: None,
        priority: None,
        debounce_ms: None,
        reconcile_secs: None,
        allow_flowtable_bypass: None,
        populate_batch_elements: None,
        check: false,
        cleanup: None,
    }
}

fn inline_zones(config: &Config) -> Zones {
    match config.load_zones().unwrap() {
        ZoneSource::Inline(zones) => zones,
        ZoneSource::File(path) => panic!("zones in {:?}", path),
    }
}

fn accept(config: &Config) {
    assert!(matches!(config.validate(false).unwrap(), Validation::Complete));
}

fn refusal(config: &Config) -> String {
    config.validate(false).unwrap_err().message()
}

fn defect(config: &Config) -> Defect {
    match config.validate(false).unwrap_err() {
        ConfigError::Invalid(defect) => defect,
        ConfigError::UnknownZone(name) => panic!("unknown zone {}", name),
    }
}

#[test]
fn accepts_inline_zones_without_a_zones_file() {
    let config = inline_config();
    accept(&config);

    let rules = config.resolve_rules(&inline_zones(&config)).unwrap();
    assert_eq!(rules[0].ingress, ["eth0"]);
}

#[test]
fn accepts_an_omitted_unused_blocklist() {
    let mut config = inline_config();
    config.files.outbound = None;

    accept(&config);
    assert!(config.blocklist_path(Direction::Inbound).is_some());
    assert!(config.blocklist_path(Direction::Outbound).is_none());
}

#[test]
fn rejects_an_omitted_referenced_blocklist() {
    let mut config = inline_config();
    config.files.inbound = None;

    let error = refusal(&config);
    assert!(error.contains("[files].inbound is required"));
    assert_eq!(
        error,
        "[files].inbound is required because a rule references the inbound blocklist"
    );
}

#[test]
fn rejects_inline_and_file_zones_together() {
    let mut config = inline_config();
    config.files.zones = Some(path("/data/zones.json"));

    assert!(refusal(&config).contains("only one"));
    assert!(config.load_zones().unwrap_err().message().contains("only one"));
}

#[test]
fn explicit_zones_path_overrides_inline_zones() {
    let mut cli = cli();
    cli.zones = Some(path("/data/zones.json"));

    let (config, left) = Config::load(&cli, inline_config()).unwrap();
    match left {
        Validation::ZonesFile(file) => assert_eq!(file.bytes, b"/data/zones.json".to_vec()),
        Validation::Complete => panic!("zones file was not asked for"),
    }
    let mut zones = Zones::new();
    zones.insert("WAN".to_string(), zone(&["wan0"]));
    config.validate_zones(&zones).unwrap();
    let rules = config.resolve_rules(&zones).unwrap();
    assert_eq!(rules[0].ingress, ["wan0"]);
}

#[test]
fn accepts_xdp_ingress_with_nftables_output() {
    let mut config = bare();
    config.files.inbound = Some(path("/data/inbound.txt"));
    config.files.outbound = Some(path("/data/outbound.txt"));
    config.zones = Some(wan_zones());
    config.xdp.rules.push(xdp_rule(Direction::Inbound, &["WAN"]));
    config.rules.output.push(mapping(Direction::Outbound, &[], &["WAN"]));

    accept(&config);
    assert_eq!(
        *config.resolve_xdp_interfaces(&inline_zones(&config)).unwrap().names(),
        ["eth0".to_owned()]
    );
}

#[test]
fn rejects_xdp_outbound_rules() {
    let mut config = inline_config();
    config.rules.input.clear();
    config.xdp.rules.push(xdp_rule(Direction::Outbound, &["WAN"]));

    assert!(refusal(&config).contains("only support the inbound"));
}

#[test]
fn rejects_accidental_xdp_nftables_overlap() {
    let mut config = inline_config();
    config.xdp.rules.push(xdp_rule(Direction::Inbound, &["WAN"]));
    assert!(refusal(&config).contains("overlap"));

    config.xdp.allow_nftables_overlap = true;
    accept(&config);
}

#[test]
fn accepts_tc_outbound_rules_and_deduplicates_interfaces() {
    let mut config = bare();
    config.files.outbound = Some(path("/data/outbound.txt"));
    let mut zones = Zones::new();
    zones.insert("WAN".to_string(), zone(&["eth0", "eth1"]));
    zones.insert("BACKUP".to_string(), zone(&["eth1"]));
    config.zones = Some(zones);
    config.tc.attach_order = TcAttachOrder::Last;
    config.tc.rules.push(tc_rule(Direction::Outbound, &["WAN", "BACKUP"]));

    accept(&config);
    assert_eq!(config.tc.attach_order, TcAttachOrder::Last);
    assert_eq!(
        *config.resolve_tc_interfaces(&inline_zones(&config)).unwrap().names(),
        ["eth0".to_owned(), "eth1".to_owned()]
    );
}

#[test]
fn rejects_tc_inbound_and_empty_egress_rules() {
    let mut config = inline_config();
    config.rules.input.clear();
    config.tc.rules.push(tc_rule(Direction::Inbound, &["WAN"]));
    assert!(refusal(&config).contains("only support the outbound"));

    let mut config = bare();
    config.files.outbound = Some(path("/data/outbound.txt"));
    config.zones = Some(wan_zones());
    config.tc.rules.push(tc_rule(Direction::Outbound, &[]));
    assert!(refusal(&config).contains("at least one egress zone"));
}

fn overlapping_tc() -> Config {
    let mut config = bare();
    config.files.outbound = Some(path("/data/outbound.txt"));
    config.zones = Some(wan_zones());
    config.tc.rules.push(tc_rule(Direction::Outbound, &["WAN"]));
    config.rules.output.push(mapping(Direction::Outbound, &[], &["WAN"]));
    config
}

#[test]
fn rejects_accidental_tc_nftables_overlap() {
    let mut config = overlapping_tc();
    assert!(refusal(&config).contains("overlap"));

    config.tc.allow_nftables_overlap = true;
    accept(&config);
}

#[test]
fn rejects_shared_xdp_and_tc_pin_paths() {
    let mut config = inline_config();
    config.tc.pin_path = path("/sys/fs/bpf/cidrwall");

    assert!(refusal(&config).contains("must be different"));
}

#[test]
fn pin_paths_are_compared_by_location() {
    for spelling in ["/sys/fs/bpf/cidrwall/", "//sys/fs//bpf/./cidrwall", "/sys/fs/bpf/cidrwall/."] {
        let mut config = inline_config();
        config.tc.pin_path = path(spelling);
        assert_eq!(defect(&config), Defect::SharedPinPath, "{}", spelling);
    }
    let mut config = inline_config();
    config.tc.pin_path = path("/sys/fs/bpf/x/../cidrwall");
    accept(&config);
}

#[test]
fn defaults() {
    let config = bare();
    assert_eq!(config.nftables.table, "cidrwall");
    assert_eq!(config.nftables.priority, -5);
    assert_eq!(config.nftables.batch_page_bytes, 128 * 1024);
    assert_eq!(config.nftables.populate_batch_elements, 2_000);
    assert_eq!(config.xdp.mode, XdpMode::Auto);
    assert_eq!(config.xdp.pin_path.bytes, b"/sys/fs/bpf/cidrwall".to_vec());
    assert_eq!(config.xdp.ipv4_max_entries, 5_000_000);
    assert_eq!(config.tc.pin_path.bytes, b"/sys/fs/bpf/cidrwall-tc".to_vec());
    assert_eq!(config.tc.ipv6_max_entries, 5_000_000);
    assert_eq!(config.tc.attach_order, TcAttachOrder::First);
    assert_eq!(XdpMode::default(), XdpMode::Auto);
    assert_eq!(TcAttachOrder::default(), TcAttachOrder::First);
    assert_eq!(config.debounce(), Duration::from_millis(500));
    assert_eq!(config.reconcile(), Duration::from_secs(60));
}

#[test]
fn intervals_have_their_units() {
    let mut config = bare();
    config.runtime.debounce_ms = 1_500;
    config.runtime.reconcile_secs = 7;
    assert_eq!(config.debounce().as_nanos(), 1_500_000_000);
    assert_eq!(config.reconcile().as_nanos(), 7_000_000_000);
}

#[test]
fn each_settings_defect_is_reported() {
    let mut cases: Vec<(Config, Defect)> = Vec::new();
    for name in ["", "cidr wall", "tab\u{e9}", "a.b"] {
        let mut c = inline_config();
        c.nftables.table = name.to_string();
        cases.push((c, Defect::InvalidTableName));
    }
    let mut c = inline_config();
    c.runtime.debounce_ms = 0;
    cases.push((c, Defect::ZeroInterval));
    let mut c = inline_config();
    c.runtime.reconcile_secs = 0;
    cases.push((c, Defect::ZeroInterval));
    let mut c = inline_config();
    c.nftables.batch_page_bytes = 65_535;
    cases.push((c, Defect::BatchPageTooSmall));
    let mut c = inline_config();
    c.nftables.populate_batch_elements = 0;
    cases.push((c, Defect::ZeroPopulateBatch));
    let mut c = inline_config();
    c.xdp.ipv6_max_entries = 0;
    cases.push((c, Defect::XdpZeroCapacity));
    let mut c = inline_config();
    c.xdp.pin_path = path("");
    cases.push((c, Defect::XdpPinPathRelative));
    let mut c = inline_config();
    c.tc.populate_batch_elements = 0;
    cases.push((c, Defect::TcZeroCapacity));
    let mut c = inline_config();
    c.tc.pin_path = path("sys/fs/bpf");
    cases.push((c, Defect::TcPinPathRelative));
    for (config, expected) in cases {
        assert_eq!(defect(&config), expected);
        assert!(config.validate(true).is_err());
    }

    let mut c = inline_config();
    c.nftables.table = "A-z_09".to_string();
    c.nftables.batch_page_bytes = 65_536;
    accept(&c);
}

#[test]
fn each_rules_defect_is_reported() {
    let mut c = inline_config();
    c.rules.input.clear();
    assert_eq!(defect(&c), Defect::NoRules);

    let mut c = inline_config();
    c.xdp.rules.push(xdp_rule(Direction::Inbound, &[]));
    assert_eq!(defect(&c), Defect::XdpRuleWithoutZone);

    let mut c = inline_config();
    c.rules.forward.push(mapping(Direction::Outbound, &[], &["WAN"]));
    c.files.outbound = None;
    assert_eq!(defect(&c), Defect::MissingBlocklist(Direction::Outbound));

    let mut c = inline_config();
    c.zones = None;
    assert_eq!(defect(&c), Defect::ZonesUndefined);
    assert_eq!(
        c.load_zones().unwrap_err().message(),
        "zones must be defined in [zones] or [files].zones"
    );

    let mut c = inline_config();
    c.tc.rules.push(tc_rule(Direction::Outbound, &["LOCAL"]));
    assert_eq!(defect(&c), Defect::TcWithoutInterface);
}

#[test]
fn unknown_zones_are_reported() {
    let mut c = inline_config();
    c.xdp.rules.push(xdp_rule(Direction::Inbound, &["WAN", "DMZ"]));
    assert_eq!(refusal(&c), "unknown zone DMZ");

    let mut c = inline_config();
    c.tc.rules.push(tc_rule(Direction::Outbound, &["LAN"]));
    assert_eq!(refusal(&c), "unknown zone LAN");

    // Zones of nftables rules are looked at only where an overlap is possible.
    let mut c = inline_config();
    c.rules.forward.push(mapping(Direction::Inbound, &["GUEST"], &["LAN"]));
    accept(&c);
    match c.resolve_rules(&inline_zones(&c)).unwrap_err() {
        ConfigError::UnknownZone(name) => assert_eq!(name, "GUEST"),
        ConfigError::Invalid(d) => panic!("{:?}", d),
    }
}

#[test]
fn a_rule_on_every_interface_overlaps() {
    let mut c = inline_config();
    c.xdp.rules.push(xdp_rule(Direction::Inbound, &["WAN"]));
    c.rules.input.clear();
    c.rules.forward.push(mapping(Direction::Inbound, &[], &[]));
    assert_eq!(defect(&c), Defect::XdpOverlap);

    // Outbound rules and the output chain do not meet XDP.
    c.rules.forward.clear();
    c.rules.output.push(mapping(Direction::Inbound, &[], &[]));
    accept(&c);

    let mut c = overlapping_tc();
    c.rules.output.clear();
    c.rules.forward.push(mapping(Direction::Outbound, &["WAN"], &[]));
    assert_eq!(defect(&c), Defect::TcOverlap);
    // A rule without egress zones applies to every interface.
    c.rules.forward[0].ingress_zones.clear();
    assert_eq!(defect(&c), Defect::TcOverlap);
    c.rules.forward.clear();
    c.rules.input.push(mapping(Direction::Outbound, &[], &["WAN"]));
    accept(&c);
}

#[test]
fn cleanup_needs_settings_only() {
    let c = bare();
    assert_eq!(defect(&c), Defect::NoRules);
    assert!(matches!(c.validate(true).unwrap(), Validation::Complete));

    let mut options = cli();
    options.cleanup = Some(CleanupTarget::Tc);
    let (_, left) = Config::load(&options, bare()).unwrap();
    assert!(matches!(left, Validation::Complete));
    assert!(Config::load(&cli(), bare()).is_err());
}

#[test]
fn options_override_settings() {
    let mut options = cli();
    options.inbound = Some(path("/new/in"));
    options.outbound = Some(path("/new/out"));
    options.table = Some("wall".to_string());
    options.priority = Some(7);
    options.debounce_ms = Some(11);
    options.reconcile_secs = Some(12);
    options.allow_flowtable_bypass = Some(true);
    options.populate_batch_elements = Some(13);
    let (c, _) = Config::load(&options, inline_config()).unwrap();
    assert_eq!(c.blocklist_path(Direction::Inbound).unwrap().bytes, b"/new/in".to_vec());
    assert_eq!(c.blocklist_path(Direction::Outbound).unwrap().bytes, b"/new/out".to_vec());
    assert_eq!(c.nftables.table, "wall");
    assert_eq!(c.nftables.priority, 7);
    assert_eq!(c.runtime.debounce_ms, 11);
    assert_eq!(c.runtime.reconcile_secs, 12);
    assert!(c.nftables.allow_flowtable_bypass);
    assert_eq!(c.nftables.populate_batch_elements, 13);
    assert_eq!(c.xdp.populate_batch_elements, 2_000);

    let (c, _) = Config::load(&cli(), inline_config()).unwrap();
    assert_eq!(c.blocklist_path(Direction::Inbound).unwrap().bytes, b"/data/inbound.txt".to_vec());
    assert_eq!(c.nftables.table, "cidrwall");

    options.table = Some("no good".to_string());
    let error = Config::load(&options, inline_config()).unwrap_err();
    assert_eq!(error.message(), "invalid nftables table name");
}

#[test]
fn options_apply_once() {
    let mut options = cli();
    options.zones = Some(path("/data/zones.json"));
    options.table = Some("wall".to_string());
    options.reconcile_secs = Some(5);
    let mut once = inline_config();
    once.apply_overrides(&options);
    let mut twice = once.clone();
    twice.apply_overrides(&options);
    for c in [&once, &twice] {
        assert!(c.zones.is_none());
        assert_eq!(c.files.zones.as_ref().unwrap().bytes, b"/data/zones.json".to_vec());
        assert_eq!(c.nftables.table, "wall");
        assert_eq!(c.runtime.reconcile_secs, 5);
        assert_eq!(c.runtime.debounce_ms, 500);
        assert!(matches!(c.validate(false).unwrap(), Validation::ZonesFile(_)));
    }
}

#[test]
fn zones_in_a_file_are_validated_like_inline_zones() {
    let inline = overlapping_tc();
    let mut filed = overlapping_tc();
    filed.zones = None;
    filed.files.zones = Some(path("/data/zones.json"));
    assert!(matches!(filed.validate(false).unwrap(), Validation::ZonesFile(_)));
    let in_file = filed.validate_zones(&wan_zones()).unwrap_err();
    assert_eq!(in_file.message(), refusal(&inline));
}

#[test]
fn uses_all_backends() {
    let mut c = bare();
    assert!(!c.uses(Direction::Inbound));
    c.xdp.rules.push(xdp_rule(Direction::Inbound, &["WAN"]));
    assert!(c.uses(Direction::Inbound));
    assert!(!c.uses_nftables(Direction::Inbound));
    assert!(!c.uses(Direction::Outbound));
    c.tc.rules.push(tc_rule(Direction::Outbound, &["WAN"]));
    assert!(c.uses(Direction::Outbound));
    assert!(!c.uses_nftables(Direction::Outbound));
    c.rules.output.push(mapping(Direction::Outbound, &[], &[]));
    assert!(c.uses_nftables(Direction::Outbound));
    assert_eq!(Direction::Inbound.name(), "inbound");
    assert_eq!(Direction::Outbound.name(), "outbound");
}

#[test]
fn rules_are_resolved_in_chain_order() {
    let mut zones = Zones::new();
    zones.insert("LAN".to_string(), zone(&["eth2", "eth1", "eth2"]));
    zones.insert("WAN".to_string(), zone(&["eth9"]));
    zones.insert("WAN".to_string(), zone(&["eth0"]));
    let rules = Rules {
        input: vec![mapping(Direction::Inbound, &["WAN"], &[])],
        forward: vec![mapping(Direction::Inbound, &["WAN", "LAN"], &["LAN"])],
        output: vec![mapping(Direction::Outbound, &[], &["WAN"])],
    };
    let resolved = zones.resolve(&rules).unwrap();
    let chains: Vec<Chain> = resolved.iter().map(|r| r.chain).collect();
    assert_eq!(chains, [Chain::Input, Chain::Forward, Chain::Output]);
    assert_eq!(resolved[1].ingress, ["eth0", "eth1", "eth2"]);
    assert_eq!(resolved[1].egress, ["eth1", "eth2"]);
    assert_eq!(resolved[2].blocklist, Direction::Outbound);
    assert!(resolved[2].ingress.is_empty());
    let a = zones.interfaces(&strings(&["LAN", "WAN", "LAN"])).unwrap();
    let b = zones.interfaces(&strings(&["WAN", "LAN"])).unwrap();
    assert_eq!(a.names(), b.names());
}
