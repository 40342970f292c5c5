//! The settings of the firewall.

use crate::path::FilePath;
use crate::zones::Zones;
use core::time::Duration;
use vstd::prelude::*;
use vstd::utf8::encode_utf8;

verus! {

/// What `--cleanup` removes.
#[derive(Clone, Copy, Debug, PartialEq, Eq, Structural)]
pub enum CleanupTarget {
    Xdp,
    Tc,
    Nftables,
    All,
}

/// The command line.
#[derive(Debug)]
pub struct Cli {
    pub config: FilePath,
    pub zones: Option<FilePath>,
    pub inbound: Option<FilePath>,
    pub outbound: Option<FilePath>,
    pub table: Option<String>,
    pub priority: Option<i32>,
    pub debounce_ms: Option<u64>,
    pub reconcile_secs: Option<u64>,
    pub allow_flowtable_bypass: Option<bool>,
    pub populate_batch_elements: Option<u32>,
    /// Validate the configuration and print the resolved rules.
    pub check: bool,
    /// Remove owned kernel state and exit.
    pub cleanup: Option<CleanupTarget>,
}

/// The configuration.
#[derive(Clone, Debug)]
pub struct Config {
    pub files: Files,
    pub zones: Option<Zones>,
    pub nftables: Nftables,
    pub xdp: Xdp,
    pub tc: Tc,
    pub runtime: Runtime,
    pub rules: Rules,
}

/// The files that the configuration refers to.
#[derive(Clone, Debug)]
pub struct Files {
    pub zones: Option<FilePath>,
    pub inbound: Option<FilePath>,
    pub outbound: Option<FilePath>,
}

impl Default for Files {
    fn default() -> (r: Self)
        ensures
            r == (Files { zones: None, inbound: None, outbound: None }),
    {
        Files { zones: None, inbound: None, outbound: None }
    }
}

/// Settings of the nftables backend.
#[derive(Clone, Debug)]
pub struct Nftables {
    pub table: String,
    pub priority: i32,
    pub allow_flowtable_bypass: bool,
    pub batch_page_bytes: u32,
    pub populate_batch_elements: u32,
    pub cleanup_on_exit: bool,
}

impl Default for Nftables {
    fn default() -> (r: Self)
        ensures
            r.table@ == "cidrwall"@,
            r.priority == -5,
            !r.allow_flowtable_bypass,
            r.batch_page_bytes == 131072,
            r.populate_batch_elements == 2000,
            !r.cleanup_on_exit,
    {
        Nftables {
            table: "cidrwall".to_owned(),
            priority: -5,
            allow_flowtable_bypass: false,
            batch_page_bytes: 128 * 1024,
            populate_batch_elements: 2_000,
            cleanup_on_exit: false,
        }
    }
}

/// How the XDP program is attached.
#[derive(Clone, Copy, Debug, PartialEq, Eq, Structural)]
pub enum XdpMode {
    Auto,
    Native,
    Generic,
}

impl Default for XdpMode {
    fn default() -> (r: Self)
        ensures
            r == XdpMode::Auto,
    {
        XdpMode::Auto
    }
}

/// Settings of the XDP backend.
#[derive(Clone, Debug)]
pub struct Xdp {
    pub mode: XdpMode,
    pub pin_path: FilePath,
    pub ipv4_max_entries: u32,
    pub ipv6_max_entries: u32,
    pub populate_batch_elements: u32,
    pub allow_nftables_overlap: bool,
    pub cleanup_on_exit: bool,
    pub rules: Vec<XdpRule>,
}

impl Default for Xdp {
    fn default() -> (r: Self)
        ensures
            r.mode == XdpMode::Auto,
            r.pin_path@ == encode_utf8("/sys/fs/bpf/cidrwall"@),
            r.ipv4_max_entries == 5_000_000,
            r.ipv6_max_entries == 5_000_000,
            r.populate_batch_elements == 2000,
            !r.allow_nftables_overlap,
            !r.cleanup_on_exit,
            r.rules@.len() == 0,
    {
        Xdp {
            mode: XdpMode::Auto,
            pin_path: FilePath::new("/sys/fs/bpf/cidrwall"),
            ipv4_max_entries: 5_000_000,
            ipv6_max_entries: 5_000_000,
            populate_batch_elements: 2_000,
            allow_nftables_overlap: false,
            cleanup_on_exit: false,
            rules: Vec::new(),
        }
    }
}

/// A rule of the XDP backend.
#[derive(Clone, Debug)]
pub struct XdpRule {
    pub blocklist: Direction,
    pub ingress_zones: Vec<String>,
}

/// Settings of the TC backend.
#[derive(Clone, Debug)]
pub struct Tc {
    pub pin_path: FilePath,
    pub ipv4_max_entries: u32,
    pub ipv6_max_entries: u32,
    pub populate_batch_elements: u32,
    pub attach_order: TcAttachOrder,
    pub allow_nftables_overlap: bool,
    pub allow_hardware_flowtable_bypass: bool,
    pub cleanup_on_exit: bool,
    pub rules: Vec<TcRule>,
}

impl Default for Tc {
    fn default() -> (r: Self)
        ensures
            r.pin_path@ == encode_utf8("/sys/fs/bpf/cidrwall-tc"@),
            r.ipv4_max_entries == 5_000_000,
            r.ipv6_max_entries == 5_000_000,
            r.populate_batch_elements == 2000,
            r.attach_order == TcAttachOrder::First,
            !r.allow_nftables_overlap,
            !r.allow_hardware_flowtable_bypass,
            !r.cleanup_on_exit,
            r.rules@.len() == 0,
    {
        Tc {
            pin_path: FilePath::new("/sys/fs/bpf/cidrwall-tc"),
            ipv4_max_entries: 5_000_000,
            ipv6_max_entries: 5_000_000,
            populate_batch_elements: 2_000,
            attach_order: TcAttachOrder::First,
            allow_nftables_overlap: false,
            allow_hardware_flowtable_bypass: false,
            cleanup_on_exit: false,
            rules: Vec::new(),
        }
    }
}

/// Where the TC program stands among the programs of an interface.
#[derive(Clone, Copy, Debug, PartialEq, Eq, Structural)]
pub enum TcAttachOrder {
    First,
    Last,
}

impl Default for TcAttachOrder {
    fn default() -> (r: Self)
        ensures
            r == TcAttachOrder::First,
    {
        TcAttachOrder::First
    }
}

/// A rule of the TC backend.
#[derive(Clone, Debug)]
pub struct TcRule {
    pub blocklist: Direction,
    pub egress_zones: Vec<String>,
}

/// Timing.
#[derive(Clone, Debug)]
pub struct Runtime {
    pub debounce_ms: u64,
    pub reconcile_secs: u64,
}

impl Default for Runtime {
    fn default() -> (r: Self)
        ensures
            r.debounce_ms == 500,
            r.reconcile_secs == 60,
    {
        Runtime { debounce_ms: 500, reconcile_secs: 60 }
    }
}

/// The nftables rules of each chain.
#[derive(Clone, Debug)]
pub struct Rules {
    pub input: Vec<RuleMapping>,
    pub forward: Vec<RuleMapping>,
    pub output: Vec<RuleMapping>,
}

impl Default for Rules {
    fn default() -> (r: Self)
        ensures
            r.input@.len() == 0,
            r.forward@.len() == 0,
            r.output@.len() == 0,
    {
        Rules { input: Vec::new(), forward: Vec::new(), output: Vec::new() }
    }
}

/// A rule that applies a blocklist between zones.
#[derive(Clone, Debug)]
pub struct RuleMapping {
    pub blocklist: Direction,
    pub ingress_zones: Vec<String>,
    pub egress_zones: Vec<String>,
}

/// Which of the two blocklists is meant.
#[derive(Clone, Copy, Debug, PartialEq, Eq, PartialOrd, Ord, Hash, Structural)]
pub enum Direction {
    Inbound,
    Outbound,
}

impl Direction {
    /// The name of the blocklist.
    pub open spec fn text(self) -> Seq<char> {
        match self {
            Direction::Inbound => "inbound"@,
            Direction::Outbound => "outbound"@,
        }
    }

    /// The name of the blocklist.
    pub fn name(self) -> (s: &'static str)
        ensures
            s@ == self.text(),
            self == Direction::Inbound ==> s@ == "inbound"@,
            self == Direction::Outbound ==> s@ == "outbound"@,
    {
        match self {
            Direction::Inbound => "inbound",
            Direction::Outbound => "outbound",
        }
    }
}

impl Rules {
    /// The rules of all chains, in the order input, forward, output.
    pub open spec fn all(&self) -> Seq<RuleMapping> {
        self.input@ + self.forward@ + self.output@
    }
}

/// Whether a rule of `rules` refers to the blocklist `direction`.
pub open spec fn refers_to(rules: Seq<RuleMapping>, direction: Direction) -> bool {
    exists|i: int| 0 <= i < rules.len() && (#[trigger] rules[i]).blocklist == direction
}

impl Config {
    /// The file that holds the blocklist `direction`.
    pub open spec fn blocklist(&self, direction: Direction) -> Option<FilePath> {
        match direction {
            Direction::Inbound => self.files.inbound,
            Direction::Outbound => self.files.outbound,
        }
    }

    /// Whether an XDP rule refers to the blocklist `direction`.
    pub open spec fn xdp_refers_to(&self, direction: Direction) -> bool {
        exists|i: int|
            0 <= i < self.xdp.rules@.len() && (#[trigger] self.xdp.rules@[i]).blocklist == direction
    }

    /// Whether a TC rule refers to the blocklist `direction`.
    pub open spec fn tc_refers_to(&self, direction: Direction) -> bool {
        exists|i: int|
            0 <= i < self.tc.rules@.len() && (#[trigger] self.tc.rules@[i]).blocklist == direction
    }

    /// Whether a rule of any backend refers to the blocklist `direction`.
    pub open spec fn refers_to(&self, direction: Direction) -> bool {
        ||| refers_to(self.rules.all(), direction)
        ||| self.xdp_refers_to(direction)
        ||| self.tc_refers_to(direction)
    }

    /// How long to wait for further changes of a file.
    pub fn debounce(&self) -> (d: Duration)
        ensures
            duration_nanos(d) == self.runtime.debounce_ms * 1_000_000,
    {
        Duration::from_millis(self.runtime.debounce_ms)
    }

    /// How often the kernel state is brought back in line.
    pub fn reconcile(&self) -> (d: Duration)
        ensures
            duration_nanos(d) == self.runtime.reconcile_secs * 1_000_000_000,
    {
        Duration::from_secs(self.runtime.reconcile_secs)
    }

    /// The file that holds the blocklist `direction`, if one is configured.
    pub fn blocklist_path(&self, direction: Direction) -> (path: Option<&FilePath>)
        ensures
            match path {
                Some(p) => self.blocklist(direction) == Some(*p),
                None => self.blocklist(direction) is None,
            },
            direction == Direction::Inbound ==> match path {
                Some(p) => self.files.inbound == Some(*p),
                None => self.files.inbound is None,
            },
            direction == Direction::Outbound ==> match path {
                Some(p) => self.files.outbound == Some(*p),
                None => self.files.outbound is None,
            },
    {
        match direction {
            Direction::Inbound => self.files.inbound.as_ref(),
            Direction::Outbound => self.files.outbound.as_ref(),
        }
    }

    /// Whether a rule of any backend refers to the blocklist `direction`.
    pub fn uses(&self, direction: Direction) -> (r: bool)
        ensures
            r == self.refers_to(direction),
            r <==> ((exists|i: int|
                    0 <= i < self.rules.input@.len() && (
                    #[trigger] self.rules.input@[i]).blocklist == direction)
                    || (exists|i: int|
                    0 <= i < self.rules.forward@.len() && (
                    #[trigger] self.rules.forward@[i]).blocklist == direction)
                    || (exists|i: int|
                    0 <= i < self.rules.output@.len() && (
                    #[trigger] self.rules.output@[i]).blocklist == direction) || (exists|i: int|
                    0 <= i < self.xdp.rules@.len() && (#[trigger] self.xdp.rules@[i]).blocklist
                        == direction) || (exists|i: int|
                    0 <= i < self.tc.rules@.len() && (#[trigger] self.tc.rules@[i]).blocklist
                        == direction)),
    {
        if self.uses_nftables(direction) {
            return true;
        }
        let mut i: usize = 0;
        while i < self.xdp.rules.len()
            invariant
                i <= self.xdp.rules.len(),
                forall|j: int| 0 <= j < i ==> (#[trigger] self.xdp.rules@[j]).blocklist != direction,
            decreases self.xdp.rules.len() - i,
        {
            if self.xdp.rules[i].blocklist == direction {
                assert(self.xdp_refers_to(direction));
                return true;
            }
            i = i + 1;
        }
        let mut i: usize = 0;
        while i < self.tc.rules.len()
            invariant
                i <= self.tc.rules.len(),
                forall|j: int| 0 <= j < i ==> (#[trigger] self.tc.rules@[j]).blocklist != direction,
            decreases self.tc.rules.len() - i,
        {
            if self.tc.rules[i].blocklist == direction {
                assert(self.tc_refers_to(direction));
                return true;
            }
            i = i + 1;
        }
        false
    }

    /// Whether an nftables rule refers to the blocklist `direction`.
    pub fn uses_nftables(&self, direction: Direction) -> (r: bool)
        ensures
            r == refers_to(self.rules.all(), direction),
            r <==> ((exists|i: int|
                    0 <= i < self.rules.input@.len() && (
                    #[trigger] self.rules.input@[i]).blocklist == direction)
                    || (exists|i: int|
                    0 <= i < self.rules.forward@.len() && (
                    #[trigger] self.rules.forward@[i]).blocklist == direction)
                    || (exists|i: int|
                    0 <= i < self.rules.output@.len() && (
                    #[trigger] self.rules.output@[i]).blocklist == direction)),
    {
        let r = any_refers_to(&self.rules.input, direction) || any_refers_to(
            &self.rules.forward,
            direction,
        ) || any_refers_to(&self.rules.output, direction);
        proof {
            lemma_refers_to_concat(self.rules.input@, self.rules.forward@, direction);
            lemma_refers_to_concat(
                self.rules.input@ + self.rules.forward@,
                self.rules.output@,
                direction,
            );
        }
        r
    }
}

/// Whether a rule of `rules` refers to the blocklist `direction`.
fn any_refers_to(rules: &Vec<RuleMapping>, direction: Direction) -> (r: bool)
    ensures
        r == refers_to(rules@, direction),
{
    let mut i: usize = 0;
    while i < rules.len()
        invariant
            i <= rules.len(),
            forall|j: int| 0 <= j < i ==> (#[trigger] rules@[j]).blocklist != direction,
        decreases rules.len() - i,
    {
        if rules[i].blocklist == direction {
            return true;
        }
        i = i + 1;
    }
    false
}

proof fn lemma_refers_to_concat(a: Seq<RuleMapping>, b: Seq<RuleMapping>, direction: Direction)
    ensures
        refers_to(a + b, direction) <==> refers_to(a, direction) || refers_to(b, direction),
{
    if refers_to(a, direction) {
        let i = choose|i: int| 0 <= i < a.len() && (#[trigger] a[i]).blocklist == direction;
        assert((a + b)[i].blocklist == direction);
    }
    if refers_to(b, direction) {
        let i = choose|i: int| 0 <= i < b.len() && (#[trigger] b[i]).blocklist == direction;
        assert((a + b)[a.len() + i].blocklist == direction);
    }
    if refers_to(a + b, direction) {
        let i = choose|i: int|
            0 <= i < (a + b).len() && (#[trigger] (a + b)[i]).blocklist == direction;
        if i < a.len() {
            assert(a[i].blocklist == direction);
        } else {
            assert(b[i - a.len()].blocklist == direction);
        }
    }
}

/// The length of a duration in nanoseconds, as `Duration::as_nanos` tells it.
pub uninterp spec fn duration_nanos(d: Duration) -> nat;

/// [`Duration::from_millis`] makes a duration of the given number of milliseconds.
pub assume_specification[ Duration::from_millis ](millis: u64) -> (d: Duration)
    ensures
        duration_nanos(d) == millis * 1_000_000,
;

/// [`Duration::from_secs`] makes a duration of the given number of whole seconds.
pub assume_specification[ Duration::from_secs ](secs: u64) -> (d: Duration)
    ensures
        duration_nanos(d) == secs * 1_000_000_000,
;

} // verus!
