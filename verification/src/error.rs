//! Why a configuration is refused.

use crate::config::Direction;
use vstd::prelude::*;

verus! {

/// What is wrong with a configuration in itself.
#[derive(Clone, Copy, Debug, PartialEq, Eq, Structural)]
pub enum Defect {
    InvalidTableName,
    ZeroInterval,
    BatchPageTooSmall,
    ZeroPopulateBatch,
    XdpZeroCapacity,
    XdpPinPathRelative,
    TcZeroCapacity,
    TcPinPathRelative,
    SharedPinPath,
    NoRules,
    XdpRuleNotInbound,
    XdpRuleWithoutZone,
    TcRuleNotOutbound,
    TcRuleWithoutZone,
    MissingBlocklist(Direction),
    ZonesUndefined,
    ZonesDefinedTwice,
    XdpOverlap,
    TcWithoutInterface,
    TcOverlap,
}

/// Why a configuration is refused.
#[derive(Debug)]
pub enum ConfigError {
    /// The configuration is wrong in itself.
    Invalid(Defect),
    /// A rule names a zone that is not defined.
    UnknownZone(String),
}

/// A [`ConfigError`] as a mathematical value.
pub enum Refusal {
    Invalid(Defect),
    UnknownZone(Seq<char>),
}

impl View for ConfigError {
    type V = Refusal;

    open spec fn view(&self) -> Refusal {
        match *self {
            ConfigError::Invalid(d) => Refusal::Invalid(d),
            ConfigError::UnknownZone(name) => Refusal::UnknownZone(name@),
        }
    }
}

/// An error stands for itself, with its name as text.
pub proof fn law_config_error_view(d: Defect, name: String)
    ensures
        ConfigError::Invalid(d)@ == Refusal::Invalid(d),
        ConfigError::UnknownZone(name)@ == Refusal::UnknownZone(name@),
{
}

impl Defect {
    /// The message for the defect.
    pub open spec fn text(self) -> Seq<char> {
        match self {
            Defect::InvalidTableName => "invalid nftables table name"@,
            Defect::ZeroInterval => "debounce and reconciliation intervals must be non-zero"@,
            Defect::BatchPageTooSmall => "batch_page_bytes must be at least 65536"@,
            Defect::ZeroPopulateBatch => "populate_batch_elements must be non-zero"@,
            Defect::XdpZeroCapacity => "XDP map capacities and population size must be non-zero"@,
            Defect::XdpPinPathRelative => "xdp.pin_path must be an absolute path"@,
            Defect::TcZeroCapacity => "TC map capacities and population size must be non-zero"@,
            Defect::TcPinPathRelative => "tc.pin_path must be an absolute path"@,
            Defect::SharedPinPath => "tc.pin_path and xdp.pin_path must be different"@,
            Defect::NoRules => "at least one rule mapping is required"@,
            Defect::XdpRuleNotInbound => "XDP rules only support the inbound blocklist"@,
            Defect::XdpRuleWithoutZone => "XDP rules require at least one ingress zone"@,
            Defect::TcRuleNotOutbound => "TC rules only support the outbound blocklist"@,
            Defect::TcRuleWithoutZone => "TC rules require at least one egress zone"@,
            Defect::MissingBlocklist(d) => "[files]."@ + d.text()
                + " is required because a rule references the "@ + d.text() + " blocklist"@,
            Defect::ZonesUndefined => "zones must be defined in [zones] or [files].zones"@,
            Defect::ZonesDefinedTwice =>
                "zones must be defined in only one of [zones] or [files].zones"@,
            Defect::XdpOverlap =>
                "XDP and nftables inbound rules overlap on a resolved ingress interface; set xdp.allow_nftables_overlap = true to allow this"@,
            Defect::TcWithoutInterface => "TC rules must resolve to at least one egress interface"@,
            Defect::TcOverlap =>
                "TC and nftables outbound rules overlap on a resolved egress interface; set tc.allow_nftables_overlap = true to allow this"@,
        }
    }

    /// The message for the defect.
    pub fn message(self) -> (s: String)
        ensures
            s@ == self.text(),
            self == Defect::InvalidTableName ==> s@ == "invalid nftables table name"@,
            self == Defect::ZeroInterval ==> s@ == "debounce and reconciliation intervals must be non-zero"@,
            self == Defect::BatchPageTooSmall ==> s@ == "batch_page_bytes must be at least 65536"@,
            self == Defect::ZeroPopulateBatch ==> s@ == "populate_batch_elements must be non-zero"@,
            self == Defect::XdpZeroCapacity ==> s@ == "XDP map capacities and population size must be non-zero"@,
            self == Defect::XdpPinPathRelative ==> s@ == "xdp.pin_path must be an absolute path"@,
            self == Defect::TcZeroCapacity ==> s@ == "TC map capacities and population size must be non-zero"@,
            self == Defect::TcPinPathRelative ==> s@ == "tc.pin_path must be an absolute path"@,
            self == Defect::SharedPinPath ==> s@ == "tc.pin_path and xdp.pin_path must be different"@,
            self == Defect::NoRules ==> s@ == "at least one rule mapping is required"@,
            self == Defect::XdpRuleNotInbound ==> s@ == "XDP rules only support the inbound blocklist"@,
            self == Defect::XdpRuleWithoutZone ==> s@ == "XDP rules require at least one ingress zone"@,
            self == Defect::TcRuleNotOutbound ==> s@ == "TC rules only support the outbound blocklist"@,
            self == Defect::TcRuleWithoutZone ==> s@ == "TC rules require at least one egress zone"@,
            self == Defect::ZonesUndefined ==> s@ == "zones must be defined in [zones] or [files].zones"@,
            self == Defect::ZonesDefinedTwice ==> s@ == "zones must be defined in only one of [zones] or [files].zones"@,
            self == Defect::XdpOverlap ==> s@ == "XDP and nftables inbound rules overlap on a resolved ingress interface; set xdp.allow_nftables_overlap = true to allow this"@,
            self == Defect::TcWithoutInterface ==> s@ == "TC rules must resolve to at least one egress interface"@,
            self == Defect::TcOverlap ==> s@ == "TC and nftables outbound rules overlap on a resolved egress interface; set tc.allow_nftables_overlap = true to allow this"@,
            self == Defect::MissingBlocklist(Direction::Inbound) ==> s@
                == "[files].inbound is required because a rule references the inbound blocklist"@,
            self == Defect::MissingBlocklist(Direction::Outbound) ==> s@
                == "[files].outbound is required because a rule references the outbound blocklist"@,
    {
        proof {
            lemma_missing_blocklist();
        }
        let fixed = match self {
            Defect::MissingBlocklist(d) => {
                let mut s = "[files].".to_owned();
                s.append(d.name());
                s.append(" is required because a rule references the ");
                s.append(d.name());
                s.append(" blocklist");
                return s;
            },
            Defect::InvalidTableName => "invalid nftables table name",
            Defect::ZeroInterval => "debounce and reconciliation intervals must be non-zero",
            Defect::BatchPageTooSmall => "batch_page_bytes must be at least 65536",
            Defect::ZeroPopulateBatch => "populate_batch_elements must be non-zero",
            Defect::XdpZeroCapacity => "XDP map capacities and population size must be non-zero",
            Defect::XdpPinPathRelative => "xdp.pin_path must be an absolute path",
            Defect::TcZeroCapacity => "TC map capacities and population size must be non-zero",
            Defect::TcPinPathRelative => "tc.pin_path must be an absolute path",
            Defect::SharedPinPath => "tc.pin_path and xdp.pin_path must be different",
            Defect::NoRules => "at least one rule mapping is required",
            Defect::XdpRuleNotInbound => "XDP rules only support the inbound blocklist",
            Defect::XdpRuleWithoutZone => "XDP rules require at least one ingress zone",
            Defect::TcRuleNotOutbound => "TC rules only support the outbound blocklist",
            Defect::TcRuleWithoutZone => "TC rules require at least one egress zone",
            Defect::ZonesUndefined => "zones must be defined in [zones] or [files].zones",
            Defect::ZonesDefinedTwice =>
                "zones must be defined in only one of [zones] or [files].zones",
            Defect::XdpOverlap =>
                "XDP and nftables inbound rules overlap on a resolved ingress interface; set xdp.allow_nftables_overlap = true to allow this",
            Defect::TcWithoutInterface => "TC rules must resolve to at least one egress interface",
            Defect::TcOverlap =>
                "TC and nftables outbound rules overlap on a resolved egress interface; set tc.allow_nftables_overlap = true to allow this",
        };
        fixed.to_owned()
    }
}

proof fn lemma_missing_blocklist()
    ensures
        Defect::MissingBlocklist(Direction::Inbound).text()
            == "[files].inbound is required because a rule references the inbound blocklist"@,
        Defect::MissingBlocklist(Direction::Outbound).text()
            == "[files].outbound is required because a rule references the outbound blocklist"@,
{
    reveal_strlit("[files].");
    reveal_strlit("inbound");
    reveal_strlit("outbound");
    reveal_strlit(" is required because a rule references the ");
    reveal_strlit(" blocklist");
    reveal_strlit("[files].inbound is required because a rule references the inbound blocklist");
    reveal_strlit("[files].outbound is required because a rule references the outbound blocklist");
    assert(Defect::MissingBlocklist(Direction::Inbound).text()
        =~= "[files].inbound is required because a rule references the inbound blocklist"@);
    assert(Defect::MissingBlocklist(Direction::Outbound).text()
        =~= "[files].outbound is required because a rule references the outbound blocklist"@);
}

impl ConfigError {
    /// The message for the error.
    pub fn message(&self) -> (s: String)
        ensures
            s@ == match self@ {
                Refusal::Invalid(d) => d.text(),
                Refusal::UnknownZone(name) => "unknown zone "@ + name,
            },
            *self matches ConfigError::Invalid(d) ==> s@ == d.text(),
            *self matches ConfigError::UnknownZone(name) ==> s@ == "unknown zone "@ + name@,
    {
        match self {
            ConfigError::Invalid(d) => d.message(),
            ConfigError::UnknownZone(name) => {
                let mut s = "unknown zone ".to_owned();
                s.append(name.as_str());
                s
            },
        }
    }
}

} // verus!
