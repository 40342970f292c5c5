//! Which configurations are accepted.

use crate::config::{Config, Direction, TcRule, XdpRule};
use crate::error::{ConfigError, Defect, Refusal};
use crate::interfaces::{texts, InterfaceSet};
use crate::path::{is_rooted, same_location, FilePath};
use crate::text::chars_of;
use crate::zones::{
    first_unknown, first_unknown_in, interfaces_of, law_refused_zone_is_undefined,
    lemma_first_unknown_concat, lemma_first_unknown_place, provides, resolves_to, Chain, ResolvedRule, ZoneModel, Zones,
};
use vstd::prelude::*;

verus! {

/// The smallest accepted size of a batch page.
pub const MIN_BATCH_PAGE_BYTES: u32 = 65536;

/// Where the zones of a configuration are defined.
#[derive(Debug)]
pub enum ZoneSource {
    /// In the named file.
    File(FilePath),
    /// In the configuration.
    Inline(Zones),
}

/// What is left to do for a configuration without a defect so far.
#[derive(Debug)]
pub enum Validation {
    /// Nothing: the configuration is accepted.
    Complete,
    /// The zones in the named file are to be read and given to [`Config::validate_zones`].
    ZonesFile(FilePath),
}

/// [`ZoneSource`] as a mathematical value.
pub enum ZoneSourceModel {
    File(Seq<u8>),
    Inline(Map<Seq<char>, ZoneModel>),
}

impl View for ZoneSource {
    type V = ZoneSourceModel;

    open spec fn view(&self) -> ZoneSourceModel {
        match *self {
            ZoneSource::File(path) => ZoneSourceModel::File(path@),
            ZoneSource::Inline(zones) => ZoneSourceModel::Inline(zones@),
        }
    }
}

/// [`Validation`] as a mathematical value.
pub enum ValidationModel {
    Complete,
    ZonesFile(Seq<u8>),
}

impl View for Validation {
    type V = ValidationModel;

    open spec fn view(&self) -> ValidationModel {
        match *self {
            Validation::Complete => ValidationModel::Complete,
            Validation::ZonesFile(path) => ValidationModel::ZonesFile(path@),
        }
    }
}

/// A result with its error as a mathematical value.
pub open spec fn outcome<T: View>(r: Result<T, ConfigError>) -> Result<T::V, Refusal> {
    match r {
        Ok(v) => Ok(v@),
        Err(e) => Err(e@),
    }
}

/// An ASCII letter or digit, an underscore or a hyphen.
pub open spec fn is_table_char(c: char) -> bool {
    ('a' <= c && c <= 'z') || ('A' <= c && c <= 'Z') || ('0' <= c && c <= '9') || c == '_' || c
        == '-'
}

/// Whether `name` can be the name of the nftables table.
pub open spec fn is_table_name(name: Seq<char>) -> bool {
    name.len() > 0 && forall|i: int| 0 <= i < name.len() ==> is_table_char(#[trigger] name[i])
}

/// A rule of a backend that filters on one side of an interface only.
pub trait ZoneRule: Sized {
    /// The zones that the rule names.
    spec fn zone_names(&self) -> Seq<Seq<char>>;

    /// What is wrong with the rule.
    spec fn defect(&self) -> Option<Defect>;

    /// The zones that the rule names.
    fn zones(&self) -> (r: &Vec<String>)
        ensures
            texts(r@) == self.zone_names(),
    ;

    /// What is wrong with the rule.
    fn find_defect(&self) -> (r: Option<Defect>)
        ensures
            r == self.defect(),
    ;
}

impl ZoneRule for XdpRule {
    open spec fn zone_names(&self) -> Seq<Seq<char>> {
        texts(self.ingress_zones@)
    }

    open spec fn defect(&self) -> Option<Defect> {
        if self.blocklist != Direction::Inbound {
            Some(Defect::XdpRuleNotInbound)
        } else if self.ingress_zones@.len() == 0 {
            Some(Defect::XdpRuleWithoutZone)
        } else {
            None
        }
    }

    fn zones(&self) -> (r: &Vec<String>) {
        &self.ingress_zones
    }

    fn find_defect(&self) -> (r: Option<Defect>) {
        if self.blocklist != Direction::Inbound {
            Some(Defect::XdpRuleNotInbound)
        } else if self.ingress_zones.len() == 0 {
            Some(Defect::XdpRuleWithoutZone)
        } else {
            None
        }
    }
}

impl ZoneRule for TcRule {
    open spec fn zone_names(&self) -> Seq<Seq<char>> {
        texts(self.egress_zones@)
    }

    open spec fn defect(&self) -> Option<Defect> {
        if self.blocklist != Direction::Outbound {
            Some(Defect::TcRuleNotOutbound)
        } else if self.egress_zones@.len() == 0 {
            Some(Defect::TcRuleWithoutZone)
        } else {
            None
        }
    }

    fn zones(&self) -> (r: &Vec<String>) {
        &self.egress_zones
    }

    fn find_defect(&self) -> (r: Option<Defect>) {
        if self.blocklist != Direction::Outbound {
            Some(Defect::TcRuleNotOutbound)
        } else if self.egress_zones.len() == 0 {
            Some(Defect::TcRuleWithoutZone)
        } else {
            None
        }
    }
}

/// What is wrong with the first defective rule.
pub open spec fn first_defect<R: ZoneRule>(rules: Seq<R>) -> Option<Defect>
    decreases rules.len(),
{
    if rules.len() == 0 {
        None
    } else if rules[0].defect() is Some {
        rules[0].defect()
    } else {
        first_defect(rules.skip(1))
    }
}

/// The zones that rules name, in order.
pub open spec fn named_zones<R: ZoneRule>(rules: Seq<R>) -> Seq<Seq<char>>
    decreases rules.len(),
{
    if rules.len() == 0 {
        seq![]
    } else {
        named_zones(rules.drop_last()) + rules.last().zone_names()
    }
}

/// Whether a rule on `interfaces`, on every interface if there are none, reaches one of
/// `claimed`.
pub open spec fn reaches(interfaces: Set<Seq<char>>, claimed: Set<Seq<char>>) -> bool {
    interfaces == Set::<Seq<char>>::empty() || !interfaces.disjoint(claimed)
}

impl Config {
    /// What is wrong with the settings other than rules, files and zones. Of several defects,
    /// the first in this order.
    pub open spec fn settings_defect(&self) -> Option<Defect> {
        if !is_table_name(self.nftables.table@) {
            Some(Defect::InvalidTableName)
        } else if self.runtime.debounce_ms == 0 || self.runtime.reconcile_secs == 0 {
            Some(Defect::ZeroInterval)
        } else if self.nftables.batch_page_bytes < MIN_BATCH_PAGE_BYTES {
            Some(Defect::BatchPageTooSmall)
        } else if self.nftables.populate_batch_elements == 0 {
            Some(Defect::ZeroPopulateBatch)
        } else if self.xdp.ipv4_max_entries == 0 || self.xdp.ipv6_max_entries == 0
            || self.xdp.populate_batch_elements == 0 {
            Some(Defect::XdpZeroCapacity)
        } else if !is_rooted(self.xdp.pin_path@) {
            Some(Defect::XdpPinPathRelative)
        } else if self.tc.ipv4_max_entries == 0 || self.tc.ipv6_max_entries == 0
            || self.tc.populate_batch_elements == 0 {
            Some(Defect::TcZeroCapacity)
        } else if !is_rooted(self.tc.pin_path@) {
            Some(Defect::TcPinPathRelative)
        } else if same_location(self.tc.pin_path@, self.xdp.pin_path@) {
            Some(Defect::SharedPinPath)
        } else {
            None
        }
    }

    /// Whether no backend has a rule.
    pub open spec fn has_no_rules(&self) -> bool {
        self.rules.all().len() == 0 && self.xdp.rules@.len() == 0 && self.tc.rules@.len() == 0
    }

    /// Whether a rule refers to the blocklist `direction`, for which no file is given.
    pub open spec fn lacks_blocklist(&self, direction: Direction) -> bool {
        self.refers_to(direction) && self.blocklist(direction) is None
    }

    /// What is wrong with the rules and the files that they need.
    pub open spec fn rules_defect(&self) -> Option<Defect> {
        if self.has_no_rules() {
            Some(Defect::NoRules)
        } else if first_defect(self.xdp.rules@) is Some {
            first_defect(self.xdp.rules@)
        } else if first_defect(self.tc.rules@) is Some {
            first_defect(self.tc.rules@)
        } else if self.lacks_blocklist(Direction::Inbound) {
            Some(Defect::MissingBlocklist(Direction::Inbound))
        } else if self.lacks_blocklist(Direction::Outbound) {
            Some(Defect::MissingBlocklist(Direction::Outbound))
        } else {
            None
        }
    }

    /// Where the zones are defined: in exactly one place.
    pub open spec fn zone_source(&self) -> Result<ZoneSourceModel, Refusal> {
        match (self.files.zones, self.zones) {
            (Some(path), None) => Ok(ZoneSourceModel::File(path@)),
            (None, Some(zones)) => Ok(ZoneSourceModel::Inline(zones@)),
            (None, None) => Err(Refusal::Invalid(Defect::ZonesUndefined)),
            (Some(_), Some(_)) => Err(Refusal::Invalid(Defect::ZonesDefinedTwice)),
        }
    }

    /// The interfaces that XDP rules apply to.
    pub open spec fn xdp_interfaces(&self, zones: Map<Seq<char>, ZoneModel>) -> Set<Seq<char>> {
        interfaces_of(zones, named_zones(self.xdp.rules@))
    }

    /// The interfaces that TC rules apply to.
    pub open spec fn tc_interfaces(&self, zones: Map<Seq<char>, ZoneModel>) -> Set<Seq<char>> {
        interfaces_of(zones, named_zones(self.tc.rules@))
    }

    /// Whether the nftables rule at place `i` filters inbound traffic on an interface of an
    /// XDP rule.
    pub open spec fn meets_xdp(&self, zones: Map<Seq<char>, ZoneModel>, i: int) -> bool {
        let rule = self.rules.all()[i];
        &&& rule.blocklist == Direction::Inbound
        &&& self.rules.chain_at(i) != Chain::Output
        &&& reaches(
            interfaces_of(zones, texts(rule.ingress_zones@)),
            self.xdp_interfaces(zones),
        )
    }

    /// Whether the nftables rule at place `i` filters outbound traffic on an interface of a
    /// TC rule.
    pub open spec fn meets_tc(&self, zones: Map<Seq<char>, ZoneModel>, i: int) -> bool {
        let rule = self.rules.all()[i];
        &&& rule.blocklist == Direction::Outbound
        &&& self.rules.chain_at(i) != Chain::Input
        &&& reaches(interfaces_of(zones, texts(rule.egress_zones@)), self.tc_interfaces(zones))
    }

    /// Whether XDP and nftables rules filter the same inbound traffic.
    pub open spec fn xdp_overlaps(&self, zones: Map<Seq<char>, ZoneModel>) -> bool {
        exists|i: int| 0 <= i < self.rules.all().len() && #[trigger] self.meets_xdp(zones, i)
    }

    /// Whether TC and nftables rules filter the same outbound traffic.
    pub open spec fn tc_overlaps(&self, zones: Map<Seq<char>, ZoneModel>) -> bool {
        exists|i: int| 0 <= i < self.rules.all().len() && #[trigger] self.meets_tc(zones, i)
    }

    /// Why the XDP rules are refused under `zones`.
    pub open spec fn xdp_refusal(&self, zones: Map<Seq<char>, ZoneModel>) -> Option<Refusal> {
        if let Some(name) = first_unknown(zones, named_zones(self.xdp.rules@)) {
            Some(Refusal::UnknownZone(name))
        } else if self.xdp.allow_nftables_overlap || self.xdp_interfaces(zones) == Set::<
            Seq<char>,
        >::empty() {
            None
        } else if let Some(name) = first_unknown_in(zones, self.rules.all()) {
            Some(Refusal::UnknownZone(name))
        } else if self.xdp_overlaps(zones) {
            Some(Refusal::Invalid(Defect::XdpOverlap))
        } else {
            None
        }
    }

    /// Why the TC rules are refused under `zones`.
    pub open spec fn tc_refusal(&self, zones: Map<Seq<char>, ZoneModel>) -> Option<Refusal> {
        if let Some(name) = first_unknown(zones, named_zones(self.tc.rules@)) {
            Some(Refusal::UnknownZone(name))
        } else if self.tc_interfaces(zones) == Set::<Seq<char>>::empty() {
            if self.tc.rules@.len() > 0 {
                Some(Refusal::Invalid(Defect::TcWithoutInterface))
            } else {
                None
            }
        } else if self.tc.allow_nftables_overlap {
            None
        } else if let Some(name) = first_unknown_in(zones, self.rules.all()) {
            Some(Refusal::UnknownZone(name))
        } else if self.tc_overlaps(zones) {
            Some(Refusal::Invalid(Defect::TcOverlap))
        } else {
            None
        }
    }

    /// Why the configuration is refused under `zones`.
    pub open spec fn zones_refusal(&self, zones: Map<Seq<char>, ZoneModel>) -> Option<Refusal> {
        if self.xdp_refusal(zones) is Some {
            self.xdp_refusal(zones)
        } else {
            self.tc_refusal(zones)
        }
    }

    /// What comes of validation before any file is read.
    pub open spec fn validation(&self, cleanup: bool) -> Result<ValidationModel, Refusal> {
        if let Some(d) = self.settings_defect() {
            Err(Refusal::Invalid(d))
        } else if cleanup {
            Ok(ValidationModel::Complete)
        } else if let Some(d) = self.rules_defect() {
            Err(Refusal::Invalid(d))
        } else {
            match self.zone_source() {
                Err(e) => Err(e),
                Ok(ZoneSourceModel::File(path)) => Ok(ValidationModel::ZonesFile(path)),
                Ok(ZoneSourceModel::Inline(zones)) => match self.zones_refusal(zones) {
                    Some(e) => Err(e),
                    None => Ok(ValidationModel::Complete),
                },
            }
        }
    }
}

/// Whether `name` can be the name of the nftables table.
fn valid_table_name(name: &String) -> (r: bool)
    ensures
        r == is_table_name(name@),
{
    let chars = chars_of(name.as_str());
    let mut i: usize = 0;
    while i < chars.len()
        invariant
            chars@ == name@,
            i <= chars.len(),
            forall|j: int| 0 <= j < i ==> is_table_char(#[trigger] name@[j]),
        decreases chars.len() - i,
    {
        let c = chars[i];
        if !(('a' <= c && c <= 'z') || ('A' <= c && c <= 'Z') || ('0' <= c && c <= '9') || c == '_'
            || c == '-') {
            assert(!is_table_char(name@[i as int]));
            return false;
        }
        i = i + 1;
    }
    chars.len() > 0
}

/// What is wrong with the first defective rule.
fn find_first_defect<R: ZoneRule>(rules: &Vec<R>) -> (r: Option<Defect>)
    ensures
        r == first_defect(rules@),
{
    let mut i: usize = 0;
    assert(rules@.skip(0) =~= rules@);
    while i < rules.len()
        invariant
            i <= rules.len(),
            first_defect(rules@) == first_defect(rules@.skip(i as int)),
        decreases rules.len() - i,
    {
        assert(rules@.skip(i as int).skip(1) =~= rules@.skip(i + 1));
        let d = rules[i].find_defect();
        if d.is_some() {
            return d;
        }
        i = i + 1;
    }
    None
}

/// The interfaces of two lists of zones in a row.
proof fn lemma_interfaces_of_concat(
    zones: Map<Seq<char>, ZoneModel>,
    a: Seq<Seq<char>>,
    b: Seq<Seq<char>>,
)
    ensures
        interfaces_of(zones, a + b) == interfaces_of(zones, a).union(interfaces_of(zones, b)),
{
    let both = interfaces_of(zones, a).union(interfaces_of(zones, b));
    assert forall|x: Seq<char>| #[trigger]
        interfaces_of(zones, a + b).contains(x) <==> both.contains(x) by {
        if interfaces_of(zones, a + b).contains(x) {
            let i = choose|i: int|
                0 <= i < (a + b).len() && #[trigger] provides(zones, (a + b)[i], x);
            if i < a.len() {
                assert(provides(zones, a[i], x));
            } else {
                assert(provides(zones, b[i - a.len()], x));
            }
        }
        if interfaces_of(zones, a).contains(x) {
            let i = choose|i: int| 0 <= i < a.len() && #[trigger] provides(zones, a[i], x);
            assert(provides(zones, (a + b)[i], x));
        }
        if interfaces_of(zones, b).contains(x) {
            let i = choose|i: int| 0 <= i < b.len() && #[trigger] provides(zones, b[i], x);
            assert(provides(zones, (a + b)[a.len() + i], x));
        }
    }
    assert(interfaces_of(zones, a + b) =~= both);
}

/// The zones of the first rules are the first zones.
proof fn lemma_named_zones_prefix<R: ZoneRule>(
    zones: Map<Seq<char>, ZoneModel>,
    rules: Seq<R>,
    n: int,
)
    requires
        0 <= n <= rules.len(),
        first_unknown(zones, named_zones(rules.take(n))) is Some,
    ensures
        first_unknown(zones, named_zones(rules)) == first_unknown(
            zones,
            named_zones(rules.take(n)),
        ),
    decreases rules.len() - n,
{
    if n < rules.len() {
        let more = rules.take(n + 1);
        assert(more.drop_last() =~= rules.take(n));
        lemma_first_unknown_concat(zones, named_zones(rules.take(n)), more.last().zone_names());
        lemma_named_zones_prefix(zones, rules, n + 1);
    } else {
        assert(rules.take(n) =~= rules);
    }
}

/// Whether the zone at place `j` of the rule at place `i` is defined.
spec fn is_defined<R: ZoneRule>(
    zones: Map<Seq<char>, ZoneModel>,
    rules: Seq<R>,
    i: int,
    j: int,
) -> bool {
    zones.contains_key(rules[i].zone_names()[j])
}

/// Whether the zone at place `j` of the rule at place `i` holds `x`.
spec fn is_provided<R: ZoneRule>(
    zones: Map<Seq<char>, ZoneModel>,
    rules: Seq<R>,
    i: int,
    j: int,
    x: Seq<char>,
) -> bool {
    0 <= i < rules.len() && 0 <= j < rules[i].zone_names().len() && provides(
        zones,
        rules[i].zone_names()[j],
        x,
    )
}

/// Whether the zone at place `j` of the rule at place `i` is the first one that is not defined.
spec fn is_first_undefined<R: ZoneRule>(
    zones: Map<Seq<char>, ZoneModel>,
    rules: Seq<R>,
    i: int,
    j: int,
) -> bool {
    &&& 0 <= i < rules.len()
    &&& 0 <= j < rules[i].zone_names().len()
    &&& !is_defined(zones, rules, i, j)
    &&& forall|a: int, b: int|
        0 <= a <= i && 0 <= b < rules[a].zone_names().len() && (a < i || b < j)
            ==> #[trigger] is_defined(zones, rules, a, b)
}

/// An interface belongs to the zones that rules name if and only if a rule names a zone that
/// holds it, and the first unknown zone is the first one that is not defined.
proof fn lemma_named_zones<R: ZoneRule>(zones: Map<Seq<char>, ZoneModel>, rules: Seq<R>)
    ensures
        forall|x: Seq<char>| #[trigger]
            interfaces_of(zones, named_zones(rules)).contains(x) <==> exists|i: int, j: int|
                #[trigger] is_provided(zones, rules, i, j, x),
        first_unknown(zones, named_zones(rules)) is None <==> forall|i: int, j: int|
            0 <= i < rules.len() && 0 <= j < rules[i].zone_names().len() ==> #[trigger] is_defined(
                zones,
                rules,
                i,
                j,
            ),
        first_unknown(zones, named_zones(rules)) matches Some(name) ==> exists|i: int, j: int| #[trigger]
            is_first_undefined(zones, rules, i, j) && name == rules[i].zone_names()[j],
    decreases rules.len(),
{
    if rules.len() > 0 {
        let front = rules.drop_last();
        let last = rules.len() - 1;
        let names = rules.last().zone_names();
        lemma_named_zones(zones, front);
        lemma_first_unknown_concat(zones, named_zones(front), names);
        lemma_interfaces_of_concat(zones, named_zones(front), names);
        law_refused_zone_is_undefined(zones, names);
        assert forall|i: int, j: int| 0 <= i < last implies #[trigger] is_defined(
            zones,
            rules,
            i,
            j,
        ) == is_defined(zones, front, i, j) by {}
        assert forall|j: int| #[trigger] is_defined(zones, rules, last, j) == zones.contains_key(
            names[j],
        ) by {}
        assert forall|x: Seq<char>| #[trigger]
            interfaces_of(zones, named_zones(rules)).contains(x) <==> exists|i: int, j: int|
                #[trigger] is_provided(zones, rules, i, j, x) by {
            if interfaces_of(zones, named_zones(front)).contains(x) {
                let (i, j) = choose|i: int, j: int| #[trigger] is_provided(zones, front, i, j, x);
                assert(is_provided(zones, rules, i, j, x));
            }
            if interfaces_of(zones, names).contains(x) {
                let j = choose|j: int| 0 <= j < names.len() && #[trigger] provides(zones, names[j], x);
                assert(is_provided(zones, rules, last, j, x));
            }
            if exists|i: int, j: int| #[trigger] is_provided(zones, rules, i, j, x) {
                let (i, j) = choose|i: int, j: int| #[trigger] is_provided(zones, rules, i, j, x);
                if i < last {
                    assert(is_provided(zones, front, i, j, x));
                } else {
                    assert(provides(zones, names[j], x));
                }
            }
        }
        if first_unknown(zones, named_zones(front)) is Some {
            let (i, j) = choose|i: int, j: int| #[trigger]
                is_first_undefined(zones, front, i, j) && first_unknown(zones, named_zones(front))
                    == Some(front[i].zone_names()[j]);
            assert(!is_defined(zones, front, i, j));
            assert forall|a: int, b: int|
                0 <= a <= i && 0 <= b < rules[a].zone_names().len() && (a < i || b
                    < j) implies #[trigger] is_defined(zones, rules, a, b) by {
                assert(is_defined(zones, front, a, b));
            }
            assert(is_first_undefined(zones, rules, i, j));
            assert(!is_defined(zones, rules, i, j));
        } else if first_unknown(zones, names) is Some {
            lemma_first_unknown_place(zones, names);
            let j = choose|j: int|
                0 <= j < names.len() && !zones.contains_key(#[trigger] names[j]) && first_unknown(
                    zones,
                    names,
                ) == Some(names[j]) && forall|b: int|
                    0 <= b < j ==> zones.contains_key(#[trigger] names[b]);
            assert forall|a: int, b: int|
                0 <= a <= last && 0 <= b < rules[a].zone_names().len() && (a < last || b
                    < j) implies #[trigger] is_defined(zones, rules, a, b) by {
                if a < last {
                    assert(is_defined(zones, front, a, b));
                } else {
                    assert(zones.contains_key(names[b]));
                }
            }
            assert(is_first_undefined(zones, rules, last, j));
            assert(!is_defined(zones, rules, last, j));
        } else {
            assert forall|i: int, j: int|
                0 <= i < rules.len() && 0 <= j
                    < rules[i].zone_names().len() implies #[trigger] is_defined(
                zones,
                rules,
                i,
                j,
            ) by {
                if i < last {
                    assert(is_defined(zones, front, i, j));
                } else {
                    assert(zones.contains_key(names[j]));
                }
            }
        }
    }
}

/// XDP rules apply to an interface if and only if one of them names a zone that holds it. They are
/// refused if and only if one names a zone that is not defined, and for the first such zone.
pub proof fn law_xdp_interfaces(rules: Seq<XdpRule>, zones: Map<Seq<char>, ZoneModel>)
    ensures
        first_unknown(zones, named_zones(rules)) is None <==> (forall|i: int, j: int|
            0 <= i < rules.len() && 0 <= j < rules[i].ingress_zones@.len() ==> zones.contains_key(
                (#[trigger] rules[i].ingress_zones@[j])@,
            )),
        forall|x: Seq<char>| #[trigger]
            interfaces_of(zones, named_zones(rules)).contains(x) <==> exists|i: int, j: int|
                0 <= i < rules.len() && 0 <= j < rules[i].ingress_zones@.len() && zones.contains_key(
                    (#[trigger] rules[i].ingress_zones@[j])@,
                ) && zones[rules[i].ingress_zones@[j]@].interfaces.contains(x),
        first_unknown(zones, named_zones(rules)) matches Some(name) ==> exists|i: int, j: int|
            0 <= i < rules.len() && 0 <= j < rules[i].ingress_zones@.len() && !zones.contains_key(
                (#[trigger] rules[i].ingress_zones@[j])@,
            ) && name == rules[i].ingress_zones@[j]@ && forall|a: int, b: int|
                0 <= a <= i && 0 <= b < rules[a].ingress_zones@.len() && (a < i || b < j)
                    ==> zones.contains_key((#[trigger] rules[a].ingress_zones@[b])@),
{
    lemma_named_zones(zones, rules);
    assert forall|i: int, j: int|
        0 <= i < rules.len() && 0 <= j < rules[i].ingress_zones@.len() implies rules[i].zone_names()[j]
        == (#[trigger] rules[i].ingress_zones@[j])@ by {}
    if first_unknown(zones, named_zones(rules)) is None {
        assert forall|i: int, j: int|
            0 <= i < rules.len() && 0 <= j < rules[i].ingress_zones@.len() implies zones.contains_key(
            (#[trigger] rules[i].ingress_zones@[j])@,
        ) by {
            assert(is_defined(zones, rules, i, j));
        }
    } else {
        let (i, j) = choose|i: int, j: int| #[trigger]
            is_first_undefined(zones, rules, i, j) && first_unknown(zones, named_zones(rules))
                == Some(rules[i].zone_names()[j]);
        let name = rules[i].ingress_zones@[j];
        assert(!zones.contains_key(name@));
        assert forall|a: int, b: int|
            0 <= a <= i && 0 <= b < rules[a].ingress_zones@.len() && (a < i || b
                < j) implies zones.contains_key((#[trigger] rules[a].ingress_zones@[b])@) by {
            assert(is_defined(zones, rules, a, b));
        }
    }
    assert forall|x: Seq<char>| #[trigger]
        interfaces_of(zones, named_zones(rules)).contains(x) <==> exists|i: int, j: int|
            0 <= i < rules.len() && 0 <= j < rules[i].ingress_zones@.len() && zones.contains_key(
                (#[trigger] rules[i].ingress_zones@[j])@,
            ) && zones[rules[i].ingress_zones@[j]@].interfaces.contains(x) by {
        if interfaces_of(zones, named_zones(rules)).contains(x) {
            let (i, j) = choose|i: int, j: int| #[trigger] is_provided(zones, rules, i, j, x);
            let name = rules[i].ingress_zones@[j];
            assert(zones[name@].interfaces.contains(x));
        }
        if exists|i: int, j: int|
            0 <= i < rules.len() && 0 <= j < rules[i].ingress_zones@.len() && zones.contains_key(
                (#[trigger] rules[i].ingress_zones@[j])@,
            ) && zones[rules[i].ingress_zones@[j]@].interfaces.contains(x) {
            let (i, j) = choose|i: int, j: int|
                0 <= i < rules.len() && 0 <= j < rules[i].ingress_zones@.len() && zones.contains_key(
                    (#[trigger] rules[i].ingress_zones@[j])@,
                ) && zones[rules[i].ingress_zones@[j]@].interfaces.contains(x);
            assert(is_provided(zones, rules, i, j, x));
        }
    }
}

/// TC rules apply to an interface if and only if one of them names a zone that holds it. They are
/// refused if and only if one names a zone that is not defined, and for the first such zone.
pub proof fn law_tc_interfaces(rules: Seq<TcRule>, zones: Map<Seq<char>, ZoneModel>)
    ensures
        first_unknown(zones, named_zones(rules)) is None <==> (forall|i: int, j: int|
            0 <= i < rules.len() && 0 <= j < rules[i].egress_zones@.len() ==> zones.contains_key(
                (#[trigger] rules[i].egress_zones@[j])@,
            )),
        forall|x: Seq<char>| #[trigger]
            interfaces_of(zones, named_zones(rules)).contains(x) <==> exists|i: int, j: int|
                0 <= i < rules.len() && 0 <= j < rules[i].egress_zones@.len() && zones.contains_key(
                    (#[trigger] rules[i].egress_zones@[j])@,
                ) && zones[rules[i].egress_zones@[j]@].interfaces.contains(x),
        first_unknown(zones, named_zones(rules)) matches Some(name) ==> exists|i: int, j: int|
            0 <= i < rules.len() && 0 <= j < rules[i].egress_zones@.len() && !zones.contains_key(
                (#[trigger] rules[i].egress_zones@[j])@,
            ) && name == rules[i].egress_zones@[j]@ && forall|a: int, b: int|
                0 <= a <= i && 0 <= b < rules[a].egress_zones@.len() && (a < i || b < j)
                    ==> zones.contains_key((#[trigger] rules[a].egress_zones@[b])@),
{
    lemma_named_zones(zones, rules);
    assert forall|i: int, j: int|
        0 <= i < rules.len() && 0 <= j < rules[i].egress_zones@.len() implies rules[i].zone_names()[j]
        == (#[trigger] rules[i].egress_zones@[j])@ by {}
    if first_unknown(zones, named_zones(rules)) is None {
        assert forall|i: int, j: int|
            0 <= i < rules.len() && 0 <= j < rules[i].egress_zones@.len() implies zones.contains_key(
            (#[trigger] rules[i].egress_zones@[j])@,
        ) by {
            assert(is_defined(zones, rules, i, j));
        }
    } else {
        let (i, j) = choose|i: int, j: int| #[trigger]
            is_first_undefined(zones, rules, i, j) && first_unknown(zones, named_zones(rules))
                == Some(rules[i].zone_names()[j]);
        let name = rules[i].egress_zones@[j];
        assert(!zones.contains_key(name@));
        assert forall|a: int, b: int|
            0 <= a <= i && 0 <= b < rules[a].egress_zones@.len() && (a < i || b
                < j) implies zones.contains_key((#[trigger] rules[a].egress_zones@[b])@) by {
            assert(is_defined(zones, rules, a, b));
        }
    }
    assert forall|x: Seq<char>| #[trigger]
        interfaces_of(zones, named_zones(rules)).contains(x) <==> exists|i: int, j: int|
            0 <= i < rules.len() && 0 <= j < rules[i].egress_zones@.len() && zones.contains_key(
                (#[trigger] rules[i].egress_zones@[j])@,
            ) && zones[rules[i].egress_zones@[j]@].interfaces.contains(x) by {
        if interfaces_of(zones, named_zones(rules)).contains(x) {
            let (i, j) = choose|i: int, j: int| #[trigger] is_provided(zones, rules, i, j, x);
            let name = rules[i].egress_zones@[j];
            assert(zones[name@].interfaces.contains(x));
        }
        if exists|i: int, j: int|
            0 <= i < rules.len() && 0 <= j < rules[i].egress_zones@.len() && zones.contains_key(
                (#[trigger] rules[i].egress_zones@[j])@,
            ) && zones[rules[i].egress_zones@[j]@].interfaces.contains(x) {
            let (i, j) = choose|i: int, j: int|
                0 <= i < rules.len() && 0 <= j < rules[i].egress_zones@.len() && zones.contains_key(
                    (#[trigger] rules[i].egress_zones@[j])@,
                ) && zones[rules[i].egress_zones@[j]@].interfaces.contains(x);
            assert(is_provided(zones, rules, i, j, x));
        }
    }
}

/// The interfaces that rules apply to.
fn resolve_zones<R: ZoneRule>(rules: &Vec<R>, zones: &Zones) -> (r: Result<
    InterfaceSet,
    ConfigError,
>)
    ensures
        match r {
            Ok(set) => first_unknown(zones@, named_zones(rules@)) is None && set@ == interfaces_of(
                zones@,
                named_zones(rules@),
            ),
            Err(e) => first_unknown(zones@, named_zones(rules@)) matches Some(name) && e@
                == Refusal::UnknownZone(name),
        },
{
    let mut interfaces = InterfaceSet::new();
    let mut i: usize = 0;
    assert(interfaces_of(zones@, named_zones(rules@.take(0))) =~= Set::<Seq<char>>::empty());
    while i < rules.len()
        invariant
            i <= rules.len(),
            first_unknown(zones@, named_zones(rules@.take(i as int))) is None,
            interfaces@ == interfaces_of(zones@, named_zones(rules@.take(i as int))),
        decreases rules.len() - i,
    {
        let names = rules[i].zones();
        proof {
            let before = named_zones(rules@.take(i as int));
            assert(rules@.take(i + 1).drop_last() =~= rules@.take(i as int));
            lemma_first_unknown_concat(zones@, before, texts(names@));
            lemma_interfaces_of_concat(zones@, before, texts(names@));
        }
        match zones.interfaces(names) {
            Ok(set) => {
                interfaces.extend(&set);
            },
            Err(e) => {
                proof {
                    lemma_named_zones_prefix(zones@, rules@, i + 1);
                }
                return Err(e);
            },
        }
        i = i + 1;
    }
    assert(rules@.take(rules@.len() as int) =~= rules@);
    Ok(interfaces)
}

/// Whether a rule on the listed interfaces, on every interface if none is listed, reaches one
/// of `claimed`.
fn list_reaches(list: &Vec<String>, claimed: &InterfaceSet) -> (r: bool)
    ensures
        r == reaches(texts(list@).to_set(), claimed@),
{
    let ghost names = texts(list@);
    if list.len() == 0 {
        assert(names.to_set() =~= Set::<Seq<char>>::empty());
        return true;
    }
    assert(names.to_set().contains(names[0]));
    let mut i: usize = 0;
    while i < list.len()
        invariant
            names == texts(list@),
            i <= list.len(),
            forall|j: int| 0 <= j < i ==> !claimed@.contains(#[trigger] names[j]),
        decreases list.len() - i,
    {
        if claimed.contains(&list[i]) {
            assert(names.to_set().contains(names[i as int]));
            return true;
        }
        i = i + 1;
    }
    assert(names.to_set().disjoint(claimed@));
    false
}

impl Config {
    /// What is wrong with the settings other than rules, files and zones.
    fn find_settings_defect(&self) -> (r: Option<Defect>)
        ensures
            r == self.settings_defect(),
    {
        if !valid_table_name(&self.nftables.table) {
            return Some(Defect::InvalidTableName);
        }
        if self.runtime.debounce_ms == 0 || self.runtime.reconcile_secs == 0 {
            return Some(Defect::ZeroInterval);
        }
        if self.nftables.batch_page_bytes < MIN_BATCH_PAGE_BYTES {
            return Some(Defect::BatchPageTooSmall);
        }
        if self.nftables.populate_batch_elements == 0 {
            return Some(Defect::ZeroPopulateBatch);
        }
        if self.xdp.ipv4_max_entries == 0 || self.xdp.ipv6_max_entries == 0
            || self.xdp.populate_batch_elements == 0 {
            return Some(Defect::XdpZeroCapacity);
        }
        if self.xdp.pin_path.is_empty() || !self.xdp.pin_path.is_absolute() {
            return Some(Defect::XdpPinPathRelative);
        }
        if self.tc.ipv4_max_entries == 0 || self.tc.ipv6_max_entries == 0
            || self.tc.populate_batch_elements == 0 {
            return Some(Defect::TcZeroCapacity);
        }
        if self.tc.pin_path.is_empty() || !self.tc.pin_path.is_absolute() {
            return Some(Defect::TcPinPathRelative);
        }
        if self.tc.pin_path.same_as(&self.xdp.pin_path) {
            return Some(Defect::SharedPinPath);
        }
        None
    }

    /// What is wrong with the rules and the files that they need.
    fn find_rules_defect(&self) -> (r: Option<Defect>)
        ensures
            r == self.rules_defect(),
    {
        if self.rules.input.len() == 0 && self.rules.forward.len() == 0 && self.rules.output.len()
            == 0 && self.xdp.rules.len() == 0 && self.tc.rules.len() == 0 {
            return Some(Defect::NoRules);
        }
        let d = find_first_defect(&self.xdp.rules);
        if d.is_some() {
            return d;
        }
        let d = find_first_defect(&self.tc.rules);
        if d.is_some() {
            return d;
        }
        if self.uses(Direction::Inbound) && self.blocklist_path(Direction::Inbound).is_none() {
            return Some(Defect::MissingBlocklist(Direction::Inbound));
        }
        if self.uses(Direction::Outbound) && self.blocklist_path(Direction::Outbound).is_none() {
            return Some(Defect::MissingBlocklist(Direction::Outbound));
        }
        None
    }

    /// Where the zones are defined.
    pub fn load_zones(&self) -> (r: Result<ZoneSource, ConfigError>)
        ensures
            outcome(r) == self.zone_source(),
            r matches Ok(ZoneSource::File(path)) ==> self.zones is None && (
            self.files.zones matches Some(p) && path@ == p@),
            r matches Ok(ZoneSource::Inline(zones)) ==> self.files.zones is None && (
            self.zones matches Some(z) && zones@ == z@),
            r is Ok <==> self.zones is Some != self.files.zones is Some,
            r matches Err(e) ==> e@ == Refusal::Invalid(
                if self.zones is Some {
                    Defect::ZonesDefinedTwice
                } else {
                    Defect::ZonesUndefined
                },
            ),
    {
        match (&self.files.zones, &self.zones) {
            (Some(path), None) => Ok(ZoneSource::File(path.clone())),
            (None, Some(zones)) => Ok(ZoneSource::Inline(zones.clone())),
            (None, None) => Err(ConfigError::Invalid(Defect::ZonesUndefined)),
            (Some(_), Some(_)) => Err(ConfigError::Invalid(Defect::ZonesDefinedTwice)),
        }
    }

    /// Decides whether the configuration is accepted, as far as no file needs to be read for
    /// it. To clean up, sound settings are enough.
    pub fn validate(&self, cleanup: bool) -> (r: Result<Validation, ConfigError>)
        ensures
            outcome(r) == self.validation(cleanup),
            self.validation(cleanup) == match r {
                Ok(Validation::Complete) => Ok(ValidationModel::Complete),
                Ok(Validation::ZonesFile(path)) => Ok(ValidationModel::ZonesFile(path.bytes@)),
                Err(ConfigError::Invalid(d)) => Err(Refusal::Invalid(d)),
                Err(ConfigError::UnknownZone(name)) => Err(Refusal::UnknownZone(name@)),
            },
    {
        if let Some(d) = self.find_settings_defect() {
            return Err(ConfigError::Invalid(d));
        }
        if cleanup {
            return Ok(Validation::Complete);
        }
        if let Some(d) = self.find_rules_defect() {
            return Err(ConfigError::Invalid(d));
        }
        match self.load_zones() {
            Err(e) => Err(e),
            Ok(ZoneSource::File(path)) => Ok(Validation::ZonesFile(path)),
            Ok(ZoneSource::Inline(zones)) => match self.validate_zones(&zones) {
                Err(e) => Err(e),
                Ok(_) => Ok(Validation::Complete),
            },
        }
    }

    /// Decides whether the configuration is accepted under `zones`: its rules name zones that
    /// are defined, and no two backends filter the same traffic unless that is allowed.
    pub fn validate_zones(&self, zones: &Zones) -> (r: Result<(), ConfigError>)
        ensures
            match r {
                Ok(_) => self.zones_refusal(zones@) is None,
                Err(e) => self.zones_refusal(zones@) == Some(e@),
            },
            self.zones_refusal(zones@) == match r {
                Ok(_) => None,
                Err(ConfigError::Invalid(d)) => Some(Refusal::Invalid(d)),
                Err(ConfigError::UnknownZone(name)) => Some(Refusal::UnknownZone(name@)),
            },
    {
        let xdp_interfaces = match self.resolve_xdp_interfaces(zones) {
            Ok(set) => set,
            Err(e) => {
                return Err(e);
            },
        };
        if !self.xdp.allow_nftables_overlap && !xdp_interfaces.is_empty() {
            let rules = match self.resolve_rules(zones) {
                Ok(rules) => rules,
                Err(e) => {
                    return Err(e);
                },
            };
            let mut i: usize = 0;
            while i < rules.len()
                invariant
                    i <= rules.len(),
                    rules@.len() == self.rules.all().len(),
                    xdp_interfaces@ == self.xdp_interfaces(zones@),
                    forall|j: int|
                        0 <= j < rules@.len() ==> resolves_to(
                            zones@,
                            self.rules.chain_at(j),
                            self.rules.all()[j],
                            #[trigger] rules@[j],
                        ),
                    forall|j: int| 0 <= j < i ==> !#[trigger] self.meets_xdp(zones@, j),
                    self.xdp_overlaps(zones@) ==> self.xdp_refusal(zones@) == Some(
                        Refusal::Invalid(Defect::XdpOverlap),
                    ),
                decreases rules.len() - i,
            {
                let rule = &rules[i];
                if rule.blocklist == Direction::Inbound && rule.chain != Chain::Output
                    && list_reaches(&rule.ingress, &xdp_interfaces) {
                    assert(self.meets_xdp(zones@, i as int));
                    return Err(ConfigError::Invalid(Defect::XdpOverlap));
                }
                i = i + 1;
            }
        }
        assert(self.xdp_refusal(zones@) is None);
        let tc_interfaces = match self.resolve_tc_interfaces(zones) {
            Ok(set) => set,
            Err(e) => {
                return Err(e);
            },
        };
        if self.tc.rules.len() > 0 && tc_interfaces.is_empty() {
            return Err(ConfigError::Invalid(Defect::TcWithoutInterface));
        }
        if !self.tc.allow_nftables_overlap && !tc_interfaces.is_empty() {
            let rules = match self.resolve_rules(zones) {
                Ok(rules) => rules,
                Err(e) => {
                    return Err(e);
                },
            };
            let mut i: usize = 0;
            while i < rules.len()
                invariant
                    i <= rules.len(),
                    rules@.len() == self.rules.all().len(),
                    tc_interfaces@ == self.tc_interfaces(zones@),
                    forall|j: int|
                        0 <= j < rules@.len() ==> resolves_to(
                            zones@,
                            self.rules.chain_at(j),
                            self.rules.all()[j],
                            #[trigger] rules@[j],
                        ),
                    forall|j: int| 0 <= j < i ==> !#[trigger] self.meets_tc(zones@, j),
                    self.xdp_refusal(zones@) is None,
                    self.tc_overlaps(zones@) ==> self.tc_refusal(zones@) == Some(
                        Refusal::Invalid(Defect::TcOverlap),
                    ),
                decreases rules.len() - i,
            {
                let rule = &rules[i];
                if rule.blocklist == Direction::Outbound && rule.chain != Chain::Input
                    && list_reaches(&rule.egress, &tc_interfaces) {
                    assert(self.meets_tc(zones@, i as int));
                    return Err(ConfigError::Invalid(Defect::TcOverlap));
                }
                i = i + 1;
            }
        }
        Ok(())
    }

    /// The interfaces that XDP rules apply to.
    pub fn resolve_xdp_interfaces(&self, zones: &Zones) -> (r: Result<InterfaceSet, ConfigError>)
        ensures
            match r {
                Ok(set) => first_unknown(zones@, named_zones(self.xdp.rules@)) is None && set@
                    == self.xdp_interfaces(zones@),
                Err(e) => first_unknown(zones@, named_zones(self.xdp.rules@)) matches Some(name)
                    && e@ == Refusal::UnknownZone(name),
            },
            r is Ok <==> (forall|i: int, j: int|
                0 <= i < self.xdp.rules@.len() && 0 <= j < self.xdp.rules@[i].ingress_zones@.len()
                    ==> zones@.contains_key((#[trigger] self.xdp.rules@[i].ingress_zones@[j])@)),
            r matches Ok(set) ==> forall|x: Seq<char>| #[trigger]
                set@.contains(x) <==> exists|i: int, j: int|
                    0 <= i < self.xdp.rules@.len() && 0 <= j < self.xdp.rules@[i].ingress_zones@.len()
                        && zones@[(#[trigger] self.xdp.rules@[i].ingress_zones@[j])@].interfaces.contains(x),
            r matches Err(e) ==> exists|i: int, j: int|
                0 <= i < self.xdp.rules@.len() && 0 <= j < self.xdp.rules@[i].ingress_zones@.len()
                    && !zones@.contains_key((#[trigger] self.xdp.rules@[i].ingress_zones@[j])@) && e@
                    == Refusal::UnknownZone(self.xdp.rules@[i].ingress_zones@[j]@) && forall|a: int, b: int|
                    0 <= a <= i && 0 <= b < self.xdp.rules@[a].ingress_zones@.len() && (a < i || b < j)
                        ==> zones@.contains_key((#[trigger] self.xdp.rules@[a].ingress_zones@[b])@),
    {
        proof {
            law_xdp_interfaces(self.xdp.rules@, zones@);
        }
        resolve_zones(&self.xdp.rules, zones)
    }

    /// The interfaces that TC rules apply to.
    pub fn resolve_tc_interfaces(&self, zones: &Zones) -> (r: Result<InterfaceSet, ConfigError>)
        ensures
            match r {
                Ok(set) => first_unknown(zones@, named_zones(self.tc.rules@)) is None && set@
                    == self.tc_interfaces(zones@),
                Err(e) => first_unknown(zones@, named_zones(self.tc.rules@)) matches Some(name) && e@
                    == Refusal::UnknownZone(name),
            },
            r is Ok <==> (forall|i: int, j: int|
                0 <= i < self.tc.rules@.len() && 0 <= j < self.tc.rules@[i].egress_zones@.len()
                    ==> zones@.contains_key((#[trigger] self.tc.rules@[i].egress_zones@[j])@)),
            r matches Ok(set) ==> forall|x: Seq<char>| #[trigger]
                set@.contains(x) <==> exists|i: int, j: int|
                    0 <= i < self.tc.rules@.len() && 0 <= j < self.tc.rules@[i].egress_zones@.len()
                        && zones@[(#[trigger] self.tc.rules@[i].egress_zones@[j])@].interfaces.contains(x),
            r matches Err(e) ==> exists|i: int, j: int|
                0 <= i < self.tc.rules@.len() && 0 <= j < self.tc.rules@[i].egress_zones@.len()
                    && !zones@.contains_key((#[trigger] self.tc.rules@[i].egress_zones@[j])@) && e@
                    == Refusal::UnknownZone(self.tc.rules@[i].egress_zones@[j]@) && forall|a: int, b: int|
                    0 <= a <= i && 0 <= b < self.tc.rules@[a].egress_zones@.len() && (a < i || b < j)
                        ==> zones@.contains_key((#[trigger] self.tc.rules@[a].egress_zones@[b])@),
    {
        proof {
            law_tc_interfaces(self.tc.rules@, zones@);
        }
        resolve_zones(&self.tc.rules, zones)
    }

    /// The nftables rules with the interfaces that their zones stand for.
    pub fn resolve_rules(&self, zones: &Zones) -> (r: Result<Vec<ResolvedRule>, ConfigError>)
        ensures
            match r {
                Ok(v) => {
                    &&& first_unknown_in(zones@, self.rules.all()) is None
                    &&& v@.len() == self.rules.all().len()
                    &&& forall|i: int|
                        0 <= i < v@.len() ==> resolves_to(
                            zones@,
                            self.rules.chain_at(i),
                            self.rules.all()[i],
                            #[trigger] v@[i],
                        )
                },
                Err(e) => first_unknown_in(zones@, self.rules.all()) matches Some(name) && e@
                    == Refusal::UnknownZone(name),
            },
    {
        zones.resolve(&self.rules)
    }
}

/// Whether the rule at place `i` has the first defect.
pub open spec fn is_first_faulty<R: ZoneRule>(rules: Seq<R>, i: int) -> bool {
    &&& 0 <= i < rules.len()
    &&& rules[i].defect() is Some
    &&& first_defect(rules) == rules[i].defect()
    &&& forall|j: int| 0 <= j < i ==> (#[trigger] rules[j]).defect() is None
}

/// The first defect is that of the first faulty rule.
pub proof fn lemma_first_defect<R: ZoneRule>(rules: Seq<R>)
    ensures
        first_defect(rules) is None <==> (forall|i: int|
            0 <= i < rules.len() ==> (#[trigger] rules[i]).defect() is None),
        first_defect(rules) is Some ==> exists|i: int| is_first_faulty(rules, i),
    decreases rules.len(),
{
    lemma_rules_sound(rules);
    if first_defect(rules) is Some {
        if rules[0].defect() is Some {
            assert(is_first_faulty(rules, 0));
        } else {
            let rest = rules.skip(1);
            lemma_first_defect(rest);
            let i = choose|i: int| is_first_faulty(rest, i);
            assert forall|j: int| 0 <= j < i + 1 implies (#[trigger] rules[j]).defect() is None by {
                if j > 0 {
                    assert(rest[j - 1] == rules[j]);
                }
            }
            assert(rest[i] == rules[i + 1]);
            assert(is_first_faulty(rules, i + 1));
        }
    }
}

/// All rules are sound if and only if there is no first defect among them.
pub proof fn lemma_rules_sound<R: ZoneRule>(rules: Seq<R>)
    ensures
        first_defect(rules) is None <==> (forall|i: int|
            0 <= i < rules.len() ==> (#[trigger] rules[i]).defect() is None),
    decreases rules.len(),
{
    if rules.len() > 0 {
        let rest = rules.skip(1);
        lemma_rules_sound(rest);
        assert forall|i: int| 0 <= i < rest.len() implies rest[i] == #[trigger] rules[i + 1] by {}
        if first_defect(rules) is None {
            assert forall|i: int| 0 <= i < rules.len() implies (
            #[trigger] rules[i]).defect() is None by {
                if i > 0 {
                    assert(rest[i - 1] == rules[i]);
                }
            }
        }
    }
}

/// A configuration that is not refused for running is accepted for cleaning up, and whether it
/// is accepted for cleaning up depends on its settings alone.
pub proof fn law_cleanup_needs_settings_only(c: Config)
    ensures
        c.validation(false) is Ok ==> c.validation(true) == Ok::<_, Refusal>(
            ValidationModel::Complete,
        ),
        c.validation(true) is Ok <==> c.settings_defect() is None,
        c.validation(true) is Err ==> c.validation(false) == c.validation(true),
{
}

/// In a configuration that is not refused for running, each blocklist that a rule refers to has
/// a file, XDP rules filter inbound and TC rules outbound traffic of at least one zone, and the
/// two backends keep their state in different absolute locations.
pub proof fn law_accepted_rules_are_sound(c: Config)
    requires
        c.validation(false) is Ok,
    ensures
        !c.has_no_rules(),
        forall|d: Direction| c.refers_to(d) ==> c.blocklist(d) is Some,
        forall|i: int|
            0 <= i < c.xdp.rules@.len() ==> (#[trigger] c.xdp.rules@[i]).blocklist
                == Direction::Inbound && c.xdp.rules@[i].ingress_zones@.len() > 0,
        forall|i: int|
            0 <= i < c.tc.rules@.len() ==> (#[trigger] c.tc.rules@[i]).blocklist
                == Direction::Outbound && c.tc.rules@[i].egress_zones@.len() > 0,
        is_rooted(c.xdp.pin_path@),
        is_rooted(c.tc.pin_path@),
        !same_location(c.tc.pin_path@, c.xdp.pin_path@),
{
    lemma_rules_sound(c.xdp.rules@);
    lemma_rules_sound(c.tc.rules@);
    assert forall|d: Direction| c.refers_to(d) implies c.blocklist(d) is Some by {
        assert(!c.lacks_blocklist(Direction::Inbound));
        assert(!c.lacks_blocklist(Direction::Outbound));
    }
    assert forall|i: int| 0 <= i < c.xdp.rules@.len() implies (#[trigger] c.xdp.rules@[i]).blocklist
        == Direction::Inbound && c.xdp.rules@[i].ingress_zones@.len() > 0 by {
        assert(c.xdp.rules@[i].defect() is None);
    }
    assert forall|i: int| 0 <= i < c.tc.rules@.len() implies (#[trigger] c.tc.rules@[i]).blocklist
        == Direction::Outbound && c.tc.rules@[i].egress_zones@.len() > 0 by {
        assert(c.tc.rules@[i].defect() is None);
    }
}

/// Under zones that are not refused, no nftables rule filters inbound traffic on an interface
/// of an XDP rule unless that is allowed.
pub proof fn law_accepted_zones_keep_xdp_apart(c: Config, zones: Map<Seq<char>, ZoneModel>, i: int)
    requires
        c.zones_refusal(zones) is None,
        !c.xdp.allow_nftables_overlap,
        0 <= i < c.rules.all().len(),
        c.rules.all()[i].blocklist == Direction::Inbound,
        c.rules.chain_at(i) != Chain::Output,
    ensures
        interfaces_of(zones, texts(c.rules.all()[i].ingress_zones@)).disjoint(
            c.xdp_interfaces(zones),
        ),
        c.xdp_interfaces(zones) != Set::<Seq<char>>::empty() ==> interfaces_of(
            zones,
            texts(c.rules.all()[i].ingress_zones@),
        ) != Set::<Seq<char>>::empty(),
{
    assert(c.xdp_interfaces(zones) != Set::<Seq<char>>::empty() ==> !c.meets_xdp(zones, i));
}

/// Under zones that are not refused, the TC rules have an interface to apply to.
pub proof fn law_accepted_tc_rules_apply(c: Config, zones: Map<Seq<char>, ZoneModel>)
    requires
        c.zones_refusal(zones) is None,
        c.tc.rules@.len() > 0,
    ensures
        c.tc_interfaces(zones) != Set::<Seq<char>>::empty(),
{
}

/// Under zones that are not refused, no nftables rule filters outbound traffic on an interface
/// of a TC rule unless that is allowed.
pub proof fn law_accepted_zones_keep_tc_apart(c: Config, zones: Map<Seq<char>, ZoneModel>, i: int)
    requires
        c.zones_refusal(zones) is None,
        !c.tc.allow_nftables_overlap,
        0 <= i < c.rules.all().len(),
        c.rules.all()[i].blocklist == Direction::Outbound,
        c.rules.chain_at(i) != Chain::Input,
    ensures
        interfaces_of(zones, texts(c.rules.all()[i].egress_zones@)).disjoint(
            c.tc_interfaces(zones),
        ),
        c.tc_interfaces(zones) != Set::<Seq<char>>::empty() ==> interfaces_of(
            zones,
            texts(c.rules.all()[i].egress_zones@),
        ) != Set::<Seq<char>>::empty(),
{
    assert(c.tc_interfaces(zones) != Set::<Seq<char>>::empty() ==> !c.meets_tc(zones, i));
}

/// Where an overlap is allowed, none is a reason to refuse a configuration.
pub proof fn law_allowed_overlap_is_accepted(c: Config, zones: Map<Seq<char>, ZoneModel>)
    ensures
        c.xdp.allow_nftables_overlap ==> c.zones_refusal(zones) != Some(
            Refusal::Invalid(Defect::XdpOverlap),
        ),
        c.tc.allow_nftables_overlap ==> c.zones_refusal(zones) != Some(
            Refusal::Invalid(Defect::TcOverlap),
        ),
{
}

/// Zones in a file are validated as the same zones in the configuration are: the checks that
/// need no zones come first, then those of [`Config::validate_zones`].
pub proof fn law_zones_file_validates_as_inline(
    inline: Config,
    filed: Config,
    zones: Zones,
    path: FilePath,
)
    requires
        inline.zones == Some(zones),
        inline.files.zones is None,
        filed.zones is None,
        filed.files.zones == Some(path),
        filed.files.inbound == inline.files.inbound,
        filed.files.outbound == inline.files.outbound,
        filed.nftables == inline.nftables,
        filed.xdp == inline.xdp,
        filed.tc == inline.tc,
        filed.runtime == inline.runtime,
        filed.rules == inline.rules,
    ensures
        inline.validation(false) == match filed.validation(false) {
            Err(e) => Err(e),
            Ok(_) => match filed.zones_refusal(zones@) {
                Some(e) => Err(e),
                None => Ok(ValidationModel::Complete),
            },
        },
        filed.validation(false) is Ok ==> filed.validation(false) == Ok::<_, Refusal>(
            ValidationModel::ZonesFile(path@),
        ),
{
    assert forall|d: Direction| filed.refers_to(d) == inline.refers_to(d) by {
        assert(filed.xdp_refers_to(d) == inline.xdp_refers_to(d));
        assert(filed.tc_refers_to(d) == inline.tc_refers_to(d));
    }
    let z = zones@;
    assert forall|i: int| filed.meets_xdp(z, i) == inline.meets_xdp(z, i) by {}
    assert forall|i: int| filed.meets_tc(z, i) == inline.meets_tc(z, i) by {}
    assert(filed.xdp_overlaps(z) == inline.xdp_overlaps(z));
    assert(filed.tc_overlaps(z) == inline.tc_overlaps(z));
}

/// The interfaces of zones depend neither on the order in which the zones are named nor on how
/// often one is named.
pub proof fn law_interfaces_ignore_order_and_repetition(
    zones: Map<Seq<char>, ZoneModel>,
    a: Seq<Seq<char>>,
    b: Seq<Seq<char>>,
)
    requires
        a.to_set() == b.to_set(),
    ensures
        interfaces_of(zones, a) == interfaces_of(zones, b),
{
    assert forall|x: Seq<char>| #[trigger]
        interfaces_of(zones, a).contains(x) <==> interfaces_of(zones, b).contains(x) by {
        if interfaces_of(zones, a).contains(x) {
            let i = choose|i: int| 0 <= i < a.len() && #[trigger] provides(zones, a[i], x);
            assert(b.to_set().contains(a[i]));
            let j = choose|j: int| 0 <= j < b.len() && b[j] == a[i];
            assert(provides(zones, b[j], x));
        }
        if interfaces_of(zones, b).contains(x) {
            let i = choose|i: int| 0 <= i < b.len() && #[trigger] provides(zones, b[i], x);
            assert(a.to_set().contains(b[i]));
            let j = choose|j: int| 0 <= j < a.len() && a[j] == b[i];
            assert(provides(zones, a[j], x));
        }
    }
    assert(interfaces_of(zones, a) =~= interfaces_of(zones, b));
}

} // verus!
