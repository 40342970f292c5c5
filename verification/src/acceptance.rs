//! Which configurations are accepted, said of their settings one by one.

use crate::config::{Config, Direction, RuleMapping};
use crate::error::{Defect, Refusal};
use crate::interfaces::texts;
use crate::path::same_location;
use crate::validate::{
    first_defect, law_tc_interfaces, law_xdp_interfaces, lemma_rules_sound, ValidationModel,
};
use crate::zones::{
    first_unknown, first_unknown_in, interfaces_of, law_refused_zone_is_undefined, provides,
    Chain, ZoneModel,
};
use vstd::prelude::*;

verus! {

/// The settings are accepted if and only if the table has a name of ASCII letters, digits,
/// underscores and hyphens, the intervals, capacities and batches are not zero, a batch page has
/// at least 64 KiB, and the pin paths start at the root and differ.
pub proof fn law_accepted_settings(c: Config)
    ensures
        c.validation(true) is Ok <==> {
            &&& c.nftables.table@.len() > 0
            &&& forall|i: int|
                0 <= i < c.nftables.table@.len() ==> {
                    let u = #[trigger] c.nftables.table@[i] as int;
                    97 <= u <= 122 || 65 <= u <= 90 || 48 <= u <= 57 || u == 95 || u == 45
                }
            &&& c.runtime.debounce_ms > 0
            &&& c.runtime.reconcile_secs > 0
            &&& c.nftables.batch_page_bytes >= 64 * 1024
            &&& c.nftables.populate_batch_elements > 0
            &&& c.xdp.ipv4_max_entries > 0
            &&& c.xdp.ipv6_max_entries > 0
            &&& c.xdp.populate_batch_elements > 0
            &&& c.xdp.pin_path.bytes@.len() > 0
            &&& c.xdp.pin_path.bytes@[0] == 47
            &&& c.tc.ipv4_max_entries > 0
            &&& c.tc.ipv6_max_entries > 0
            &&& c.tc.populate_batch_elements > 0
            &&& c.tc.pin_path.bytes@.len() > 0
            &&& c.tc.pin_path.bytes@[0] == 47
            &&& !same_location(c.tc.pin_path.bytes@, c.xdp.pin_path.bytes@)
        },
{
    lemma_table_name(c);
}

proof fn lemma_table_name(c: Config)
    ensures
        crate::validate::is_table_name(c.nftables.table@) <==> c.nftables.table@.len() > 0 && (forall|
            i: int,
        |
            0 <= i < c.nftables.table@.len() ==> {
                let u = #[trigger] c.nftables.table@[i] as int;
                97 <= u <= 122 || 65 <= u <= 90 || 48 <= u <= 57 || u == 95 || u == 45
            }),
{
    assert forall|i: int| 0 <= i < c.nftables.table@.len() implies ({
        let u = #[trigger] c.nftables.table@[i] as int;
        97 <= u <= 122 || 65 <= u <= 90 || 48 <= u <= 57 || u == 95 || u == 45
    } <==> crate::validate::is_table_char(c.nftables.table@[i])) by {}
}

/// A defect of the settings that is reported is there, and none that stands before it in the list
/// of checks is: table name, intervals, batch page, batch, XDP capacities, XDP pin path, TC
/// capacities, TC pin path, shared pin path.
pub proof fn law_reported_settings_defect(c: Config, d: Defect)
    requires
        c.validation(true) == Err::<ValidationModel, _>(Refusal::Invalid(d)),
    ensures
        d == Defect::InvalidTableName <==> c.nftables.table@.len() == 0 || (exists|i: int|
            0 <= i < c.nftables.table@.len() && {
                let u = #[trigger] c.nftables.table@[i] as int;
                !(97 <= u <= 122 || 65 <= u <= 90 || 48 <= u <= 57 || u == 95 || u == 45)
            }),
        ({
            let no_interval = c.runtime.debounce_ms == 0 || c.runtime.reconcile_secs == 0;
            let small_page = c.nftables.batch_page_bytes < 65536;
            let no_batch = c.nftables.populate_batch_elements == 0;
            let no_xdp = c.xdp.ipv4_max_entries == 0 || c.xdp.ipv6_max_entries == 0
                || c.xdp.populate_batch_elements == 0;
            let xdp_adrift = c.xdp.pin_path.bytes@.len() == 0 || c.xdp.pin_path.bytes@[0] != 47;
            let no_tc = c.tc.ipv4_max_entries == 0 || c.tc.ipv6_max_entries == 0
                || c.tc.populate_batch_elements == 0;
            let tc_adrift = c.tc.pin_path.bytes@.len() == 0 || c.tc.pin_path.bytes@[0] != 47;
            d != Defect::InvalidTableName ==> {
                &&& d == Defect::ZeroInterval <==> no_interval
                &&& !no_interval ==> (d == Defect::BatchPageTooSmall <==> small_page)
                &&& !no_interval && !small_page ==> (d == Defect::ZeroPopulateBatch <==> no_batch)
                &&& !no_interval && !small_page && !no_batch ==> (d == Defect::XdpZeroCapacity
                    <==> no_xdp)
                &&& !no_interval && !small_page && !no_batch && !no_xdp ==> (d
                    == Defect::XdpPinPathRelative <==> xdp_adrift)
                &&& !no_interval && !small_page && !no_batch && !no_xdp && !xdp_adrift ==> (d
                    == Defect::TcZeroCapacity <==> no_tc)
                &&& !no_interval && !small_page && !no_batch && !no_xdp && !xdp_adrift && !no_tc
                    ==> (d == Defect::TcPinPathRelative <==> tc_adrift)
                &&& !no_interval && !small_page && !no_batch && !no_xdp && !xdp_adrift && !no_tc
                    && !tc_adrift ==> d == Defect::SharedPinPath
            }
        }),
{
    lemma_table_name(c);
}

/// The rules are accepted if and only if there is one, XDP rules refer to the inbound and TC rules
/// to the outbound blocklist and name a zone, and each blocklist that a rule refers to has a file.
pub proof fn law_accepted_rules(c: Config)
    ensures
        c.rules_defect() is None <==> {
            &&& c.rules.input@.len() + c.rules.forward@.len() + c.rules.output@.len()
                + c.xdp.rules@.len() + c.tc.rules@.len() > 0
            &&& forall|i: int|
                0 <= i < c.xdp.rules@.len() ==> (#[trigger] c.xdp.rules@[i]).blocklist
                    == Direction::Inbound && c.xdp.rules@[i].ingress_zones@.len() > 0
            &&& forall|i: int|
                0 <= i < c.tc.rules@.len() ==> (#[trigger] c.tc.rules@[i]).blocklist
                    == Direction::Outbound && c.tc.rules@[i].egress_zones@.len() > 0
            &&& c.files.inbound is None ==> c.xdp.rules@.len() == 0 && forall|i: int|
                0 <= i < (c.rules.input@ + c.rules.forward@ + c.rules.output@).len() ==> (
                #[trigger] (c.rules.input@ + c.rules.forward@ + c.rules.output@)[i]).blocklist
                    == Direction::Outbound
            &&& c.files.outbound is None ==> c.tc.rules@.len() == 0 && forall|i: int|
                0 <= i < (c.rules.input@ + c.rules.forward@ + c.rules.output@).len() ==> (
                #[trigger] (c.rules.input@ + c.rules.forward@ + c.rules.output@)[i]).blocklist
                    == Direction::Inbound
        },
{
    let all = c.rules.input@ + c.rules.forward@ + c.rules.output@;
    lemma_rules_sound(c.xdp.rules@);
    lemma_rules_sound(c.tc.rules@);
    let xdp_sound = forall|i: int|
        0 <= i < c.xdp.rules@.len() ==> (#[trigger] c.xdp.rules@[i]).blocklist == Direction::Inbound
            && c.xdp.rules@[i].ingress_zones@.len() > 0;
    let tc_sound = forall|i: int|
        0 <= i < c.tc.rules@.len() ==> (#[trigger] c.tc.rules@[i]).blocklist == Direction::Outbound
            && c.tc.rules@[i].egress_zones@.len() > 0;
    assert(xdp_sound <==> first_defect(c.xdp.rules@) is None) by {
        assert forall|i: int| 0 <= i < c.xdp.rules@.len() implies (crate::validate::ZoneRule::defect(
            #[trigger] &c.xdp.rules@[i],
        ) is None <==> c.xdp.rules@[i].blocklist == Direction::Inbound
            && c.xdp.rules@[i].ingress_zones@.len() > 0) by {}
    }
    assert(tc_sound <==> first_defect(c.tc.rules@) is None) by {
        assert forall|i: int| 0 <= i < c.tc.rules@.len() implies (crate::validate::ZoneRule::defect(
            #[trigger] &c.tc.rules@[i],
        ) is None <==> c.tc.rules@[i].blocklist == Direction::Outbound
            && c.tc.rules@[i].egress_zones@.len() > 0) by {}
    }
    if xdp_sound && tc_sound {
        if c.xdp.rules@.len() > 0 {
            assert(c.xdp.rules@[0].blocklist == Direction::Inbound);
        }
        if c.tc.rules@.len() > 0 {
            assert(c.tc.rules@[0].blocklist == Direction::Outbound);
        }
        lemma_lacks(c, Direction::Inbound, Direction::Outbound);
        lemma_lacks(c, Direction::Outbound, Direction::Inbound);
    }
}

/// A blocklist that no rule refers to leaves the other one to all rules.
proof fn lemma_lacks(c: Config, d: Direction, other: Direction)
    requires
        d != other,
    ensures
        c.refers_to(d) <==> !((forall|i: int|
            0 <= i < c.xdp.rules@.len() ==> (#[trigger] c.xdp.rules@[i]).blocklist == other) && (
        forall|i: int|
            0 <= i < c.tc.rules@.len() ==> (#[trigger] c.tc.rules@[i]).blocklist == other) && (
        forall|i: int|
            0 <= i < (c.rules.input@ + c.rules.forward@ + c.rules.output@).len() ==> (
            #[trigger] (c.rules.input@ + c.rules.forward@ + c.rules.output@)[i]).blocklist
                == other)),
{
    let all = c.rules.input@ + c.rules.forward@ + c.rules.output@;
    assert(c.rules.all() == all);
    if c.refers_to(d) {
        if crate::config::refers_to(all, d) {
            let i = choose|i: int| 0 <= i < all.len() && (#[trigger] all[i]).blocklist == d;
            assert(all[i].blocklist != other);
        }
    } else {
        assert forall|i: int| 0 <= i < c.xdp.rules@.len() implies (
        #[trigger] c.xdp.rules@[i]).blocklist == other by {
            assert(c.xdp.rules@[i].blocklist != d);
        }
        assert forall|i: int| 0 <= i < c.tc.rules@.len() implies (
        #[trigger] c.tc.rules@[i]).blocklist == other by {
            assert(c.tc.rules@[i].blocklist != d);
        }
        assert forall|i: int| 0 <= i < all.len() implies (#[trigger] all[i]).blocklist == other by {
            assert(all[i].blocklist != d);
        }
    }
}

/// A defect of the rules that is reported is there, and none that stands before it in the list of
/// checks is: no rule, the first XDP rule with a fault, the first TC rule with one, the inbound
/// file, the outbound file.
pub proof fn law_reported_rules_defect(c: Config, d: Defect)
    requires
        c.rules_defect() == Some(d),
    ensures
        d == Defect::NoRules <==> c.rules.input@.len() + c.rules.forward@.len()
            + c.rules.output@.len() + c.xdp.rules@.len() + c.tc.rules@.len() == 0,
        d != Defect::NoRules ==> {
            let xdp_fault = exists|i: int|
                0 <= i < c.xdp.rules@.len() && ((#[trigger] c.xdp.rules@[i]).blocklist
                    != Direction::Inbound || c.xdp.rules@[i].ingress_zones@.len() == 0);
            let tc_fault = exists|i: int|
                0 <= i < c.tc.rules@.len() && ((#[trigger] c.tc.rules@[i]).blocklist
                    != Direction::Outbound || c.tc.rules@[i].egress_zones@.len() == 0);
            &&& xdp_fault ==> exists|i: int|
                0 <= i < c.xdp.rules@.len() && (if (#[trigger] c.xdp.rules@[i]).blocklist
                    != Direction::Inbound {
                    d == Defect::XdpRuleNotInbound
                } else {
                    c.xdp.rules@[i].ingress_zones@.len() == 0 && d == Defect::XdpRuleWithoutZone
                }) && forall|j: int|
                    0 <= j < i ==> (#[trigger] c.xdp.rules@[j]).blocklist == Direction::Inbound
                        && c.xdp.rules@[j].ingress_zones@.len() > 0
            &&& !xdp_fault && tc_fault ==> exists|i: int|
                0 <= i < c.tc.rules@.len() && (if (#[trigger] c.tc.rules@[i]).blocklist
                    != Direction::Outbound {
                    d == Defect::TcRuleNotOutbound
                } else {
                    c.tc.rules@[i].egress_zones@.len() == 0 && d == Defect::TcRuleWithoutZone
                }) && forall|j: int|
                    0 <= j < i ==> (#[trigger] c.tc.rules@[j]).blocklist == Direction::Outbound
                        && c.tc.rules@[j].egress_zones@.len() > 0
            &&& !xdp_fault && !tc_fault ==> {
                ||| d == Defect::MissingBlocklist(Direction::Inbound) && c.files.inbound is None
                ||| d == Defect::MissingBlocklist(Direction::Outbound) && c.files.outbound is None
                    && (c.files.inbound is Some || c.xdp.rules@.len() == 0 && forall|i: int|
                    0 <= i < (c.rules.input@ + c.rules.forward@ + c.rules.output@).len() ==> (
                    #[trigger] (c.rules.input@ + c.rules.forward@
                        + c.rules.output@)[i]).blocklist == Direction::Outbound)
            }
        },
{
    lemma_first_xdp(c);
    lemma_first_tc(c);
    lemma_lacks(c, Direction::Inbound, Direction::Outbound);
    if first_defect(c.xdp.rules@) is None && c.xdp.rules@.len() > 0 {
        assert(c.xdp.rules@[0].blocklist == Direction::Inbound);
    }
}

proof fn lemma_first_xdp(c: Config)
    ensures
        first_defect(c.xdp.rules@) is None <==> (forall|i: int|
            0 <= i < c.xdp.rules@.len() ==> (#[trigger] c.xdp.rules@[i]).blocklist
                == Direction::Inbound && c.xdp.rules@[i].ingress_zones@.len() > 0),
        first_defect(c.xdp.rules@) matches Some(d) ==> exists|i: int|
            0 <= i < c.xdp.rules@.len() && (if (#[trigger] c.xdp.rules@[i]).blocklist
                != Direction::Inbound {
                d == Defect::XdpRuleNotInbound
            } else {
                c.xdp.rules@[i].ingress_zones@.len() == 0 && d == Defect::XdpRuleWithoutZone
            }) && forall|j: int|
                0 <= j < i ==> (#[trigger] c.xdp.rules@[j]).blocklist == Direction::Inbound
                    && c.xdp.rules@[j].ingress_zones@.len() > 0,
{
    let rules = c.xdp.rules@;
    crate::validate::lemma_first_defect(rules);
    assert forall|i: int| 0 <= i < rules.len() implies (crate::validate::ZoneRule::defect(
        #[trigger] &rules[i],
    ) is None <==> rules[i].blocklist == Direction::Inbound && rules[i].ingress_zones@.len() > 0) by {}
    if first_defect(rules) is Some {
        let i = choose|i: int| crate::validate::is_first_faulty(rules, i);
        assert(rules[i].blocklist != Direction::Inbound || rules[i].ingress_zones@.len() == 0);
        assert forall|j: int| 0 <= j < i implies (#[trigger] rules[j]).blocklist
            == Direction::Inbound && rules[j].ingress_zones@.len() > 0 by {
            assert(crate::validate::ZoneRule::defect(&rules[j]) is None);
        }
    }
}

proof fn lemma_first_tc(c: Config)
    ensures
        first_defect(c.tc.rules@) is None <==> (forall|i: int|
            0 <= i < c.tc.rules@.len() ==> (#[trigger] c.tc.rules@[i]).blocklist
                == Direction::Outbound && c.tc.rules@[i].egress_zones@.len() > 0),
        first_defect(c.tc.rules@) matches Some(d) ==> exists|i: int|
            0 <= i < c.tc.rules@.len() && (if (#[trigger] c.tc.rules@[i]).blocklist
                != Direction::Outbound {
                d == Defect::TcRuleNotOutbound
            } else {
                c.tc.rules@[i].egress_zones@.len() == 0 && d == Defect::TcRuleWithoutZone
            }) && forall|j: int|
                0 <= j < i ==> (#[trigger] c.tc.rules@[j]).blocklist == Direction::Outbound
                    && c.tc.rules@[j].egress_zones@.len() > 0,
{
    let rules = c.tc.rules@;
    crate::validate::lemma_first_defect(rules);
    assert forall|i: int| 0 <= i < rules.len() implies (crate::validate::ZoneRule::defect(
        #[trigger] &rules[i],
    ) is None <==> rules[i].blocklist == Direction::Outbound && rules[i].egress_zones@.len() > 0) by {}
    if first_defect(rules) is Some {
        let i = choose|i: int| crate::validate::is_first_faulty(rules, i);
        assert(rules[i].blocklist != Direction::Outbound || rules[i].egress_zones@.len() == 0);
        assert forall|j: int| 0 <= j < i implies (#[trigger] rules[j]).blocklist
            == Direction::Outbound && rules[j].egress_zones@.len() > 0 by {
            assert(crate::validate::ZoneRule::defect(&rules[j]) is None);
        }
    }
}

/// What validation comes to, step by step: the settings first, which is all for a cleanup, then
/// the rules, then the one place where the zones are defined, and, if that is the configuration,
/// what they are.
pub proof fn law_validation_goes_step_by_step(c: Config)
    ensures
        c.settings_defect() matches Some(d) ==> c.validation(true) == Err::<ValidationModel, _>(
            Refusal::Invalid(d),
        ) && c.validation(false) == c.validation(true),
        c.settings_defect() is None ==> c.validation(true) == Ok::<_, Refusal>(
            ValidationModel::Complete,
        ),
        c.settings_defect() is None ==> {
            &&& c.rules_defect() matches Some(d) ==> c.validation(false) == Err::<
                ValidationModel,
                _,
            >(Refusal::Invalid(d))
            &&& c.rules_defect() is None && c.files.zones is None && c.zones is None
                ==> c.validation(false) == Err::<ValidationModel, _>(
                Refusal::Invalid(Defect::ZonesUndefined),
            )
            &&& c.rules_defect() is None && c.files.zones is Some && c.zones is Some
                ==> c.validation(false) == Err::<ValidationModel, _>(
                Refusal::Invalid(Defect::ZonesDefinedTwice),
            )
            &&& c.rules_defect() is None && c.files.zones is Some && c.zones is None
                ==> c.validation(false) == Ok::<_, Refusal>(
                ValidationModel::ZonesFile(c.files.zones->0.bytes@),
            )
            &&& c.rules_defect() is None && c.files.zones is None && c.zones is Some
                ==> c.validation(false) == match c.zones_refusal(c.zones->0@) {
                Some(e) => Err(e),
                None => Ok(ValidationModel::Complete),
            }
        },
{
}

/// The zones that a rule names are all defined if and only if none of them is the first unknown
/// one, and then an interface belongs to a side if and only if a zone named there holds it.
proof fn lemma_side(zones: Map<Seq<char>, ZoneModel>, names: Seq<String>)
    ensures
        forall|x: Seq<char>| #[trigger]
            interfaces_of(zones, texts(names)).contains(x) <==> exists|j: int|
                0 <= j < names.len() && zones.contains_key((#[trigger] names[j])@)
                    && zones[names[j]@].interfaces.contains(x),
{
    let keys = texts(names);
    assert forall|x: Seq<char>| #[trigger]
        interfaces_of(zones, keys).contains(x) <==> exists|j: int|
            0 <= j < names.len() && zones.contains_key((#[trigger] names[j])@)
                && zones[names[j]@].interfaces.contains(x) by {
        if interfaces_of(zones, keys).contains(x) {
            let j = choose|j: int| 0 <= j < keys.len() && #[trigger] provides(zones, keys[j], x);
            assert(names[j]@ == keys[j]);
        }
        if exists|j: int|
            0 <= j < names.len() && zones.contains_key((#[trigger] names[j])@)
                && zones[names[j]@].interfaces.contains(x) {
            let j = choose|j: int|
                0 <= j < names.len() && zones.contains_key((#[trigger] names[j])@)
                    && zones[names[j]@].interfaces.contains(x);
            assert(provides(zones, keys[j], x));
        }
    }
}

/// A rule names an undefined zone if and only if there is a first one.
pub proof fn law_rules_name_defined_zones(
    zones: Map<Seq<char>, ZoneModel>,
    every: Seq<RuleMapping>,
)
    ensures
        first_unknown_in(zones, every) is None <==> (forall|i: int, j: int|
            0 <= i < every.len() && 0 <= j < every[i].ingress_zones@.len() ==> zones.contains_key(
                (#[trigger] every[i].ingress_zones@[j])@,
            )) && (forall|i: int, j: int|
            0 <= i < every.len() && 0 <= j < every[i].egress_zones@.len() ==> zones.contains_key(
                (#[trigger] every[i].egress_zones@[j])@,
            )),
        first_unknown_in(zones, every) matches Some(name) ==> !zones.contains_key(name) && exists|
            i: int,
        |
            0 <= i < every.len() && (texts((#[trigger] every[i]).ingress_zones@).contains(name)
                || texts(every[i].egress_zones@).contains(name)),
        first_unknown_in(zones, every) matches Some(name) ==> exists|i: int|
            0 <= i < every.len() && first_unknown_in(zones, (#[trigger] every.take(i))) is None
                && first_unknown(
                zones,
                texts(every[i].ingress_zones@) + texts(every[i].egress_zones@),
            ) == Some(name),
    decreases every.len(),
{
    if every.len() > 0 {
        let rest = every.skip(1);
        let rule = every[0];
        let (a, b) = (texts(rule.ingress_zones@), texts(rule.egress_zones@));
        law_rules_name_defined_zones(zones, rest);
        law_refused_zone_is_undefined(zones, a + b);
        assert forall|i: int| 0 <= i < rest.len() implies rest[i] == #[trigger] every[i + 1] by {}
        assert(every.take(0) =~= Seq::<RuleMapping>::empty());
        if first_unknown(zones, a + b) is None && first_unknown_in(zones, rest) is Some {
            let name = first_unknown_in(zones, rest)->0;
            let i = choose|i: int|
                0 <= i < rest.len() && first_unknown_in(zones, (#[trigger] rest.take(i))) is None
                    && first_unknown(
                    zones,
                    texts(rest[i].ingress_zones@) + texts(rest[i].egress_zones@),
                ) == Some(name);
            let before = every.take(i + 1);
            assert(before.skip(1) =~= rest.take(i));
            assert(first_unknown_in(zones, before) is None);
            assert(every[i + 1] == rest[i]);
        }
        if let Some(name) = first_unknown(zones, a + b) {
            let k = choose|k: int| 0 <= k < (a + b).len() && (a + b)[k] == name;
            if k < a.len() {
                assert(a[k] == name);
                let n = every[0].ingress_zones@[k];
                assert(!zones.contains_key(n@));
            } else {
                assert(b[k - a.len()] == name);
                let n = every[0].egress_zones@[k - a.len()];
                assert(!zones.contains_key(n@));
            }
            assert(texts(every[0].ingress_zones@).contains(name) || texts(
                every[0].egress_zones@,
            ).contains(name));
        } else {
            assert forall|j: int| 0 <= j < rule.ingress_zones@.len() implies zones.contains_key(
                (#[trigger] every[0].ingress_zones@[j])@,
            ) by {
                assert((a + b)[j] == rule.ingress_zones@[j]@);
            }
            assert forall|j: int| 0 <= j < rule.egress_zones@.len() implies zones.contains_key(
                (#[trigger] every[0].egress_zones@[j])@,
            ) by {
                assert((a + b)[a.len() + j] == rule.egress_zones@[j]@);
            }
            if first_unknown_in(zones, rest) is None {
                assert forall|i: int, j: int|
                    0 <= i < every.len() && 0 <= j
                        < every[i].ingress_zones@.len() implies zones.contains_key(
                    (#[trigger] every[i].ingress_zones@[j])@,
                ) by {
                    if i > 0 {
                        let n = rest[i - 1].ingress_zones@[j];
                        assert(zones.contains_key(n@));
                    }
                }
                assert forall|i: int, j: int|
                    0 <= i < every.len() && 0 <= j
                        < every[i].egress_zones@.len() implies zones.contains_key(
                    (#[trigger] every[i].egress_zones@[j])@,
                ) by {
                    if i > 0 {
                        let n = rest[i - 1].egress_zones@[j];
                        assert(zones.contains_key(n@));
                    }
                }
            } else {
                let name = first_unknown_in(zones, rest)->0;
                let i = choose|i: int|
                    0 <= i < rest.len() && (texts((#[trigger] rest[i]).ingress_zones@).contains(
                        name,
                    ) || texts(rest[i].egress_zones@).contains(name));
                assert(rest[i] == every[i + 1]);
                if texts(rest[i].ingress_zones@).contains(name) {
                    let t = texts(rest[i].ingress_zones@);
                    let j = choose|j: int| 0 <= j < t.len() && t[j] == name;
                    let n = every[i + 1].ingress_zones@[j];
                    assert(!zones.contains_key(n@));
                } else {
                    let t = texts(rest[i].egress_zones@);
                    let j = choose|j: int| 0 <= j < t.len() && t[j] == name;
                    let n = every[i + 1].egress_zones@[j];
                    assert(!zones.contains_key(n@));
                }
            }
        }
    }
}

/// An overlap of XDP and nftables rules is reported only if there is one: not where each inbound
/// rule of the input and forward chains has ingress interfaces, none of which is one of XDP.
pub proof fn law_no_xdp_overlap_where_rules_are_apart(
    c: Config,
    zones: Map<Seq<char>, ZoneModel>,
    inward: Seq<RuleMapping>,
    xdp: Set<Seq<char>>,
)
    requires
        inward == c.rules.input@ + c.rules.forward@,
        forall|x: Seq<char>| #[trigger]
            xdp.contains(x) <==> exists|i: int, j: int|
                0 <= i < c.xdp.rules@.len() && 0 <= j < c.xdp.rules@[i].ingress_zones@.len()
                    && zones.contains_key((#[trigger] c.xdp.rules@[i].ingress_zones@[j])@)
                    && zones[c.xdp.rules@[i].ingress_zones@[j]@].interfaces.contains(x),
        (forall|k: int|
            0 <= k < inward.len() && (#[trigger] inward[k]).blocklist == Direction::Inbound
                ==> exists|j: int|
                0 <= j < inward[k].ingress_zones@.len() && zones.contains_key(
                    (#[trigger] inward[k].ingress_zones@[j])@,
                ) && zones[inward[k].ingress_zones@[j]@].interfaces.len() > 0),
        (forall|k: int, j: int, a: int|
            0 <= k < inward.len() && inward[k].blocklist == Direction::Inbound && 0 <= j
                < inward[k].ingress_zones@.len() && zones.contains_key(inward[k].ingress_zones@[j]@) && 0 <= a
                < zones[inward[k].ingress_zones@[j]@].interfaces.len() ==> !xdp.contains(
                #[trigger] zones[inward[k].ingress_zones@[j]@].interfaces[a],
            )),
    ensures
        c.zones_refusal(zones) != Some(Refusal::Invalid(Defect::XdpOverlap)),
        !c.xdp_overlaps(zones),
{
    law_xdp_interfaces(c.xdp.rules@, zones);
    assert(xdp =~= c.xdp_interfaces(zones));
    assert forall|i: int| 0 <= i < c.rules.all().len() implies !#[trigger] c.meets_xdp(zones, i) by {
        let rule = c.rules.all()[i];
        if rule.blocklist == Direction::Inbound && c.rules.chain_at(i) != Chain::Output {
            assert(inward[i] == rule);
            let here = interfaces_of(zones, texts(rule.ingress_zones@));
            lemma_side(zones, rule.ingress_zones@);
            let j = choose|j: int|
                0 <= j < inward[i].ingress_zones@.len() && zones.contains_key(
                    (#[trigger] inward[i].ingress_zones@[j])@,
                ) && zones[inward[i].ingress_zones@[j]@].interfaces.len() > 0;
            let first = zones[rule.ingress_zones@[j]@].interfaces[0];
            assert(zones[rule.ingress_zones@[j]@].interfaces.contains(first));
            assert(here.contains(first));
            assert forall|x: Seq<char>| here.contains(x) implies !xdp.contains(x) by {
                let j = choose|j: int|
                    0 <= j < rule.ingress_zones@.len() && zones.contains_key(
                        (#[trigger] rule.ingress_zones@[j])@,
                    ) && zones[rule.ingress_zones@[j]@].interfaces.contains(x);
                let list = zones[inward[i].ingress_zones@[j]@].interfaces;
                let a = choose|a: int| 0 <= a < list.len() && list[a] == x;
                assert(!xdp.contains(zones[inward[i].ingress_zones@[j]@].interfaces[a]));
            }
        }
    }
}

/// An overlap of TC and nftables rules is reported only if there is one: not where each outbound
/// rule of the forward and output chains has egress interfaces, none of which is one of TC.
pub proof fn law_no_tc_overlap_where_rules_are_apart(
    c: Config,
    zones: Map<Seq<char>, ZoneModel>,
    outward: Seq<RuleMapping>,
    tc: Set<Seq<char>>,
)
    requires
        outward == c.rules.forward@ + c.rules.output@,
        forall|x: Seq<char>| #[trigger]
            tc.contains(x) <==> exists|i: int, j: int|
                0 <= i < c.tc.rules@.len() && 0 <= j < c.tc.rules@[i].egress_zones@.len()
                    && zones.contains_key((#[trigger] c.tc.rules@[i].egress_zones@[j])@)
                    && zones[c.tc.rules@[i].egress_zones@[j]@].interfaces.contains(x),
        (forall|k: int|
            0 <= k < outward.len() && (#[trigger] outward[k]).blocklist == Direction::Outbound
                ==> exists|j: int|
                0 <= j < outward[k].egress_zones@.len() && zones.contains_key(
                    (#[trigger] outward[k].egress_zones@[j])@,
                ) && zones[outward[k].egress_zones@[j]@].interfaces.len() > 0),
        (forall|k: int, j: int, a: int|
            0 <= k < outward.len() && outward[k].blocklist == Direction::Outbound && 0 <= j
                < outward[k].egress_zones@.len() && zones.contains_key(outward[k].egress_zones@[j]@) && 0 <= a
                < zones[outward[k].egress_zones@[j]@].interfaces.len() ==> !tc.contains(
                #[trigger] zones[outward[k].egress_zones@[j]@].interfaces[a],
            )),
    ensures
        c.zones_refusal(zones) != Some(Refusal::Invalid(Defect::TcOverlap)),
        !c.tc_overlaps(zones),
{
    law_tc_interfaces(c.tc.rules@, zones);
    assert(tc =~= c.tc_interfaces(zones));
    let n = c.rules.input@.len() as int;
    assert forall|i: int| 0 <= i < c.rules.all().len() implies !#[trigger] c.meets_tc(zones, i) by {
        let rule = c.rules.all()[i];
        if rule.blocklist == Direction::Outbound && c.rules.chain_at(i) != Chain::Input {
            let k = i - n;
            assert(outward[k] == rule);
            let here = interfaces_of(zones, texts(rule.egress_zones@));
            lemma_side(zones, rule.egress_zones@);
            let j = choose|j: int|
                0 <= j < outward[k].egress_zones@.len() && zones.contains_key(
                    (#[trigger] outward[k].egress_zones@[j])@,
                ) && zones[outward[k].egress_zones@[j]@].interfaces.len() > 0;
            let first = zones[rule.egress_zones@[j]@].interfaces[0];
            assert(zones[rule.egress_zones@[j]@].interfaces.contains(first));
            assert(here.contains(first));
            assert forall|x: Seq<char>| here.contains(x) implies !tc.contains(x) by {
                let j = choose|j: int|
                    0 <= j < rule.egress_zones@.len() && zones.contains_key(
                        (#[trigger] rule.egress_zones@[j])@,
                    ) && zones[rule.egress_zones@[j]@].interfaces.contains(x);
                let list = zones[outward[k].egress_zones@[j]@].interfaces;
                let a = choose|a: int| 0 <= a < list.len() && list[a] == x;
                assert(!tc.contains(zones[outward[k].egress_zones@[j]@].interfaces[a]));
            }
        }
    }
}

/// A configuration is accepted under zones if all zones that it names are defined, TC rules have
/// an interface, and, unless an overlap is allowed, nftables rules that filter the same direction
/// are on interfaces of their own. Zones of nftables rules need a definition only where an overlap
/// is looked for.
pub proof fn law_rules_apart_are_accepted(
    c: Config,
    zones: Map<Seq<char>, ZoneModel>,
    every: Seq<RuleMapping>,
    inward: Seq<RuleMapping>,
    outward: Seq<RuleMapping>,
    xdp: Set<Seq<char>>,
    tc: Set<Seq<char>>,
)
    requires
        every == c.rules.input@ + c.rules.forward@ + c.rules.output@,
        inward == c.rules.input@ + c.rules.forward@,
        outward == c.rules.forward@ + c.rules.output@,
        forall|x: Seq<char>| #[trigger]
            xdp.contains(x) <==> exists|i: int, j: int|
                0 <= i < c.xdp.rules@.len() && 0 <= j < c.xdp.rules@[i].ingress_zones@.len()
                    && zones.contains_key((#[trigger] c.xdp.rules@[i].ingress_zones@[j])@)
                    && zones[c.xdp.rules@[i].ingress_zones@[j]@].interfaces.contains(x),
        forall|x: Seq<char>| #[trigger]
            tc.contains(x) <==> exists|i: int, j: int|
                0 <= i < c.tc.rules@.len() && 0 <= j < c.tc.rules@[i].egress_zones@.len()
                    && zones.contains_key((#[trigger] c.tc.rules@[i].egress_zones@[j])@)
                    && zones[c.tc.rules@[i].egress_zones@[j]@].interfaces.contains(x),
        forall|i: int, j: int|
            0 <= i < c.xdp.rules@.len() && 0 <= j < c.xdp.rules@[i].ingress_zones@.len()
                ==> zones.contains_key((#[trigger] c.xdp.rules@[i].ingress_zones@[j])@),
        forall|i: int, j: int|
            0 <= i < c.tc.rules@.len() && 0 <= j < c.tc.rules@[i].egress_zones@.len()
                ==> zones.contains_key((#[trigger] c.tc.rules@[i].egress_zones@[j])@),
        c.tc.rules@.len() > 0 ==> tc != Set::<Seq<char>>::empty(),
        (!c.xdp.allow_nftables_overlap && xdp != Set::<Seq<char>>::empty()) || (
        !c.tc.allow_nftables_overlap && tc != Set::<Seq<char>>::empty()) ==> (forall|i: int, j: int|
            0 <= i < every.len() && 0 <= j < every[i].ingress_zones@.len() ==> zones.contains_key(
                (#[trigger] every[i].ingress_zones@[j])@,
            )) && (forall|i: int, j: int|
            0 <= i < every.len() && 0 <= j < every[i].egress_zones@.len() ==> zones.contains_key(
                (#[trigger] every[i].egress_zones@[j])@,
            )),
        !c.xdp.allow_nftables_overlap && xdp != Set::<Seq<char>>::empty() ==> (forall|k: int|
            0 <= k < inward.len() && (#[trigger] inward[k]).blocklist == Direction::Inbound
                ==> exists|j: int|
                0 <= j < inward[k].ingress_zones@.len() && zones.contains_key(
                    (#[trigger] inward[k].ingress_zones@[j])@,
                ) && zones[inward[k].ingress_zones@[j]@].interfaces.len() > 0),
        !c.xdp.allow_nftables_overlap && xdp != Set::<Seq<char>>::empty() ==> (forall|k: int, j: int, a: int|
            0 <= k < inward.len() && inward[k].blocklist == Direction::Inbound && 0 <= j
                < inward[k].ingress_zones@.len() && zones.contains_key(inward[k].ingress_zones@[j]@) && 0 <= a
                < zones[inward[k].ingress_zones@[j]@].interfaces.len() ==> !xdp.contains(
                #[trigger] zones[inward[k].ingress_zones@[j]@].interfaces[a],
            )),
        !c.tc.allow_nftables_overlap && tc != Set::<Seq<char>>::empty() ==> (forall|k: int|
            0 <= k < outward.len() && (#[trigger] outward[k]).blocklist == Direction::Outbound
                ==> exists|j: int|
                0 <= j < outward[k].egress_zones@.len() && zones.contains_key(
                    (#[trigger] outward[k].egress_zones@[j])@,
                ) && zones[outward[k].egress_zones@[j]@].interfaces.len() > 0),
        !c.tc.allow_nftables_overlap && tc != Set::<Seq<char>>::empty() ==> (forall|k: int, j: int, a: int|
            0 <= k < outward.len() && outward[k].blocklist == Direction::Outbound && 0 <= j
                < outward[k].egress_zones@.len() && zones.contains_key(outward[k].egress_zones@[j]@) && 0 <= a
                < zones[outward[k].egress_zones@[j]@].interfaces.len() ==> !tc.contains(
                #[trigger] zones[outward[k].egress_zones@[j]@].interfaces[a],
            )),
    ensures
        c.zones_refusal(zones) is None,
{
    law_xdp_interfaces(c.xdp.rules@, zones);
    law_tc_interfaces(c.tc.rules@, zones);
    law_rules_name_defined_zones(zones, every);
    assert(every == c.rules.all());
    assert(xdp =~= c.xdp_interfaces(zones));
    assert(tc =~= c.tc_interfaces(zones));
    if !c.xdp.allow_nftables_overlap && xdp != Set::<Seq<char>>::empty() {
        law_no_xdp_overlap_where_rules_are_apart(c, zones, inward, xdp);
    }
    if !c.tc.allow_nftables_overlap && tc != Set::<Seq<char>>::empty() {
        law_no_tc_overlap_where_rules_are_apart(c, zones, outward, tc);
    }
}

/// Where all zones are defined and no overlap is allowed, an inbound rule of the input or forward
/// chain that shares an interface with XDP rules, or has none and so is on every interface, has
/// the configuration refused for that.
pub proof fn law_xdp_overlap_is_refused(
    c: Config,
    zones: Map<Seq<char>, ZoneModel>,
    every: Seq<RuleMapping>,
    inward: Seq<RuleMapping>,
    xdp: Set<Seq<char>>,
    k: int,
    x: Seq<char>,
)
    requires
        every == c.rules.input@ + c.rules.forward@ + c.rules.output@,
        inward == c.rules.input@ + c.rules.forward@,
        forall|x: Seq<char>| #[trigger]
            xdp.contains(x) <==> exists|i: int, j: int|
                0 <= i < c.xdp.rules@.len() && 0 <= j < c.xdp.rules@[i].ingress_zones@.len()
                    && zones.contains_key((#[trigger] c.xdp.rules@[i].ingress_zones@[j])@)
                    && zones[c.xdp.rules@[i].ingress_zones@[j]@].interfaces.contains(x),
        forall|i: int, j: int|
            0 <= i < c.xdp.rules@.len() && 0 <= j < c.xdp.rules@[i].ingress_zones@.len()
                ==> zones.contains_key((#[trigger] c.xdp.rules@[i].ingress_zones@[j])@),
        (forall|i: int, j: int|
            0 <= i < every.len() && 0 <= j < every[i].ingress_zones@.len() ==> zones.contains_key(
                (#[trigger] every[i].ingress_zones@[j])@,
            )) && (forall|i: int, j: int|
            0 <= i < every.len() && 0 <= j < every[i].egress_zones@.len() ==> zones.contains_key(
                (#[trigger] every[i].egress_zones@[j])@,
            )),
        !c.xdp.allow_nftables_overlap,
        0 <= k < inward.len(),
        inward[k].blocklist == Direction::Inbound,
        xdp.contains(x),
        (exists|j: int|
            0 <= j < inward[k].ingress_zones@.len() && zones[(
            #[trigger] inward[k].ingress_zones@[j])@].interfaces.contains(x)) || (forall|j: int|
            0 <= j < inward[k].ingress_zones@.len() ==> zones[(
            #[trigger] inward[k].ingress_zones@[j])@].interfaces.len() == 0),
    ensures
        c.zones_refusal(zones) == Some(Refusal::Invalid(Defect::XdpOverlap)),
{
    law_xdp_interfaces(c.xdp.rules@, zones);
    law_rules_name_defined_zones(zones, every);
    assert(every == c.rules.all());
    assert(xdp =~= c.xdp_interfaces(zones));
    let rule = c.rules.all()[k];
    assert(inward[k] == rule && every[k] == rule);
    lemma_side(zones, rule.ingress_zones@);
    let here = interfaces_of(zones, texts(rule.ingress_zones@));
    if exists|j: int|
        0 <= j < inward[k].ingress_zones@.len() && zones[(
        #[trigger] inward[k].ingress_zones@[j])@].interfaces.contains(x) {
        let j = choose|j: int|
            0 <= j < inward[k].ingress_zones@.len() && zones[(
            #[trigger] inward[k].ingress_zones@[j])@].interfaces.contains(x);
        assert(zones.contains_key(every[k].ingress_zones@[j]@));
        assert(here.contains(x));
    } else {
        assert forall|y: Seq<char>| !#[trigger] here.contains(y) by {
            if here.contains(y) {
                let j = choose|j: int|
                    0 <= j < rule.ingress_zones@.len() && zones.contains_key(
                        (#[trigger] rule.ingress_zones@[j])@,
                    ) && zones[rule.ingress_zones@[j]@].interfaces.contains(y);
                assert(zones[inward[k].ingress_zones@[j]@].interfaces.len() == 0);
            }
        }
        assert(here =~= Set::<Seq<char>>::empty());
    }
    assert(c.meets_xdp(zones, k));
}

/// Where all zones are defined and no overlap is allowed, an outbound rule of the forward or
/// output chain that shares an interface with TC rules, or has none and so is on every interface,
/// has the configuration refused for that, unless XDP rules are a reason already.
pub proof fn law_tc_overlap_is_refused(
    c: Config,
    zones: Map<Seq<char>, ZoneModel>,
    every: Seq<RuleMapping>,
    outward: Seq<RuleMapping>,
    tc: Set<Seq<char>>,
    k: int,
    x: Seq<char>,
)
    requires
        every == c.rules.input@ + c.rules.forward@ + c.rules.output@,
        outward == c.rules.forward@ + c.rules.output@,
        forall|x: Seq<char>| #[trigger]
            tc.contains(x) <==> exists|i: int, j: int|
                0 <= i < c.tc.rules@.len() && 0 <= j < c.tc.rules@[i].egress_zones@.len()
                    && zones.contains_key((#[trigger] c.tc.rules@[i].egress_zones@[j])@)
                    && zones[c.tc.rules@[i].egress_zones@[j]@].interfaces.contains(x),
        forall|i: int, j: int|
            0 <= i < c.xdp.rules@.len() && 0 <= j < c.xdp.rules@[i].ingress_zones@.len()
                ==> zones.contains_key((#[trigger] c.xdp.rules@[i].ingress_zones@[j])@),
        forall|i: int, j: int|
            0 <= i < c.tc.rules@.len() && 0 <= j < c.tc.rules@[i].egress_zones@.len()
                ==> zones.contains_key((#[trigger] c.tc.rules@[i].egress_zones@[j])@),
        (forall|i: int, j: int|
            0 <= i < every.len() && 0 <= j < every[i].ingress_zones@.len() ==> zones.contains_key(
                (#[trigger] every[i].ingress_zones@[j])@,
            )) && (forall|i: int, j: int|
            0 <= i < every.len() && 0 <= j < every[i].egress_zones@.len() ==> zones.contains_key(
                (#[trigger] every[i].egress_zones@[j])@,
            )),
        !c.tc.allow_nftables_overlap,
        0 <= k < outward.len(),
        outward[k].blocklist == Direction::Outbound,
        tc.contains(x),
        (exists|j: int|
            0 <= j < outward[k].egress_zones@.len() && zones[(
            #[trigger] outward[k].egress_zones@[j])@].interfaces.contains(x)) || (forall|j: int|
            0 <= j < outward[k].egress_zones@.len() ==> zones[(
            #[trigger] outward[k].egress_zones@[j])@].interfaces.len() == 0),
    ensures
        c.zones_refusal(zones) == Some(Refusal::Invalid(Defect::TcOverlap)) || (
        !c.xdp.allow_nftables_overlap && c.xdp.rules@.len() > 0 && c.zones_refusal(zones) == Some(
            Refusal::Invalid(Defect::XdpOverlap),
        )),
{
    law_xdp_interfaces(c.xdp.rules@, zones);
    law_tc_interfaces(c.tc.rules@, zones);
    law_rules_name_defined_zones(zones, every);
    assert(every == c.rules.all());
    assert(tc =~= c.tc_interfaces(zones));
    let at = c.rules.input@.len() + k;
    let rule = c.rules.all()[at];
    assert(outward[k] == rule && every[at] == rule);
    lemma_side(zones, rule.egress_zones@);
    let here = interfaces_of(zones, texts(rule.egress_zones@));
    if exists|j: int|
        0 <= j < outward[k].egress_zones@.len() && zones[(
        #[trigger] outward[k].egress_zones@[j])@].interfaces.contains(x) {
        let j = choose|j: int|
            0 <= j < outward[k].egress_zones@.len() && zones[(
            #[trigger] outward[k].egress_zones@[j])@].interfaces.contains(x);
        assert(zones.contains_key(every[at].egress_zones@[j]@));
        assert(here.contains(x));
    } else {
        assert forall|y: Seq<char>| !#[trigger] here.contains(y) by {
            if here.contains(y) {
                let j = choose|j: int|
                    0 <= j < rule.egress_zones@.len() && zones.contains_key(
                        (#[trigger] rule.egress_zones@[j])@,
                    ) && zones[rule.egress_zones@[j]@].interfaces.contains(y);
                assert(zones[outward[k].egress_zones@[j]@].interfaces.len() == 0);
            }
        }
        assert(here =~= Set::<Seq<char>>::empty());
    }
    assert(c.meets_tc(zones, at));
    if c.xdp.rules@.len() == 0 {
        assert(c.xdp_interfaces(zones) =~= Set::<Seq<char>>::empty());
    }
}

/// Rules that name an undefined zone, and TC rules without an interface, have the configuration
/// refused: XDP rules first, for their first such zone. A zone that is reported is not defined,
/// and only these reasons and an overlap are reported.
pub proof fn law_other_zone_refusals(
    c: Config,
    zones: Map<Seq<char>, ZoneModel>,
    tc: Set<Seq<char>>,
)
    requires
        forall|x: Seq<char>| #[trigger]
            tc.contains(x) <==> exists|i: int, j: int|
                0 <= i < c.tc.rules@.len() && 0 <= j < c.tc.rules@[i].egress_zones@.len()
                    && zones.contains_key((#[trigger] c.tc.rules@[i].egress_zones@[j])@)
                    && zones[c.tc.rules@[i].egress_zones@[j]@].interfaces.contains(x),
    ensures
        (exists|i: int, j: int|
            0 <= i < c.xdp.rules@.len() && 0 <= j < c.xdp.rules@[i].ingress_zones@.len()
                && !zones.contains_key((#[trigger] c.xdp.rules@[i].ingress_zones@[j])@)) ==> exists|
            i: int,
            j: int,
        |
            0 <= i < c.xdp.rules@.len() && 0 <= j < c.xdp.rules@[i].ingress_zones@.len()
                && !zones.contains_key((#[trigger] c.xdp.rules@[i].ingress_zones@[j])@)
                && c.zones_refusal(zones) == Some(
                Refusal::UnknownZone(c.xdp.rules@[i].ingress_zones@[j]@),
            ) && forall|a: int, b: int|
                0 <= a <= i && 0 <= b < c.xdp.rules@[a].ingress_zones@.len() && (a < i || b < j)
                    ==> zones.contains_key((#[trigger] c.xdp.rules@[a].ingress_zones@[b])@),
        (exists|i: int, j: int|
            0 <= i < c.tc.rules@.len() && 0 <= j < c.tc.rules@[i].egress_zones@.len()
                && !zones.contains_key((#[trigger] c.tc.rules@[i].egress_zones@[j])@))
            ==> c.zones_refusal(zones) is Some && c.zones_refusal(zones) != Some(
            Refusal::Invalid(Defect::TcOverlap),
        ) && c.zones_refusal(zones) != Some(Refusal::Invalid(Defect::TcWithoutInterface)),
        c.tc.rules@.len() > 0 && tc == Set::<Seq<char>>::empty() ==> c.zones_refusal(zones) is Some
            && c.zones_refusal(zones) != Some(Refusal::Invalid(Defect::TcOverlap)),
        c.xdp.rules@.len() == 0 && (exists|i: int, j: int|
            0 <= i < c.tc.rules@.len() && 0 <= j < c.tc.rules@[i].egress_zones@.len()
                && !zones.contains_key((#[trigger] c.tc.rules@[i].egress_zones@[j])@)) ==> exists|
            i: int,
            j: int,
        |
            0 <= i < c.tc.rules@.len() && 0 <= j < c.tc.rules@[i].egress_zones@.len()
                && !zones.contains_key((#[trigger] c.tc.rules@[i].egress_zones@[j])@)
                && c.zones_refusal(zones) == Some(
                Refusal::UnknownZone(c.tc.rules@[i].egress_zones@[j]@),
            ) && forall|a: int, b: int|
                0 <= a <= i && 0 <= b < c.tc.rules@[a].egress_zones@.len() && (a < i || b < j)
                    ==> zones.contains_key((#[trigger] c.tc.rules@[a].egress_zones@[b])@),
        c.xdp.rules@.len() == 0 && c.tc.rules@.len() > 0 && tc == Set::<Seq<char>>::empty() && (
        forall|i: int, j: int|
            0 <= i < c.tc.rules@.len() && 0 <= j < c.tc.rules@[i].egress_zones@.len()
                ==> zones.contains_key((#[trigger] c.tc.rules@[i].egress_zones@[j])@))
            ==> c.zones_refusal(zones) == Some(Refusal::Invalid(Defect::TcWithoutInterface)),
        c.zones_refusal(zones) == Some(Refusal::Invalid(Defect::TcWithoutInterface)) ==> tc
            == Set::<Seq<char>>::empty() && c.tc.rules@.len() > 0,
        c.zones_refusal(zones) matches Some(Refusal::UnknownZone(name)) ==> !zones.contains_key(
            name,
        ),
        c.zones_refusal(zones) matches Some(Refusal::Invalid(d)) ==> d == Defect::XdpOverlap || d
            == Defect::TcOverlap || d == Defect::TcWithoutInterface,
{
    law_xdp_interfaces(c.xdp.rules@, zones);
    law_tc_interfaces(c.tc.rules@, zones);
    law_rules_name_defined_zones(zones, c.rules.all());
    assert(tc =~= c.tc_interfaces(zones));
    if c.xdp.rules@.len() == 0 {
        assert(c.xdp_interfaces(zones) =~= Set::<Seq<char>>::empty());
    }
}

} // verus!
