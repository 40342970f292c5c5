//! Zones: named groups of network interfaces, and the rules between them.

use crate::config::{Direction, RuleMapping, Rules};
use crate::error::{ConfigError, Refusal};
use crate::interfaces::{
    increasing, lemma_increasing_differ, lemma_push_to_set, texts, InterfaceSet,
};
use vstd::prelude::*;

verus! {

/// A group of network interfaces.
#[derive(Debug)]
pub struct Zone {
    pub interfaces: Vec<String>,
    /// Whether the zone stands for the machine itself.
    pub local: bool,
}

/// A [`Zone`] as a mathematical value.
pub struct ZoneModel {
    pub interfaces: Seq<Seq<char>>,
    pub local: bool,
}

impl View for Zone {
    type V = ZoneModel;

    open spec fn view(&self) -> ZoneModel {
        ZoneModel { interfaces: texts(self.interfaces@), local: self.local }
    }
}

/// A zone stands for its interfaces, each and in order, and for whether it is the machine itself.
pub proof fn law_zone_view(zone: Zone)
    ensures
        zone@.interfaces.len() == zone.interfaces@.len(),
        forall|i: int|
            0 <= i < zone.interfaces@.len() ==> #[trigger] zone@.interfaces[i]
                == zone.interfaces@[i]@,
        zone@.local == zone.local,
{
}

impl Clone for Zone {
    fn clone(&self) -> (r: Self)
        ensures
            r@ == self@,
    {
        Zone { interfaces: copy_strings(&self.interfaces), local: self.local }
    }
}

/// A copy of `v`.
fn copy_strings(v: &Vec<String>) -> (r: Vec<String>)
    ensures
        texts(r@) == texts(v@),
{
    let mut r: Vec<String> = Vec::new();
    let mut i: usize = 0;
    while i < v.len()
        invariant
            i <= v.len(),
            r@ == v@.take(i as int),
        decreases v.len() - i,
    {
        r.push(v[i].clone());
        assert(v@.take(i + 1) =~= v@.take(i as int).push(v@[i as int]));
        i = i + 1;
    }
    assert(v@.take(v.len() as int) =~= v@);
    r
}

/// Zones by name.
#[derive(Debug)]
pub struct Zones {
    entries: Vec<(String, Zone)>,
}

/// Whether one of `entries` has the given name.
spec fn has_name(entries: Seq<(String, Zone)>, name: Seq<char>) -> bool {
    exists|i: int| 0 <= i < entries.len() && (#[trigger] entries[i]).0@ == name
}

/// The place of an entry with the given name.
spec fn place(entries: Seq<(String, Zone)>, name: Seq<char>) -> int {
    choose|i: int| 0 <= i < entries.len() && (#[trigger] entries[i]).0@ == name
}

/// Whether no two of `entries` have the same name.
spec fn names_differ(entries: Seq<(String, Zone)>) -> bool {
    forall|i: int, j: int|
        0 <= i < entries.len() && 0 <= j < entries.len() && (#[trigger] entries[i]).0@ == (
        #[trigger] entries[j]).0@ ==> i == j
}

spec fn model(entries: Seq<(String, Zone)>) -> Map<Seq<char>, ZoneModel> {
    Map::new(
        |name: Seq<char>| has_name(entries, name),
        |name: Seq<char>| entries[place(entries, name)].1@,
    )
}

impl View for Zones {
    type V = Map<Seq<char>, ZoneModel>;

    closed spec fn view(&self) -> Map<Seq<char>, ZoneModel> {
        model(self.entries@)
    }
}

impl Clone for Zones {
    fn clone(&self) -> (r: Self)
        ensures
            r@ == self@,
    {
        proof {
            use_type_invariant(self);
        }
        let mut entries: Vec<(String, Zone)> = Vec::new();
        let mut i: usize = 0;
        while i < self.entries.len()
            invariant
                i <= self.entries.len(),
                entries.len() == i,
                forall|j: int|
                    0 <= j < i ==> (#[trigger] entries@[j]).0@ == self.entries@[j].0@
                        && entries@[j].1@ == self.entries@[j].1@,
            decreases self.entries.len() - i,
        {
            let entry = &self.entries[i];
            entries.push((entry.0.clone(), entry.1.clone()));
            i = i + 1;
        }
        proof {
            let (a, b) = (entries@, self.entries@);
            assert(names_differ(a)) by {
                assert forall|i: int, j: int|
                    0 <= i < a.len() && 0 <= j < a.len() && (#[trigger] a[i]).0@ == (
                    #[trigger] a[j]).0@ implies i == j by {
                    assert(b[i].0@ == b[j].0@);
                }
            }
            assert forall|name: Seq<char>| #[trigger] has_name(a, name) == has_name(b, name) by {
                if has_name(a, name) {
                    assert(b[place(a, name)].0@ == name);
                }
                if has_name(b, name) {
                    assert(a[place(b, name)].0@ == name);
                }
            }
            assert forall|name: Seq<char>| #[trigger] has_name(a, name) implies a[place(
                a,
                name,
            )].1@ == b[place(b, name)].1@ by {
                assert(has_name(b, name));
                assert(b[place(a, name)].0@ == name);
                assert(place(a, name) == place(b, name));
            }
            assert(model(a) =~= model(b));
        }
        Zones { entries }
    }
}

/// The chains of the nftables backend.
#[derive(Clone, Copy, Debug, PartialEq, Eq, Structural)]
pub enum Chain {
    Input,
    Forward,
    Output,
}

/// A rule with the interfaces that its zones stand for. Where no interface is listed, the rule
/// applies to every interface.
#[derive(Debug)]
pub struct ResolvedRule {
    pub chain: Chain,
    pub blocklist: Direction,
    pub ingress: Vec<String>,
    pub egress: Vec<String>,
}

/// Whether the zone `name` holds the interface `interface`.
pub open spec fn provides(
    zones: Map<Seq<char>, ZoneModel>,
    name: Seq<char>,
    interface: Seq<char>,
) -> bool {
    zones.contains_key(name) && zones[name].interfaces.contains(interface)
}

/// The interfaces of the zones with the given names.
pub open spec fn interfaces_of(
    zones: Map<Seq<char>, ZoneModel>,
    names: Seq<Seq<char>>,
) -> Set<Seq<char>> {
    Set::new(
        |interface: Seq<char>|
            exists|i: int| 0 <= i < names.len() && #[trigger] provides(zones, names[i], interface),
    )
}

/// The first of `names` that is not the name of a zone.
pub open spec fn first_unknown(
    zones: Map<Seq<char>, ZoneModel>,
    names: Seq<Seq<char>>,
) -> Option<Seq<char>>
    decreases names.len(),
{
    if names.len() == 0 {
        None
    } else if !zones.contains_key(names[0]) {
        Some(names[0])
    } else {
        first_unknown(zones, names.skip(1))
    }
}

/// The zones that a rule names: where traffic comes from, then where it goes.
pub open spec fn zones_named(rule: RuleMapping) -> Seq<Seq<char>> {
    texts(rule.ingress_zones@) + texts(rule.egress_zones@)
}

/// The first zone named in `rules` that is not defined.
pub open spec fn first_unknown_in(
    zones: Map<Seq<char>, ZoneModel>,
    rules: Seq<RuleMapping>,
) -> Option<Seq<char>>
    decreases rules.len(),
{
    if rules.len() == 0 {
        None
    } else {
        match first_unknown(zones, zones_named(rules[0])) {
            Some(name) => Some(name),
            None => first_unknown_in(zones, rules.skip(1)),
        }
    }
}

/// Whether `list` holds the names of `set`, each once, in increasing order.
pub open spec fn lists(list: Seq<String>, set: Set<Seq<char>>) -> bool {
    increasing(texts(list)) && texts(list).to_set() == set
}

/// Whether `resolved` is `rule`, in `chain`, with the interfaces that its zones stand for.
pub open spec fn resolves_to(
    zones: Map<Seq<char>, ZoneModel>,
    chain: Chain,
    rule: RuleMapping,
    resolved: ResolvedRule,
) -> bool {
    &&& resolved.chain == chain
    &&& resolved.blocklist == rule.blocklist
    &&& lists(resolved.ingress@, interfaces_of(zones, texts(rule.ingress_zones@)))
    &&& lists(resolved.egress@, interfaces_of(zones, texts(rule.egress_zones@)))
}

impl Rules {
    /// The chain of the rule at place `i` of all rules.
    pub open spec fn chain_at(&self, i: int) -> Chain {
        if i < self.input@.len() {
            Chain::Input
        } else if i < self.input@.len() + self.forward@.len() {
            Chain::Forward
        } else {
            Chain::Output
        }
    }
}

/// A list of zones is refused if and only if one of them is not defined, and the one reported is
/// not.
pub proof fn law_refused_zone_is_undefined(zones: Map<Seq<char>, ZoneModel>, names: Seq<Seq<char>>)
    ensures
        first_unknown(zones, names) is None <==> (forall|i: int|
            0 <= i < names.len() ==> zones.contains_key(#[trigger] names[i])),
        first_unknown(zones, names) matches Some(name) ==> names.contains(name)
            && !zones.contains_key(name),
    decreases names.len(),
{
    if names.len() > 0 {
        let rest = names.skip(1);
        law_refused_zone_is_undefined(zones, rest);
        assert forall|i: int| 0 <= i < rest.len() implies rest[i] == #[trigger] names[i + 1] by {}
        if zones.contains_key(names[0]) {
            if first_unknown(zones, rest) is None {
                assert forall|i: int| 0 <= i < names.len() implies zones.contains_key(
                    #[trigger] names[i],
                ) by {
                    if i > 0 {
                        assert(rest[i - 1] == names[i]);
                    }
                }
            } else {
                let name = first_unknown(zones, rest)->0;
                let i = choose|i: int| 0 <= i < rest.len() && rest[i] == name;
                assert(names[i + 1] == name);
            }
        }
    }
}

/// What the interfaces of a list of zones and the first unknown one among them are.
proof fn lemma_zone_list(zones: Map<Seq<char>, ZoneModel>, names: Seq<String>)
    ensures
        first_unknown(zones, texts(names)) is None <==> (forall|i: int|
            0 <= i < names.len() ==> zones.contains_key((#[trigger] names[i])@)),
        first_unknown(zones, texts(names)) is None ==> forall|x: Seq<char>| #[trigger]
            interfaces_of(zones, texts(names)).contains(x) <==> exists|i: int|
                0 <= i < names.len() && zones[(#[trigger] names[i])@].interfaces.contains(x),
        first_unknown(zones, texts(names)) matches Some(name) ==> exists|i: int|
            0 <= i < names.len() && !zones.contains_key((#[trigger] names[i])@) && name == names[i]@
                && forall|j: int| 0 <= j < i ==> zones.contains_key((#[trigger] names[j])@),
{
    let keys = texts(names);
    law_refused_zone_is_undefined(zones, keys);
    assert forall|i: int| 0 <= i < names.len() implies keys[i] == (#[trigger] names[i])@ by {}
    if first_unknown(zones, keys) is None {
        assert forall|i: int| 0 <= i < names.len() implies zones.contains_key(
            (#[trigger] names[i])@,
        ) by {
            assert(zones.contains_key(keys[i]));
        }
        assert forall|x: Seq<char>| #[trigger]
            interfaces_of(zones, keys).contains(x) <==> exists|i: int|
                0 <= i < names.len() && zones[(#[trigger] names[i])@].interfaces.contains(x) by {
            if interfaces_of(zones, keys).contains(x) {
                let i = choose|i: int| 0 <= i < keys.len() && #[trigger] provides(zones, keys[i], x);
                assert(zones[names[i]@].interfaces.contains(x));
            }
            if exists|i: int|
                0 <= i < names.len() && zones[(#[trigger] names[i])@].interfaces.contains(x) {
                let i = choose|i: int|
                    0 <= i < names.len() && zones[(#[trigger] names[i])@].interfaces.contains(x);
                assert(provides(zones, keys[i], x));
            }
        }
    } else {
        lemma_first_unknown_place(zones, keys);
        let i = choose|i: int|
            0 <= i < keys.len() && !zones.contains_key(#[trigger] keys[i]) && first_unknown(
                zones,
                keys,
            ) == Some(keys[i]) && forall|j: int|
                0 <= j < i ==> zones.contains_key(#[trigger] keys[j]);
        assert(names[i]@ == keys[i]);
        assert forall|j: int| 0 <= j < i implies zones.contains_key((#[trigger] names[j])@) by {
            assert(zones.contains_key(keys[j]));
        }
    }
}

/// All names before the first unknown one are known.
pub proof fn lemma_first_unknown_place(zones: Map<Seq<char>, ZoneModel>, names: Seq<Seq<char>>)
    requires
        first_unknown(zones, names) is Some,
    ensures
        exists|i: int|
            0 <= i < names.len() && !zones.contains_key(#[trigger] names[i]) && first_unknown(
                zones,
                names,
            ) == Some(names[i]) && forall|j: int|
                0 <= j < i ==> zones.contains_key(#[trigger] names[j]),
    decreases names.len(),
{
    if !zones.contains_key(names[0]) {
        assert(first_unknown(zones, names) == Some(names[0]));
    } else {
        let rest = names.skip(1);
        lemma_first_unknown_place(zones, rest);
        let i = choose|i: int|
            0 <= i < rest.len() && !zones.contains_key(#[trigger] rest[i]) && first_unknown(
                zones,
                rest,
            ) == Some(rest[i]) && forall|j: int|
                0 <= j < i ==> zones.contains_key(#[trigger] rest[j]);
        assert(names[i + 1] == rest[i]);
        assert forall|j: int| 0 <= j < i + 1 implies zones.contains_key(#[trigger] names[j]) by {
            if j > 0 {
                assert(rest[j - 1] == names[j]);
            }
        }
    }
}

/// The first unknown name of two lists in a row.
pub proof fn lemma_first_unknown_concat(
    zones: Map<Seq<char>, ZoneModel>,
    a: Seq<Seq<char>>,
    b: Seq<Seq<char>>,
)
    ensures
        first_unknown(zones, a + b) == match first_unknown(zones, a) {
            Some(name) => Some(name),
            None => first_unknown(zones, b),
        },
    decreases a.len(),
{
    if a.len() == 0 {
        assert(a + b =~= b);
    } else {
        assert((a + b).skip(1) =~= a.skip(1) + b);
        lemma_first_unknown_concat(zones, a.skip(1), b);
    }
}

/// The first unknown name in two lists of rules in a row.
proof fn lemma_first_unknown_in_concat(
    zones: Map<Seq<char>, ZoneModel>,
    a: Seq<RuleMapping>,
    b: Seq<RuleMapping>,
)
    ensures
        first_unknown_in(zones, a + b) == match first_unknown_in(zones, a) {
            Some(name) => Some(name),
            None => first_unknown_in(zones, b),
        },
    decreases a.len(),
{
    if a.len() == 0 {
        assert(a + b =~= b);
    } else {
        assert((a + b).skip(1) =~= a.skip(1) + b);
        lemma_first_unknown_in_concat(zones, a.skip(1), b);
    }
}

/// One more zone adds its interfaces.
proof fn lemma_interfaces_of_push(
    zones: Map<Seq<char>, ZoneModel>,
    names: Seq<Seq<char>>,
    name: Seq<char>,
)
    requires
        zones.contains_key(name),
    ensures
        interfaces_of(zones, names.push(name)) == interfaces_of(zones, names).union(
            zones[name].interfaces.to_set(),
        ),
{
    let more = names.push(name);
    let set = interfaces_of(zones, names).union(zones[name].interfaces.to_set());
    assert forall|x: Seq<char>| #[trigger] interfaces_of(zones, more).contains(x) <==> set.contains(
        x,
    ) by {
        if interfaces_of(zones, more).contains(x) {
            let i = choose|i: int| 0 <= i < more.len() && #[trigger] provides(zones, more[i], x);
            if i < names.len() {
                assert(provides(zones, names[i], x));
            }
        }
        if interfaces_of(zones, names).contains(x) {
            let i = choose|i: int| 0 <= i < names.len() && #[trigger] provides(zones, names[i], x);
            assert(provides(zones, more[i], x));
        }
        if zones[name].interfaces.contains(x) {
            assert(provides(zones, more[names.len() as int], x));
        }
    }
    assert(interfaces_of(zones, more) =~= set);
}

/// What resolved rules are, chain by chain. Each rule keeps its place within its chain, its chain
/// and its blocklist. It lists an interface on a side if and only if a zone that it names for that
/// side holds the interface, and lists none twice.
pub proof fn law_resolved_rules(
    zones: Map<Seq<char>, ZoneModel>,
    rules: Rules,
    resolved: Seq<ResolvedRule>,
    i: int,
    rule: RuleMapping,
    r: ResolvedRule,
    interface: Seq<char>,
)
    requires
        resolved.len() == rules.all().len(),
        0 <= i < resolved.len(),
        resolves_to(zones, rules.chain_at(i), rules.all()[i], resolved[i]),
        r == resolved[i],
        rule == if i < rules.input@.len() {
            rules.input@[i]
        } else if i < rules.input@.len() + rules.forward@.len() {
            rules.forward@[i - rules.input@.len()]
        } else {
            rules.output@[i - rules.input@.len() - rules.forward@.len()]
        },
    ensures
        resolved.len() == rules.input@.len() + rules.forward@.len() + rules.output@.len(),
        r.chain == if i < rules.input@.len() {
            Chain::Input
        } else if i < rules.input@.len() + rules.forward@.len() {
            Chain::Forward
        } else {
            Chain::Output
        },
        r.blocklist == rule.blocklist,
        (exists|k: int| 0 <= k < r.ingress@.len() && (#[trigger] r.ingress@[k])@ == interface) <==> (
        exists|j: int|
            0 <= j < rule.ingress_zones@.len() && zones.contains_key(
                (#[trigger] rule.ingress_zones@[j])@,
            ) && zones[rule.ingress_zones@[j]@].interfaces.contains(interface)),
        (exists|k: int| 0 <= k < r.egress@.len() && (#[trigger] r.egress@[k])@ == interface) <==> (
        exists|j: int|
            0 <= j < rule.egress_zones@.len() && zones.contains_key(
                (#[trigger] rule.egress_zones@[j])@,
            ) && zones[rule.egress_zones@[j]@].interfaces.contains(interface)),
        forall|a: int, b: int|
            0 <= a < b < r.ingress@.len() ==> (#[trigger] r.ingress@[a])@ != (
            #[trigger] r.ingress@[b])@,
        forall|a: int, b: int|
            0 <= a < b < r.egress@.len() ==> (#[trigger] r.egress@[a])@ != (
            #[trigger] r.egress@[b])@,
{
    assert(rules.all()[i] == rule);
    lemma_lists(zones, rule.ingress_zones@, r.ingress@);
    lemma_lists(zones, rule.egress_zones@, r.egress@);
    assert(is_listed(r.ingress@, interface) == is_held(zones, rule.ingress_zones@, interface));
    assert(is_listed(r.egress@, interface) == is_held(zones, rule.egress_zones@, interface));
}

/// Whether `list` holds `x`.
spec fn is_listed(list: Seq<String>, x: Seq<char>) -> bool {
    exists|k: int| 0 <= k < list.len() && (#[trigger] list[k])@ == x
}

/// Whether one of the zones `names` holds `x`.
spec fn is_held(zones: Map<Seq<char>, ZoneModel>, names: Seq<String>, x: Seq<char>) -> bool {
    exists|j: int|
        0 <= j < names.len() && zones.contains_key((#[trigger] names[j])@)
            && zones[names[j]@].interfaces.contains(x)
}

/// Whether no name stands in `list` twice.
spec fn listed_once(list: Seq<String>) -> bool {
    forall|a: int, b: int| 0 <= a < b < list.len() ==> (#[trigger] list[a])@ != (#[trigger] list[b])@
}

/// What a list of the interfaces of zones holds.
proof fn lemma_lists(zones: Map<Seq<char>, ZoneModel>, names: Seq<String>, list: Seq<String>)
    requires
        lists(list, interfaces_of(zones, texts(names))),
    ensures
        listed_once(list),
        forall|x: Seq<char>| #[trigger] is_listed(list, x) == is_held(zones, names, x),
{
    let keys = texts(names);
    assert forall|a: int, b: int| 0 <= a < b < list.len() implies (#[trigger] list[a])@ != (
    #[trigger] list[b])@ by {
        lemma_increasing_differ(texts(list), a, b);
    }
    assert forall|x: Seq<char>| #[trigger] is_listed(list, x) == is_held(zones, names, x) by {
        let set = texts(list).to_set();
        assert(set.contains(x) == is_listed(list, x)) by {
            if is_listed(list, x) {
                let k = choose|k: int| 0 <= k < list.len() && (#[trigger] list[k])@ == x;
                assert(texts(list)[k] == x);
            }
            if set.contains(x) {
                let k = choose|k: int| 0 <= k < texts(list).len() && texts(list)[k] == x;
                assert(list[k]@ == x);
            }
        }
        assert(set.contains(x) == interfaces_of(zones, keys).contains(x));
        if interfaces_of(zones, keys).contains(x) {
            let j = choose|j: int| 0 <= j < keys.len() && #[trigger] provides(zones, keys[j], x);
            assert(names[j]@ == keys[j]);
        }
        if is_held(zones, names, x) {
            let j = choose|j: int|
                0 <= j < names.len() && zones.contains_key((#[trigger] names[j])@)
                    && zones[names[j]@].interfaces.contains(x);
            assert(provides(zones, keys[j], x));
        }
    }
}

impl Zones {
    #[verifier::type_invariant]
    spec fn well_formed(self) -> bool {
        names_differ(self.entries@)
    }

    /// No zones.
    pub fn new() -> (r: Zones)
        ensures
            r@ == Map::<Seq<char>, ZoneModel>::empty(),
    {
        let entries: Vec<(String, Zone)> = Vec::new();
        assert(model(entries@) =~= Map::<Seq<char>, ZoneModel>::empty());
        Zones { entries }
    }

    /// Where the zone `name` stands, if there is one.
    fn position(&self, name: &String) -> (r: Option<usize>)
        ensures
            match r {
                Some(i) => i < self.entries.len() && self.entries@[i as int].0@ == name@,
                None => !has_name(self.entries@, name@),
            },
    {
        let mut i: usize = 0;
        while i < self.entries.len()
            invariant
                i <= self.entries.len(),
                forall|j: int| 0 <= j < i ==> (#[trigger] self.entries@[j]).0@ != name@,
            decreases self.entries.len() - i,
        {
            if self.entries[i].0 == *name {
                return Some(i);
            }
            i = i + 1;
        }
        None
    }

    /// Defines the zone `name`, in place of one that it had before.
    pub fn insert(&mut self, name: String, zone: Zone)
        ensures
            final(self)@ == old(self)@.insert(name@, zone@),
    {
        proof {
            use_type_invariant(&*self);
        }
        let found = self.position(&name);
        let ghost before = self.entries@;
        let ghost (key, value) = (name@, zone@);
        let mut entries: Vec<(String, Zone)> = Vec::new();
        std::mem::swap(&mut entries, &mut self.entries);
        match found {
            Some(i) => {
                entries.set(i, (name, zone));
                proof {
                    assert(entries@ =~= before.update(i as int, entries@[i as int]));
                }
            },
            None => {
                entries.push((name, zone));
            },
        }
        proof {
            let after = entries@;
            let at = match found {
                Some(i) => i as int,
                None => before.len() as int,
            };
            assert(after[at].0@ == key && after[at].1@ == value);
            assert forall|i: int| 0 <= i < before.len() && i != at implies #[trigger] after[i]
                == before[i] by {}
            assert forall|i: int| 0 <= i < before.len() && i != at implies (
            #[trigger] before[i]).0@ != key by {}
            assert(names_differ(after));
            assert forall|n: Seq<char>| #[trigger] has_name(after, n) <==> has_name(before, n) || n
                == key by {
                if has_name(before, n) && n != key {
                    assert(after[place(before, n)].0@ == n);
                }
                if has_name(after, n) && n != key {
                    assert(place(after, n) != at);
                    assert(before[place(after, n)].0@ == n);
                }
            }
            assert forall|n: Seq<char>| #[trigger] has_name(after, n) implies after[place(
                after,
                n,
            )].1@ == (if n == key {
                value
            } else {
                before[place(before, n)].1@
            }) by {
                let p = place(after, n);
                if n == key {
                    assert(after[p].0@ == after[at].0@);
                } else {
                    assert(p != at);
                    assert(before[p].0@ == n);
                    assert(has_name(before, n));
                    assert(place(before, n) == p);
                }
            }
            assert(model(after) =~= model(before).insert(key, value));
        }
        self.entries = entries;
    }

    /// The interfaces of the zones with the given names.
    pub fn interfaces(&self, names: &Vec<String>) -> (r: Result<InterfaceSet, ConfigError>)
        ensures
            match r {
                Ok(set) => first_unknown(self@, texts(names@)) is None && set@ == interfaces_of(
                    self@,
                    texts(names@),
                ),
                Err(e) => first_unknown(self@, texts(names@)) matches Some(name) && e@
                    == Refusal::UnknownZone(name),
            },
            r is Ok <==> (forall|i: int|
                0 <= i < names@.len() ==> self@.contains_key((#[trigger] names@[i])@)),
            r matches Ok(set) ==> forall|x: Seq<char>| #[trigger]
                set@.contains(x) <==> exists|i: int|
                    0 <= i < names@.len() && self@[(#[trigger] names@[i])@].interfaces.contains(x),
            r matches Err(e) ==> exists|i: int|
                0 <= i < names@.len() && !self@.contains_key((#[trigger] names@[i])@) && e@
                    == Refusal::UnknownZone(names@[i]@) && forall|j: int|
                    0 <= j < i ==> self@.contains_key((#[trigger] names@[j])@),
    {
        proof {
            use_type_invariant(self);
            lemma_zone_list(self@, names@);
        }
        let ghost keys = texts(names@);
        let mut set = InterfaceSet::new();
        let mut i: usize = 0;
        assert(keys.skip(0) =~= keys);
        assert(interfaces_of(self@, keys.take(0)) =~= Set::<Seq<char>>::empty());
        while i < names.len()
            invariant
                names_differ(self.entries@),
                i <= names.len(),
                keys == texts(names@),
                first_unknown(self@, keys) == first_unknown(self@, keys.skip(i as int)),
                set@ == interfaces_of(self@, keys.take(i as int)),
            decreases names.len() - i,
        {
            assert(keys.skip(i as int).skip(1) =~= keys.skip(i + 1));
            let name = &names[i];
            match self.position(name) {
                None => {
                    proof {
                        lemma_zone_list(self@, names@);
                    }
                    return Err(ConfigError::UnknownZone(name.clone()));
                },
                Some(at) => {
                    let zone = &self.entries[at].1;
                    proof {
                        assert(has_name(self.entries@, name@));
                        assert(self@.contains_key(name@));
                        assert(place(self.entries@, name@) == at);
                        assert(self@[name@] == zone@);
                        assert(keys.take(i + 1) =~= keys.take(i as int).push(name@));
                        lemma_interfaces_of_push(self@, keys.take(i as int), name@);
                    }
                    let ghost start = set@;
                    let ghost more = texts(zone.interfaces@);
                    let mut j: usize = 0;
                    assert(set@ =~= start.union(more.take(0).to_set()));
                    while j < zone.interfaces.len()
                        invariant
                            j <= zone.interfaces.len(),
                            more == texts(zone.interfaces@),
                            set@ == start.union(more.take(j as int).to_set()),
                        decreases zone.interfaces.len() - j,
                    {
                        set.insert(zone.interfaces[j].clone());
                        proof {
                            let t = more.take(j as int);
                            assert(more.take(j + 1) =~= t.push(more[j as int]));
                            lemma_push_to_set(t, more[j as int]);
                            assert(set@ =~= start.union(more.take(j + 1).to_set()));
                        }
                        j = j + 1;
                    }
                    assert(more.take(more.len() as int) =~= more);
                },
            }
            i = i + 1;
        }
        assert(keys.take(keys.len() as int) =~= keys);
        assert(keys.skip(keys.len() as int) =~= Seq::<Seq<char>>::empty());
        Ok(set)
    }

    /// Resolves `rules`, the rules of `chain`, and appends the results to `out`.
    fn resolve_chain(
        &self,
        chain: Chain,
        rules: &Vec<RuleMapping>,
        out: &mut Vec<ResolvedRule>,
    ) -> (r: Result<(), ConfigError>)
        ensures
            match r {
                Ok(_) => {
                    &&& first_unknown_in(self@, rules@) is None
                    &&& final(out)@.len() == old(out)@.len() + rules@.len()
                    &&& forall|i: int|
                        0 <= i < old(out)@.len() ==> #[trigger] final(out)@[i] == old(out)@[i]
                    &&& forall|i: int|
                        0 <= i < rules@.len() ==> resolves_to(
                            self@,
                            chain,
                            #[trigger] rules@[i],
                            final(out)@[old(out)@.len() + i],
                        )
                },
                Err(e) => first_unknown_in(self@, rules@) matches Some(name) && e@
                    == Refusal::UnknownZone(name),
            },
    {
        let ghost start = out@.len() as int;
        let mut i: usize = 0;
        assert(rules@.skip(0) =~= rules@);
        while i < rules.len()
            invariant
                i <= rules.len(),
                start == old(out)@.len(),
                first_unknown_in(self@, rules@) == first_unknown_in(self@, rules@.skip(i as int)),
                out@.len() == start + i,
                forall|j: int| 0 <= j < start ==> #[trigger] out@[j] == old(out)@[j],
                forall|j: int|
                    0 <= j < i ==> resolves_to(
                        self@,
                        chain,
                        #[trigger] rules@[j],
                        out@[start + j],
                    ),
            decreases rules.len() - i,
        {
            let rule = &rules[i];
            proof {
                assert(rules@.skip(i as int).skip(1) =~= rules@.skip(i + 1));
                lemma_first_unknown_concat(
                    self@,
                    texts(rule.ingress_zones@),
                    texts(rule.egress_zones@),
                );
            }
            let ingress = match self.interfaces(&rule.ingress_zones) {
                Ok(set) => set,
                Err(e) => {
                    return Err(e);
                },
            };
            let egress = match self.interfaces(&rule.egress_zones) {
                Ok(set) => set,
                Err(e) => {
                    return Err(e);
                },
            };
            out.push(
                ResolvedRule {
                    chain,
                    blocklist: rule.blocklist,
                    ingress: ingress.into_names(),
                    egress: egress.into_names(),
                },
            );
            i = i + 1;
        }
        assert(rules@.skip(rules@.len() as int) =~= Seq::<RuleMapping>::empty());
        Ok(())
    }

    /// The rules with the interfaces that their zones stand for, in the order of
    /// [`Rules::all`].
    pub fn resolve(&self, rules: &Rules) -> (r: Result<Vec<ResolvedRule>, ConfigError>)
        ensures
            match r {
                Ok(v) => {
                    &&& first_unknown_in(self@, rules.all()) is None
                    &&& v@.len() == rules.all().len()
                    &&& forall|i: int|
                        0 <= i < v@.len() ==> resolves_to(
                            self@,
                            rules.chain_at(i),
                            rules.all()[i],
                            #[trigger] v@[i],
                        )
                },
                Err(e) => first_unknown_in(self@, rules.all()) matches Some(name) && e@
                    == Refusal::UnknownZone(name),
            },
    {
        proof {
            lemma_first_unknown_in_concat(self@, rules.input@, rules.forward@);
            lemma_first_unknown_in_concat(self@, rules.input@ + rules.forward@, rules.output@);
        }
        let mut out: Vec<ResolvedRule> = Vec::new();
        if let Err(e) = self.resolve_chain(Chain::Input, &rules.input, &mut out) {
            return Err(e);
        }
        let ghost first = out@;
        if let Err(e) = self.resolve_chain(Chain::Forward, &rules.forward, &mut out) {
            return Err(e);
        }
        let ghost second = out@;
        if let Err(e) = self.resolve_chain(Chain::Output, &rules.output, &mut out) {
            return Err(e);
        }
        proof {
            let n = rules.input@.len() as int;
            let m = n + rules.forward@.len() as int;
            assert forall|i: int| 0 <= i < out@.len() implies resolves_to(
                self@,
                rules.chain_at(i),
                rules.all()[i],
                #[trigger] out@[i],
            ) by {
                if i < n {
                    assert(out@[i] == second[i] && second[i] == first[i]);
                    assert(rules.all()[i] == rules.input@[i]);
                } else if i < m {
                    assert(out@[i] == second[i]);
                    assert(rules.all()[i] == rules.forward@[i - n]);
                } else {
                    assert(rules.all()[i] == rules.output@[i - m]);
                }
            }
        }
        Ok(out)
    }
}

} // verus!
