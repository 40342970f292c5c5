//! Where the TC backend pins its maps and links.

use crate::config::Tc;
use crate::path::{
    components, joined, lemma_segment_len, lemma_segment_len_is, FilePath, DOT, SEPARATOR,
};
use crate::table::{Table, CONTROL};
use crate::text::{decimal, decimal_string, is_digit, lemma_decimal, spelled_u32};
use vstd::prelude::*;
use vstd::utf8::*;

verus! {

/// The directory for links below `pin_path`.
pub open spec fn links_below(pin_path: Seq<u8>) -> Seq<u8> {
    joined(pin_path, encode_utf8("links"@))
}

/// The pin of the link to the interface `ifindex` below `pin_path`.
pub open spec fn link_below(pin_path: Seq<u8>, ifindex: u32) -> Seq<u8> {
    joined(links_below(pin_path), encode_utf8(decimal(ifindex as nat)))
}

/// The directory for links.
pub fn link_dir(config: &Tc) -> (path: FilePath)
    ensures
        path@ == links_below(config.pin_path@),
{
    config.pin_path.join("links")
}

/// The pin of the link to the interface `ifindex`.
pub fn link_path(config: &Tc, ifindex: u32) -> (path: FilePath)
    ensures
        path@ == link_below(config.pin_path@, ifindex),
{
    link_dir(config).join(decimal_string(ifindex).as_str())
}

/// Something to be removed if it exists.
#[derive(Debug)]
pub struct Removal {
    pub path: FilePath,
    pub is_directory: bool,
}

/// The names of the maps that are pinned.
pub open spec fn map_names() -> Seq<Seq<char>> {
    seq![
        CONTROL@,
        Table::Ipv4A.text(),
        Table::Ipv4B.text(),
        Table::Ipv6A.text(),
        Table::Ipv6B.text(),
    ]
}

/// Whether `r` removes the file or directory at `path`.
pub open spec fn removes(r: Removal, path: Seq<u8>, is_directory: bool) -> bool {
    r.path@ == path && r.is_directory == is_directory
}

/// Whether `plan` removes what is left below `pin_path` once all links are gone, in order: the
/// pins of the maps, the directory for links, and `pin_path` itself.
pub open spec fn clears(plan: Seq<Removal>, pin_path: Seq<u8>) -> bool {
    &&& plan.len() == map_names().len() + 2
    &&& forall|i: int|
        0 <= i < map_names().len() ==> removes(
            #[trigger] plan[i],
            joined(pin_path, encode_utf8(map_names()[i])),
            false,
        )
    &&& removes(plan[map_names().len() as int], links_below(pin_path), true)
    &&& removes(plan[map_names().len() as int + 1], pin_path, true)
}

/// What is left to be removed below `pin_path` once all links are gone.
pub fn remove_map_pins(pin_path: &FilePath) -> (plan: Vec<Removal>)
    ensures
        clears(plan@, pin_path@),
        plan@.len() == 7,
        plan@[0].path@ == joined(pin_path@, encode_utf8("CONTROL"@)) && !plan@[0].is_directory,
        plan@[1].path@ == joined(pin_path@, encode_utf8("IPV4_A"@)) && !plan@[1].is_directory,
        plan@[2].path@ == joined(pin_path@, encode_utf8("IPV4_B"@)) && !plan@[2].is_directory,
        plan@[3].path@ == joined(pin_path@, encode_utf8("IPV6_A"@)) && !plan@[3].is_directory,
        plan@[4].path@ == joined(pin_path@, encode_utf8("IPV6_B"@)) && !plan@[4].is_directory,
        plan@[5].path@ == joined(pin_path@, encode_utf8("links"@)) && plan@[5].is_directory,
        plan@[6].path@ == pin_path@ && plan@[6].is_directory,
{
    let mut plan: Vec<Removal> = Vec::new();
    plan.push(Removal { path: pin_path.join(CONTROL), is_directory: false });
    plan.push(Removal { path: pin_path.join(Table::Ipv4A.name()), is_directory: false });
    plan.push(Removal { path: pin_path.join(Table::Ipv4B.name()), is_directory: false });
    plan.push(Removal { path: pin_path.join(Table::Ipv6A.name()), is_directory: false });
    plan.push(Removal { path: pin_path.join(Table::Ipv6B.name()), is_directory: false });
    plan.push(Removal { path: pin_path.join("links"), is_directory: true });
    plan.push(Removal { path: pin_path.clone(), is_directory: true });
    plan
}

/// Whether `name` is one component of a path by itself.
pub open spec fn is_component(name: Seq<u8>) -> bool {
    &&& name.len() > 0
    &&& name != seq![DOT]
    &&& forall|i: int| 0 <= i < name.len() ==> name[i] != SEPARATOR
}

/// The components of a path that ends in a separator, or of none, and of what is put behind it.
proof fn lemma_components_append(front: Seq<u8>, name: Seq<u8>)
    requires
        front.len() == 0 || front.last() == SEPARATOR,
        is_component(name),
    ensures
        components(front + name) == components(front).push(name),
    decreases front.len(),
{
    let path = front + name;
    if front.len() == 0 {
        assert(path =~= name);
        lemma_segment_len_is(name, name.len() as int);
        assert(name.take(name.len() as int) =~= name);
        assert(name.skip(name.len() as int) =~= Seq::<u8>::empty());
        assert(components(Seq::<u8>::empty()) =~= Seq::<Seq<u8>>::empty());
        assert(seq![name] + Seq::<Seq<u8>>::empty() =~= Seq::<Seq<u8>>::empty().push(name));
    } else if front[0] == SEPARATOR {
        assert(path.skip(1) =~= front.skip(1) + name);
        lemma_components_append(front.skip(1), name);
    } else {
        lemma_segment_len(front);
        let n = crate::path::segment_len(front) as int;
        assert(front[front.len() - 1] == SEPARATOR);
        assert(n < front.len());
        assert forall|i: int| 0 <= i < n implies path[i] != SEPARATOR by {
            assert(path[i] == front[i]);
        }
        assert(path[n] == front[n]);
        lemma_segment_len_is(path, n);
        assert(path.take(n) =~= front.take(n));
        assert(path.skip(n) =~= front.skip(n) + name);
        lemma_components_append(front.skip(n), name);
        if front.take(n) != seq![DOT] {
            assert(seq![front.take(n)] + components(front.skip(n)).push(name) =~= (
            seq![front.take(n)] + components(front.skip(n))).push(name));
        }
    }
}

/// Joining a name to a path adds one component at its end.
pub proof fn law_join_adds_component(path: Seq<u8>, name: Seq<u8>)
    requires
        is_component(name),
    ensures
        components(joined(path, name)) == components(path).push(name),
{
    assert(name[0] != SEPARATOR);
    if path.len() > 0 && path.last() != SEPARATOR {
        lemma_components_append(path.push(SEPARATOR), name);
        crate::path::law_trailing_separator(path);
    } else {
        lemma_components_append(path, name);
    }
}

/// The absolute path of a place that is reached through the directories `names`: each behind a
/// separator.
pub open spec fn rooted_path(names: Seq<Seq<u8>>) -> Seq<u8>
    decreases names.len(),
{
    if names.len() == 0 {
        seq![]
    } else {
        rooted_path(names.drop_last()) + seq![47u8] + names.last()
    }
}

/// The components of an absolute path are the names that it was made of, so that two such paths
/// name the same location if and only if they are made of the same names.
pub proof fn law_absolute_paths_differ_by_their_names(a: Seq<Seq<u8>>, b: Seq<Seq<u8>>)
    requires
        a.len() > 0,
        b.len() > 0,
        forall|i: int| 0 <= i < a.len() ==> is_component(#[trigger] a[i]),
        forall|i: int| 0 <= i < b.len() ==> is_component(#[trigger] b[i]),
    ensures
        components(rooted_path(a)) == a,
        crate::path::same_location(rooted_path(a), rooted_path(b)) <==> a == b,
{
    lemma_rooted_path(a);
    lemma_rooted_path(b);
}

proof fn lemma_rooted_path(names: Seq<Seq<u8>>)
    requires
        forall|i: int| 0 <= i < names.len() ==> is_component(#[trigger] names[i]),
    ensures
        components(rooted_path(names)) == names,
        names.len() > 0 ==> rooted_path(names).len() > 0 && rooted_path(names)[0] == 47,
    decreases names.len(),
{
    if names.len() == 0 {
        assert(components(rooted_path(names)) =~= names);
    } else {
        let front = names.drop_last();
        assert forall|i: int| 0 <= i < front.len() implies is_component(#[trigger] front[i]) by {
            assert(front[i] == names[i]);
        }
        lemma_rooted_path(front);
        let path = rooted_path(front) + seq![47u8];
        assert(path =~= rooted_path(front).push(SEPARATOR));
        crate::path::lemma_components_push_separator(rooted_path(front));
        lemma_components_append(path, names.last());
        assert(front.push(names.last()) =~= names);
    }
}

/// The links below a pin path that ends in no separator are pinned in its directory `links`, each
/// under the index of its interface.
pub proof fn law_links_are_pinned_by_index(pin_path: Seq<u8>, ifindex: u32)
    requires
        pin_path.len() > 0,
        pin_path.last() != 47,
    ensures
        links_below(pin_path) == pin_path + encode_utf8("/links"@),
        link_below(pin_path, ifindex) == pin_path + encode_utf8("/links/"@) + encode_utf8(
            decimal(ifindex as nat),
        ),
{
    reveal_strlit("links");
    reveal_strlit("/links");
    reveal_strlit("/links/");
    let (a, b, c) = ("links"@, "/links"@, "/links/"@);
    assert(is_ascii_chars(a) && is_ascii_chars(b) && is_ascii_chars(c));
    is_ascii_chars_encode_utf8(a);
    is_ascii_chars_encode_utf8(b);
    is_ascii_chars_encode_utf8(c);
    assert(encode_utf8(a)[0] == 'l' as u8);
    assert(encode_utf8(b) =~= seq![47u8] + encode_utf8(a));
    assert(encode_utf8(c) =~= encode_utf8(b).push(47));
    assert(pin_path.push(SEPARATOR) + encode_utf8(a) =~= pin_path + encode_utf8(b));
    lemma_decimal_bytes(ifindex as nat);
    let digits = encode_utf8(decimal(ifindex as nat));
    assert(digits[0] != SEPARATOR);
    let links = links_below(pin_path);
    assert(links.last() == encode_utf8(a)[4]);
    assert(encode_utf8(a)[4] == 's' as u8);
    assert(links.push(SEPARATOR) + digits =~= pin_path + encode_utf8(c) + digits);
}

/// The bytes of a decimal number are its digits.
proof fn lemma_decimal_bytes(n: nat)
    ensures
        is_component(encode_utf8(decimal(n))),
        is_ascii_chars(decimal(n)),
{
    lemma_decimal(n);
    let s = decimal(n);
    assert forall|i: int| 0 <= i < s.len() implies is_digit(#[trigger] s[i]) by {}
    assert(is_ascii_chars(s));
    is_ascii_chars_encode_utf8(s);
    let b = encode_utf8(s);
    assert(b.len() == s.len());
    assert forall|i: int| 0 <= i < b.len() implies b[i] != SEPARATOR && b[i] != DOT by {
        assert(is_digit(s[i]));
        assert(b[i] == s[i] as u8);
    }
    if b == seq![DOT] {
        assert(b[0] == DOT);
    }
}

/// The pin of a link is named by the index of its interface: the last component of its path
/// spells the index, so that the interface is known again from the name of the pin.
pub proof fn law_link_name_reads_back(pin_path: Seq<u8>, ifindex: u32)
    ensures
        components(link_below(pin_path, ifindex)) == components(links_below(pin_path)).push(
            encode_utf8(decimal(ifindex as nat)),
        ),
        spelled_u32(
            decode_utf8(components(link_below(pin_path, ifindex)).last()),
        ) == Some(ifindex),
{
    lemma_decimal_bytes(ifindex as nat);
    law_join_adds_component(links_below(pin_path), encode_utf8(decimal(ifindex as nat)));
    encode_utf8_decode_utf8(decimal(ifindex as nat));
    crate::text::law_decimal_reads_back(ifindex);
}

/// Different interfaces have different pins.
pub proof fn law_links_have_different_pins(pin_path: Seq<u8>, a: u32, b: u32)
    requires
        a != b,
    ensures
        !crate::path::same_location(link_below(pin_path, a), link_below(pin_path, b)),
{
    law_link_name_reads_back(pin_path, a);
    law_link_name_reads_back(pin_path, b);
}

/// The name of each map is one component of a path.
proof fn lemma_map_names()
    ensures
        forall|i: int|
            0 <= i < map_names().len() ==> is_component(#[trigger] encode_utf8(map_names()[i])),
        is_component(encode_utf8("links"@)),
{
    reveal_strlit("CONTROL");
    reveal_strlit("IPV4_A");
    reveal_strlit("IPV4_B");
    reveal_strlit("IPV6_A");
    reveal_strlit("IPV6_B");
    reveal_strlit("links");
    assert forall|i: int| 0 <= i < map_names().len() implies is_component(
        #[trigger] encode_utf8(map_names()[i]),
    ) by {
        lemma_name_bytes(map_names()[i]);
    }
    lemma_name_bytes("links"@);
}

/// The bytes of an ASCII text of at least two characters without a separator are a component.
proof fn lemma_name_bytes(s: Seq<char>)
    requires
        s.len() > 1,
        is_ascii_chars(s),
        !s.contains('/'),
    ensures
        is_component(encode_utf8(s)),
{
    is_ascii_chars_encode_utf8(s);
    let b = encode_utf8(s);
    assert forall|i: int| 0 <= i < b.len() implies b[i] != SEPARATOR by {
        assert(s[i] != '/');
        assert(b[i] == s[i] as u8);
    }
    assert(seq![DOT].len() == 1);
}

/// Nothing is removed before what it contains: the pins of the maps and the directory for links
/// stand directly in the directory that is removed last, and the pins of links directly in the
/// directory for links.
pub proof fn law_directories_are_removed_last(plan: Seq<Removal>, pin_path: Seq<u8>, ifindex: u32)
    requires
        clears(plan, pin_path),
    ensures
        plan.last().path@ == pin_path,
        forall|i: int|
            0 <= i < plan.len() - 1 ==> {
                let parts = components((#[trigger] plan[i]).path@);
                parts.len() > 0 && parts.drop_last() == components(pin_path)
            },
        ({
            let parts = components(link_below(pin_path, ifindex));
            parts.len() > 0 && parts.drop_last() == components(plan[plan.len() - 2].path@)
        }),
{
    lemma_map_names();
    assert forall|i: int| 0 <= i < plan.len() - 1 implies {
        let parts = components((#[trigger] plan[i]).path@);
        parts.len() > 0 && parts.drop_last() == components(pin_path)
    } by {
        let name = if i < map_names().len() {
            encode_utf8(map_names()[i])
        } else {
            encode_utf8("links"@)
        };
        assert(plan[i].path@ == joined(pin_path, name));
        law_join_adds_component(pin_path, name);
        assert(components(pin_path).push(name).drop_last() =~= components(pin_path));
    }
    let digits = encode_utf8(decimal(ifindex as nat));
    law_link_name_reads_back(pin_path, ifindex);
    assert(components(links_below(pin_path)).push(digits).drop_last() =~= components(
        links_below(pin_path),
    ));
}

} // verus!
