//! What becomes of a packet on its way out.

use crate::control::Control;
use crate::table::{hit, Address, AddressPrefix, KernelMaps, Table};
use vstd::prelude::*;

verus! {

/// Drop the packet.
pub const TC_ACT_SHOT: i32 = 2;

/// Leave the packet to whatever comes next.
pub const TC_ACT_UNSPEC: i32 = -1;

/// EtherType of a VLAN tag (IEEE 802.1Q).
pub const ETHER_VLAN: u16 = 0x8100;

/// EtherType of an outer VLAN tag (IEEE 802.1ad).
pub const ETHER_QINQ: u16 = 0x88a8;

/// EtherType of IPv4.
pub const ETHER_IPV4: u16 = 0x0800;

/// EtherType of IPv6.
pub const ETHER_IPV6: u16 = 0x86dd;

/// The length of an Ethernet header, two VLAN tags and an IPv6 header: no decision needs more of
/// a frame.
pub const HEADER_BYTES: usize = 62;

/// The packet ends before a field that is needed.
#[derive(Clone, Copy, Debug, PartialEq, Eq, Structural)]
pub struct Truncated;

/// What is known of a packet before the tables are asked.
#[derive(Clone, Copy, Debug)]
pub enum Step {
    /// This is what becomes of the packet.
    Verdict(i32),
    /// The packet is dropped if the table covers the address: see [`verdict`].
    Lookup { table: Table, address: Address },
}

/// The two bytes at `at`, the more significant one first.
pub open spec fn be_u16(packet: Seq<u8>, at: int) -> Option<u16> {
    if 0 <= at && at + 2 <= packet.len() {
        Some((packet[at] * 256 + packet[at + 1]) as u16)
    } else {
        None
    }
}

/// Whether an EtherType stands for a VLAN tag.
pub open spec fn is_tag(ether_type: u16) -> bool {
    ether_type == ETHER_VLAN || ether_type == ETHER_QINQ
}

/// The EtherType behind at most `tags` VLAN tags and the place of what follows it, for a packet
/// whose first EtherType stands at `at`.
pub open spec fn payload(packet: Seq<u8>, at: int, tags: nat) -> Option<(u16, int)>
    decreases tags,
{
    match be_u16(packet, at) {
        None => None,
        Some(ether_type) => if tags > 0 && is_tag(ether_type) {
            payload(packet, at + 4, (tags - 1) as nat)
        } else {
            Some((ether_type, at + 2))
        },
    }
}

/// What a packet carries.
pub enum Contents {
    /// It ends too early to tell.
    Cut,
    /// Nothing that is filtered.
    Other,
    /// An IPv4 packet to the given address.
    V4(Seq<u8>),
    /// An IPv6 packet to the given address.
    V6(Seq<u8>),
}

/// What the IPv4 packet at `at` carries.
pub open spec fn ipv4_contents(packet: Seq<u8>, at: int) -> Contents {
    if packet.len() <= at {
        Contents::Cut
    } else if packet[at] / 16 != 4 || packet[at] % 16 < 5 {
        Contents::Other
    } else if packet.len() < at + 20 {
        Contents::Cut
    } else {
        Contents::V4(packet.subrange(at + 16, at + 20))
    }
}

/// What the IPv6 packet at `at` carries.
pub open spec fn ipv6_contents(packet: Seq<u8>, at: int) -> Contents {
    if packet.len() <= at {
        Contents::Cut
    } else if packet[at] / 16 != 6 {
        Contents::Other
    } else if packet.len() < at + 40 {
        Contents::Cut
    } else {
        Contents::V6(packet.subrange(at + 24, at + 40))
    }
}

/// What an Ethernet frame carries behind at most two VLAN tags.
pub open spec fn contents(packet: Seq<u8>) -> Contents {
    match payload(packet, 12, 2) {
        None => Contents::Cut,
        Some((ether_type, at)) => if ether_type == ETHER_IPV4 {
            ipv4_contents(packet, at)
        } else if ether_type == ETHER_IPV6 {
            ipv6_contents(packet, at)
        } else {
            Contents::Other
        },
    }
}

/// An address as it stands in a packet.
pub open spec fn destination(address: Address) -> Contents {
    match address {
        Address::V4(a) => Contents::V4(a@),
        Address::V6(a) => Contents::V6(a@),
    }
}

/// The slot that a control record points to; the first one without a record.
pub open spec fn slot_of(control: Option<Control>) -> u32 {
    match control {
        Some(c) => c.active_slot,
        None => 0,
    }
}

/// Whether `action` is what becomes of `packet` under the kernel maps `maps`: a packet to a
/// blocked address is dropped, any other is left alone.
pub open spec fn treated(packet: Seq<u8>, maps: KernelMaps, action: i32) -> bool {
    action == action_for(
        exists|a: Address| contents(packet) == #[trigger] destination(a) && maps.blocks(a),
    )
}

/// Whether `step` is what is known of `packet` under the control record `control`: a frame
/// that carries no sound IP packet is left alone, any other depends on whether its destination
/// is found in the active slot.
pub open spec fn step_for(packet: Seq<u8>, control: Option<Control>, step: Step) -> bool {
    match step {
        Step::Verdict(action) => action == TC_ACT_UNSPEC && (contents(packet) == Contents::Other
            || contents(packet) == Contents::Cut),
        Step::Lookup { table, address } => contents(packet) == destination(address) && table
            == address.table(slot_of(control)),
    }
}

/// What becomes of a packet whose destination was found or not.
pub open spec fn action_for(blocked: bool) -> i32 {
    if blocked {
        TC_ACT_SHOT
    } else {
        TC_ACT_UNSPEC
    }
}

/// Whether `packet` holds `n` bytes at `at`.
fn holds(packet: &[u8], at: usize, n: usize) -> (r: bool)
    ensures
        r == (at + n <= packet@.len()),
{
    at <= packet.len() && n <= packet.len() - at
}

/// The two bytes at `offset`, the more significant one first.
fn read_be_u16(packet: &[u8], offset: usize) -> (r: Result<u16, Truncated>)
    ensures
        match r {
            Ok(v) => be_u16(packet@, offset as int) == Some(v),
            Err(_) => be_u16(packet@, offset as int) is None,
        },
{
    if holds(packet, offset, 2) {
        Ok(packet[offset] as u16 * 256 + packet[offset + 1] as u16)
    } else {
        Err(Truncated)
    }
}

/// The address that the packet at `offset` is sent to, if it is a sound IPv4 packet.
fn ipv4_destination(packet: &[u8], offset: usize) -> (r: Result<Option<Address>, Truncated>)
    requires
        offset <= 22,
    ensures
        match r {
            Ok(Some(a)) => a is V4 && ipv4_contents(packet@, offset as int) == destination(a),
            Ok(None) => ipv4_contents(packet@, offset as int) == Contents::Other,
            Err(_) => ipv4_contents(packet@, offset as int) == Contents::Cut,
        },
{
    if !holds(packet, offset, 1) {
        return Err(Truncated);
    }
    let b: u8 = packet[offset];
    assert(b >> 4 == b / 16 && b & 0x0f == b % 16) by (bit_vector);
    if b >> 4 != 4 || b & 0x0f < 5 {
        return Ok(None);
    }
    let p: usize = offset + 16;
    if !holds(packet, p, 4) {
        return Err(Truncated);
    }
    let a: [u8; 4] = [packet[p], packet[p + 1], packet[p + 2], packet[p + 3]];
    assert(a@ =~= packet@.subrange(p as int, p + 4));
    Ok(Some(Address::V4(a)))
}

/// The address that the packet at `offset` is sent to, if it is a sound IPv6 packet.
fn ipv6_destination(packet: &[u8], offset: usize) -> (r: Result<Option<Address>, Truncated>)
    requires
        offset <= 22,
    ensures
        match r {
            Ok(Some(a)) => a is V6 && ipv6_contents(packet@, offset as int) == destination(a),
            Ok(None) => ipv6_contents(packet@, offset as int) == Contents::Other,
            Err(_) => ipv6_contents(packet@, offset as int) == Contents::Cut,
        },
{
    if !holds(packet, offset, 1) {
        return Err(Truncated);
    }
    let b: u8 = packet[offset];
    assert(b >> 4 == b / 16) by (bit_vector);
    if b >> 4 != 6 {
        return Ok(None);
    }
    let p: usize = offset + 24;
    if !holds(packet, p, 16) {
        return Err(Truncated);
    }
    let a: [u8; 16] = [
        packet[p],
        packet[p + 1],
        packet[p + 2],
        packet[p + 3],
        packet[p + 4],
        packet[p + 5],
        packet[p + 6],
        packet[p + 7],
        packet[p + 8],
        packet[p + 9],
        packet[p + 10],
        packet[p + 11],
        packet[p + 12],
        packet[p + 13],
        packet[p + 14],
        packet[p + 15],
    ];
    assert(a@ =~= packet@.subrange(p as int, p + 16));
    Ok(Some(Address::V6(a)))
}

/// A number of two bytes determines them.
proof fn lemma_be_u16(p: Seq<u8>, at: int, high: u8, low: u8)
    requires
        0 <= at,
    ensures
        be_u16(p, at) is Some <==> at + 2 <= p.len(),
        be_u16(p, at) == Some((high * 256 + low) as u16) <==> at + 2 <= p.len() && p[at] == high
            && p[at + 1] == low,
{
    if at + 2 <= p.len() {
        let (a, b) = (p[at], p[at + 1]);
        assert(0 <= a * 256 + b < 65536 && 0 <= high * 256 + low < 65536);
        assert(a * 256 + b == high * 256 + low ==> a == high && b == low) by {
            if a * 256 + b == high * 256 + low {
                assert((a * 256 + b) / 256 == a);
                assert((high * 256 + low) / 256 == high);
            }
        }
    }
}

/// How a frame is laid out. The IP header stands behind the EtherType at offset 12, or behind the
/// one or two VLAN tags there. A frame that ends before what is needed is cut. IPv4 takes version
/// 4 and a header of at least five words in the first byte, and the destination from the four
/// bytes at offset 16 of the header, in order. IPv6 takes version 6, and the destination from the
/// sixteen bytes at offset 24, in order.
pub proof fn law_frame_layout(p: Seq<u8>)
    ensures
        ({
            let tag = |at: int|
                p.len() >= at + 2 && ((p[at] == 0x81 && p[at + 1] == 0x00) || (p[at] == 0x88
                    && p[at + 1] == 0xa8));
            let at = if !tag(12) {
                14int
            } else if !tag(16) {
                18int
            } else {
                22int
            };
            let v4 = p.len() >= at && p[at - 2] == 0x08 && p[at - 1] == 0x00;
            let v6 = p.len() >= at && p[at - 2] == 0x86 && p[at - 1] == 0xdd;
            let v4_head = p[at] / 16 == 4 && p[at] % 16 >= 5;
            let v6_head = p[at] / 16 == 6;
            &&& (contents(p) is Cut <==> p.len() < at || (v4 && (p.len() == at || (v4_head
                && p.len() < at + 20))) || (v6 && (p.len() == at || (v6_head && p.len() < at
                + 40))))
            &&& (contents(p) is V4 <==> v4 && v4_head && p.len() >= at + 20)
            &&& (contents(p) is V6 <==> v6 && v6_head && p.len() >= at + 40)
            &&& (contents(p) matches Contents::V4(d) ==> d.len() == 4 && forall|i: int|
                0 <= i < 4 ==> #[trigger] d[i] == p[at + 16 + i])
            &&& (contents(p) matches Contents::V6(d) ==> d.len() == 16 && forall|i: int|
                0 <= i < 16 ==> #[trigger] d[i] == p[at + 24 + i])
        }),
{
    reveal_with_fuel(payload, 3);
    assert forall|at: int| 0 <= at implies {
        &&& (#[trigger] be_u16(p, at) is Some <==> at + 2 <= p.len())
        &&& (be_u16(p, at) == Some(ETHER_VLAN) <==> at + 2 <= p.len() && p[at] == 0x81 && p[at + 1]
            == 0x00)
        &&& (be_u16(p, at) == Some(ETHER_QINQ) <==> at + 2 <= p.len() && p[at] == 0x88 && p[at + 1]
            == 0xa8)
        &&& (be_u16(p, at) == Some(ETHER_IPV4) <==> at + 2 <= p.len() && p[at] == 0x08 && p[at + 1]
            == 0x00)
        &&& (be_u16(p, at) == Some(ETHER_IPV6) <==> at + 2 <= p.len() && p[at] == 0x86 && p[at + 1]
            == 0xdd)
    } by {
        lemma_be_u16(p, at, 0x81, 0x00);
        lemma_be_u16(p, at, 0x88, 0xa8);
        lemma_be_u16(p, at, 0x08, 0x00);
        lemma_be_u16(p, at, 0x86, 0xdd);
    }
    assert(be_u16(p, 12) is Some || be_u16(p, 12) is None);
    assert(be_u16(p, 16) is Some || be_u16(p, 16) is None);
    assert(be_u16(p, 20) is Some || be_u16(p, 20) is None);
}

/// The address whose being blocked decides about an Ethernet frame, if there is one.
pub fn try_cidrwall(packet: &[u8]) -> (r: Result<Option<Address>, Truncated>)
    ensures
        match r {
            Ok(Some(a)) => contents(packet@) == destination(a),
            Ok(None) => contents(packet@) == Contents::Other,
            Err(_) => contents(packet@) == Contents::Cut,
        },
        // The IP header stands behind the first two VLAN tags, if there are any. Its first byte
        // and the bytes of the destination decide.
        ({
            let p = packet@;
            let tag = |at: int|
                p.len() >= at + 2 && ((p[at] == 0x81 && p[at + 1] == 0x00) || (p[at] == 0x88
                    && p[at + 1] == 0xa8));
            let at = if !tag(12) {
                14int
            } else if !tag(16) {
                18int
            } else {
                22int
            };
            let v4 = p.len() >= at && p[at - 2] == 0x08 && p[at - 1] == 0x00;
            let v6 = p.len() >= at && p[at - 2] == 0x86 && p[at - 1] == 0xdd;
            let v4_head = p[at] / 16 == 4 && p[at] % 16 >= 5;
            let v6_head = p[at] / 16 == 6;
            &&& (r is Err <==> p.len() < at || (v4 && (p.len() == at || (v4_head && p.len() < at
                + 20))) || (v6 && (p.len() == at || (v6_head && p.len() < at + 40))))
            &&& (v4 && v4_head && p.len() >= at + 20 <==> (r matches Ok(Some(Address::V4(_)))))
            &&& (v6 && v6_head && p.len() >= at + 40 <==> (r matches Ok(Some(Address::V6(_)))))
            &&& (r matches Ok(Some(Address::V4(a))) ==> forall|i: int|
                0 <= i < 4 ==> #[trigger] a@[i] == p[at + 16 + i])
            &&& (r matches Ok(Some(Address::V6(a))) ==> forall|i: int|
                0 <= i < 16 ==> #[trigger] a@[i] == p[at + 24 + i])
        }),
{
    proof {
        law_frame_layout(packet@);
    }
    let mut at: usize = 12;
    let mut ether_type: u16 = match read_be_u16(packet, 12) {
        Ok(t) => t,
        Err(e) => {
            return Err(e);
        },
    };
    let mut tags: u8 = 2;
    while tags > 0 && (ether_type == ETHER_VLAN || ether_type == ETHER_QINQ)
        invariant
            tags <= 2,
            at == 12 + 4 * (2 - tags),
            be_u16(packet@, at as int) == Some(ether_type),
            payload(packet@, 12, 2) == payload(packet@, at as int, tags as nat),
        decreases tags,
    {
        ether_type = match read_be_u16(packet, at + 4) {
            Ok(t) => t,
            Err(e) => {
                assert(payload(packet@, at + 4, (tags - 1) as nat) is None);
                return Err(e);
            },
        };
        at = at + 4;
        tags = tags - 1;
    }
    assert(payload(packet@, 12, 2) == Some((ether_type, at + 2)));
    if ether_type == ETHER_IPV4 {
        ipv4_destination(packet, at + 2)
    } else if ether_type == ETHER_IPV6 {
        ipv6_destination(packet, at + 2)
    } else {
        Ok(None)
    }
}

/// What becomes of an Ethernet frame under the control record `control`, as far as the tables
/// need not be asked for it.
pub fn cidrwall_tc(packet: &[u8], control: Option<Control>) -> (r: Step)
    ensures
        step_for(packet@, control, r),
        match r {
            Step::Verdict(action) => action == -1,
            Step::Lookup { table, address: Address::V4(_) } => table == if control is None
                || control->0.active_slot == 0 {
                Table::Ipv4A
            } else {
                Table::Ipv4B
            },
            Step::Lookup { table, address: Address::V6(_) } => table == if control is None
                || control->0.active_slot == 0 {
                Table::Ipv6A
            } else {
                Table::Ipv6B
            },
        },
        ({
            let p = packet@;
            let tag = |at: int|
                p.len() >= at + 2 && ((p[at] == 0x81 && p[at + 1] == 0x00) || (p[at] == 0x88
                    && p[at + 1] == 0xa8));
            let at = if !tag(12) {
                14int
            } else if !tag(16) {
                18int
            } else {
                22int
            };
            &&& (p.len() >= at + 20 && p[at - 2] == 0x08 && p[at - 1] == 0x00 && p[at] / 16 == 4
                && p[at] % 16 >= 5 <==> (r matches Step::Lookup { address: Address::V4(_), .. }))
            &&& (p.len() >= at + 40 && p[at - 2] == 0x86 && p[at - 1] == 0xdd && p[at] / 16 == 6
                <==> (r matches Step::Lookup { address: Address::V6(_), .. }))
            &&& (r matches Step::Lookup { address: Address::V4(a), .. } ==> forall|i: int|
                0 <= i < 4 ==> #[trigger] a@[i] == p[at + 16 + i])
            &&& (r matches Step::Lookup { address: Address::V6(a), .. } ==> forall|i: int|
                0 <= i < 16 ==> #[trigger] a@[i] == p[at + 24 + i])
        }),
{
    proof {
        law_frame_layout(packet@);
    }
    let slot: u32 = match control {
        Some(c) => c.active_slot,
        None => 0,
    };
    match try_cidrwall(packet) {
        Ok(Some(address)) => Step::Lookup { table: address.table_in(slot), address },
        Ok(None) => Step::Verdict(TC_ACT_UNSPEC),
        Err(_) => Step::Verdict(TC_ACT_UNSPEC),
    }
}

/// What becomes of a packet whose destination was looked up.
pub fn verdict(blocked: bool) -> (action: i32)
    ensures
        action == action_for(blocked),
        action == if blocked {
            2i32
        } else {
            -1i32
        },
{
    if blocked {
        TC_ACT_SHOT
    } else {
        TC_ACT_UNSPEC
    }
}

/// A frame with a VLAN tag put in front of its EtherType.
pub open spec fn tagged(frame: Seq<u8>, tag: u16, info: u16) -> Seq<u8> {
    frame.take(12) + seq![
        (tag / 256) as u8,
        (tag % 256) as u8,
        (info / 256) as u8,
        (info % 256) as u8,
    ] + frame.skip(12)
}

/// What stands behind a tag moves by its length.
proof fn lemma_tagged(frame: Seq<u8>, tag: u16, info: u16)
    requires
        frame.len() >= 12,
    ensures
        tagged(frame, tag, info).len() == frame.len() + 4,
        be_u16(tagged(frame, tag, info), 12) == Some(tag),
        forall|at: int|
            at >= 16 ==> #[trigger] be_u16(tagged(frame, tag, info), at) == be_u16(frame, at - 4),
        forall|i: int| 12 <= i < frame.len() ==> tagged(frame, tag, info)[i + 4] == #[trigger] frame[i],
{
    let t = tagged(frame, tag, info);
    assert(t[12] == (tag / 256) as u8 && t[13] == (tag % 256) as u8);
    assert forall|i: int| 12 <= i < frame.len() implies t[i + 4] == #[trigger] frame[i] by {}
    assert forall|at: int| at >= 16 implies #[trigger] be_u16(t, at) == be_u16(frame, at - 4) by {
        if at + 2 <= t.len() {
            assert(t[at] == frame[at - 4] && t[at + 1] == frame[at - 3]);
        }
    }
}

/// What a packet carries does not depend on where it stands.
proof fn lemma_shifted_contents(frame: Seq<u8>, t: Seq<u8>, at: int, shift: int)
    requires
        at - shift >= 12,
        shift >= 0,
        t.len() == frame.len() + shift,
        forall|i: int| 12 <= i < frame.len() ==> t[i + shift] == #[trigger] frame[i],
    ensures
        ipv4_contents(t, at) == ipv4_contents(frame, at - shift),
        ipv6_contents(t, at) == ipv6_contents(frame, at - shift),
{
    let from = at - shift;
    if from < frame.len() {
        assert(t[from + shift] == frame[from]);
    }
    if from + 20 <= frame.len() {
        lemma_shifted_range(frame, t, at + 16, 4, shift);
    }
    if from + 40 <= frame.len() {
        lemma_shifted_range(frame, t, at + 24, 16, shift);
    }
}

/// The bytes of `t` behind a shift are those of `frame`.
proof fn lemma_shifted_range(frame: Seq<u8>, t: Seq<u8>, at: int, n: int, shift: int)
    requires
        at - shift >= 12,
        shift >= 0,
        n >= 0,
        at + n <= t.len(),
        t.len() == frame.len() + shift,
        forall|i: int| 12 <= i < frame.len() ==> t[i + shift] == #[trigger] frame[i],
    ensures
        t.subrange(at, at + n) == frame.subrange(at - shift, at - shift + n),
{
    let (a, b) = (t.subrange(at, at + n), frame.subrange(at - shift, at - shift + n));
    assert forall|i: int| 0 <= i < n implies #[trigger] a[i] == b[i] by {
        assert(t[at - shift + i + shift] == frame[at - shift + i]);
    }
    assert(a =~= b);
}

/// One or two VLAN tags make no difference to what a frame carries.
pub proof fn law_two_tags_make_no_difference(
    frame: Seq<u8>,
    inner: u16,
    inner_info: u16,
    outer: u16,
    outer_info: u16,
)
    requires
        frame.len() >= 12,
        be_u16(frame, 12) matches Some(ether_type) ==> !is_tag(ether_type),
        is_tag(inner),
        is_tag(outer),
    ensures
        contents(tagged(frame, inner, inner_info)) == contents(frame),
        contents(tagged(tagged(frame, inner, inner_info), outer, outer_info)) == contents(frame),
{
    let one = tagged(frame, inner, inner_info);
    let two = tagged(one, outer, outer_info);
    reveal_with_fuel(payload, 3);
    lemma_tagged(frame, inner, inner_info);
    lemma_tagged(one, outer, outer_info);
    assert(be_u16(one, 16) == be_u16(frame, 12));
    assert(be_u16(two, 16) == be_u16(one, 12));
    assert(be_u16(two, 20) == be_u16(one, 16));
    lemma_shifted_contents(frame, one, 18, 4);
    assert forall|i: int| 12 <= i < frame.len() implies two[i + 8] == #[trigger] frame[i] by {
        assert(one[i + 4] == frame[i]);
        assert(two[i + 4 + 4] == one[i + 4]);
    }
    lemma_shifted_contents(frame, two, 22, 8);
}

/// A frame with three VLAN tags is not looked into.
pub proof fn law_three_tags_are_not_filtered(
    frame: Seq<u8>,
    tags: (u16, u16, u16),
    infos: (u16, u16, u16),
)
    requires
        frame.len() >= 12,
        is_tag(tags.0),
        is_tag(tags.1),
        is_tag(tags.2),
    ensures
        contents(
            tagged(tagged(tagged(frame, tags.0, infos.0), tags.1, infos.1), tags.2, infos.2),
        ) == Contents::Other,
{
    let one = tagged(frame, tags.0, infos.0);
    let two = tagged(one, tags.1, infos.1);
    let three = tagged(two, tags.2, infos.2);
    reveal_with_fuel(payload, 3);
    lemma_tagged(frame, tags.0, infos.0);
    lemma_tagged(one, tags.1, infos.1);
    lemma_tagged(two, tags.2, infos.2);
    assert(be_u16(three, 16) == be_u16(two, 12));
    assert(be_u16(two, 16) == be_u16(one, 12));
    assert(be_u16(three, 20) == be_u16(two, 16));
}

/// Of frames of one length, only the tags, the first byte of the IP header and the destination
/// count.
pub proof fn law_other_fields_do_not_count(a: Seq<u8>, b: Seq<u8>)
    requires
        a.len() == b.len(),
        payload(a, 12, 2) == payload(b, 12, 2),
        payload(a, 12, 2) matches Some((ether_type, at)) ==> {
            &&& at < a.len() ==> a[at] == b[at]
            &&& ether_type == ETHER_IPV4 && at + 20 <= a.len() ==> a.subrange(at + 16, at + 20)
                == b.subrange(at + 16, at + 20)
            &&& ether_type == ETHER_IPV6 && at + 40 <= a.len() ==> a.subrange(at + 24, at + 40)
                == b.subrange(at + 24, at + 40)
        },
    ensures
        contents(a) == contents(b),
{
}

/// Bytes behind the headers have no part in what becomes of a frame.
pub proof fn law_headers_suffice(packet: Seq<u8>)
    requires
        packet.len() > HEADER_BYTES,
    ensures
        contents(packet.take(HEADER_BYTES as int)) == contents(packet),
{
    let head = packet.take(HEADER_BYTES as int);
    reveal_with_fuel(payload, 3);
    assert forall|at: int| 0 <= at <= 20 implies #[trigger] be_u16(head, at) == be_u16(packet, at) by {}
    assert(payload(head, 12, 2) == payload(packet, 12, 2));
    if let Some((_, at)) = payload(packet, 12, 2) {
        assert(at <= 22);
        assert(head.subrange(at + 16, at + 20) =~= packet.subrange(at + 16, at + 20));
        assert(head.subrange(at + 24, at + 40) =~= packet.subrange(at + 24, at + 40));
    }
}

/// The address in a packet determines what covers it.
proof fn lemma_same_destination(maps: KernelMaps, a: Address, b: Address)
    requires
        destination(a) == destination(b),
    ensures
        maps.blocks(a) == maps.blocks(b),
{
    assert forall|p: AddressPrefix| p.covers(a) == p.covers(b) by {}
    let entries = maps.entries[a.table(maps.control.active_slot)];
    assert(maps.entries[b.table(maps.control.active_slot)] == entries);
    if hit(entries, a) {
        let p = choose|p: AddressPrefix| entries.contains(p) && #[trigger] p.covers(a);
        assert(p.covers(b));
    }
    if hit(entries, b) {
        let p = choose|p: AddressPrefix| entries.contains(p) && #[trigger] p.covers(b);
        assert(p.covers(a));
    }
}

/// A frame that is looked up as [`cidrwall_tc`] says, and then treated as [`verdict`] says, is
/// dropped if and only if it carries an IP packet to a blocked address.
pub proof fn law_blocked_destinations_are_dropped(packet: Seq<u8>, maps: KernelMaps, step: Step)
    requires
        step_for(packet, Some(maps.control), step),
    ensures
        match step {
            Step::Verdict(action) => treated(packet, maps, action),
            Step::Lookup { table, address } => treated(
                packet,
                maps,
                action_for(hit(maps.entries[table], address)),
            ),
        },
{
    match step {
        Step::Verdict(_) => {
            assert forall|a: Address| contents(packet) != #[trigger] destination(a) by {}
        },
        Step::Lookup { table, address } => {
            if exists|a: Address|
                contents(packet) == #[trigger] destination(a) && maps.blocks(a) {
                let a = choose|a: Address|
                    contents(packet) == #[trigger] destination(a) && maps.blocks(a);
                lemma_same_destination(maps, a, address);
            }
        },
    }
}

} // verus!
