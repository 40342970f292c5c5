//! The kernel maps of the TC backend and what they hold.

use crate::config::Tc;
use crate::control::Control;
use vstd::arithmetic::power2::pow2;
use vstd::prelude::*;

verus! {

/// The map that holds the control record.
pub const CONTROL: &'static str = "CONTROL";

/// The tries that hold address prefixes: one for each slot and address family.
#[derive(Clone, Copy, Debug, PartialEq, Eq, Structural)]
pub enum Table {
    Ipv4A,
    Ipv4B,
    Ipv6A,
    Ipv6B,
}

/// A range of addresses: those that share their first `prefix_len` bits with `address`.
#[derive(Clone, Copy, Debug)]
#[allow(inconsistent_fields)]
pub enum AddressPrefix {
    V4 { address: [u8; 4], prefix_len: u8 },
    V6 { address: [u8; 16], prefix_len: u8 },
}

/// An address.
#[derive(Clone, Copy, Debug)]
pub enum Address {
    V4([u8; 4]),
    V6([u8; 16]),
}

impl Table {
    /// The table for IPv4 prefixes of `slot`.
    pub open spec fn v4(slot: u32) -> Table {
        if slot == 0 {
            Table::Ipv4A
        } else {
            Table::Ipv4B
        }
    }

    /// The table for IPv6 prefixes of `slot`.
    pub open spec fn v6(slot: u32) -> Table {
        if slot == 0 {
            Table::Ipv6A
        } else {
            Table::Ipv6B
        }
    }

    /// Whether the table belongs to `slot`.
    pub open spec fn in_slot(self, slot: u32) -> bool {
        self == Table::v4(slot) || self == Table::v6(slot)
    }

    /// The table for IPv4 prefixes of `slot`.
    pub fn for_v4(slot: u32) -> (t: Table)
        ensures
            t == Table::v4(slot),
            t == if slot == 0 {
                Table::Ipv4A
            } else {
                Table::Ipv4B
            },
    {
        if slot == 0 {
            Table::Ipv4A
        } else {
            Table::Ipv4B
        }
    }

    /// The table for IPv6 prefixes of `slot`.
    pub fn for_v6(slot: u32) -> (t: Table)
        ensures
            t == Table::v6(slot),
            t == if slot == 0 {
                Table::Ipv6A
            } else {
                Table::Ipv6B
            },
    {
        if slot == 0 {
            Table::Ipv6A
        } else {
            Table::Ipv6B
        }
    }

    /// How many prefixes the table has room for.
    pub open spec fn room(self, tc: Tc) -> u32 {
        if self == Table::Ipv4A || self == Table::Ipv4B {
            tc.ipv4_max_entries
        } else {
            tc.ipv6_max_entries
        }
    }

    /// How many prefixes the table has room for.
    pub fn capacity(self, tc: &Tc) -> (n: u32)
        ensures
            n == self.room(*tc),
            self == Table::Ipv4A || self == Table::Ipv4B ==> n == tc.ipv4_max_entries,
            self == Table::Ipv6A || self == Table::Ipv6B ==> n == tc.ipv6_max_entries,
    {
        match self {
            Table::Ipv4A | Table::Ipv4B => tc.ipv4_max_entries,
            Table::Ipv6A | Table::Ipv6B => tc.ipv6_max_entries,
        }
    }

    /// The name of the map.
    pub open spec fn text(self) -> Seq<char> {
        match self {
            Table::Ipv4A => "IPV4_A"@,
            Table::Ipv4B => "IPV4_B"@,
            Table::Ipv6A => "IPV6_A"@,
            Table::Ipv6B => "IPV6_B"@,
        }
    }

    /// The name of the map.
    pub fn name(self) -> (s: &'static str)
        ensures
            s@ == self.text(),
            self == Table::Ipv4A ==> s@ == "IPV4_A"@,
            self == Table::Ipv4B ==> s@ == "IPV4_B"@,
            self == Table::Ipv6A ==> s@ == "IPV6_A"@,
            self == Table::Ipv6B ==> s@ == "IPV6_B"@,
    {
        match self {
            Table::Ipv4A => "IPV4_A",
            Table::Ipv4B => "IPV4_B",
            Table::Ipv6A => "IPV6_A",
            Table::Ipv6B => "IPV6_B",
        }
    }
}

/// Bit `i` of a sequence of bytes, the most significant bit of each byte first.
pub open spec fn bit(bytes: Seq<u8>, i: int) -> bool {
    (bytes[i / 8] as nat / pow2((7 - i % 8) as nat)) % 2 == 1
}

/// Whether `a` and `b` share their first `n` bits.
pub open spec fn share_bits(a: Seq<u8>, b: Seq<u8>, n: int) -> bool {
    forall|i: int| 0 <= i < n ==> bit(a, i) == #[trigger] bit(b, i)
}

impl AddressPrefix {
    /// The table of `slot` that holds the prefix.
    pub open spec fn table(self, slot: u32) -> Table {
        match self {
            AddressPrefix::V4 { .. } => Table::v4(slot),
            AddressPrefix::V6 { .. } => Table::v6(slot),
        }
    }

    /// The table of `slot` that holds the prefix.
    pub fn table_in(&self, slot: u32) -> (t: Table)
        ensures
            t == self.table(slot),
            *self is V4 ==> t == if slot == 0 {
                Table::Ipv4A
            } else {
                Table::Ipv4B
            },
            *self is V6 ==> t == if slot == 0 {
                Table::Ipv6A
            } else {
                Table::Ipv6B
            },
    {
        match self {
            AddressPrefix::V4 { .. } => Table::for_v4(slot),
            AddressPrefix::V6 { .. } => Table::for_v6(slot),
        }
    }

    /// Whether the prefix is an IPv4 prefix.
    pub open spec fn is_v4(self) -> bool {
        self is V4
    }

    /// Whether `address` lies in the range.
    pub open spec fn covers(self, address: Address) -> bool {
        match (self, address) {
            (AddressPrefix::V4 { address: a, prefix_len }, Address::V4(b)) => share_bits(
                a@,
                b@,
                prefix_len as int,
            ),
            (AddressPrefix::V6 { address: a, prefix_len }, Address::V6(b)) => share_bits(
                a@,
                b@,
                prefix_len as int,
            ),
            _ => false,
        }
    }
}

impl Address {
    /// The table of `slot` in which the address is looked up.
    pub open spec fn table(self, slot: u32) -> Table {
        match self {
            Address::V4(_) => Table::v4(slot),
            Address::V6(_) => Table::v6(slot),
        }
    }

    /// The table of `slot` in which the address is looked up.
    pub fn table_in(&self, slot: u32) -> (t: Table)
        ensures
            t == self.table(slot),
            *self is V4 ==> t == if slot == 0 {
                Table::Ipv4A
            } else {
                Table::Ipv4B
            },
            *self is V6 ==> t == if slot == 0 {
                Table::Ipv6A
            } else {
                Table::Ipv6B
            },
    {
        match self {
            Address::V4(_) => Table::for_v4(slot),
            Address::V6(_) => Table::for_v6(slot),
        }
    }
}

/// The state of the kernel maps.
pub struct KernelMaps {
    pub control: Control,
    pub entries: Map<Table, Set<AddressPrefix>>,
}

/// Whether a range in `entries` covers `address`: what a lookup in a trie reports.
pub open spec fn hit(entries: Set<AddressPrefix>, address: Address) -> bool {
    exists|p: AddressPrefix| entries.contains(p) && #[trigger] p.covers(address)
}

impl KernelMaps {
    /// Whether `address` is blocked: a range in the active slot covers it.
    pub open spec fn blocks(self, address: Address) -> bool {
        hit(self.entries[address.table(self.control.active_slot)], address)
    }
}

/// Different slots have different tables, and a prefix stands in the table in which the
/// addresses that it covers are looked up.
pub proof fn law_slots_are_apart(a: u32, b: u32, p: AddressPrefix, address: Address)
    requires
        a < crate::control::SLOT_COUNT,
        b < crate::control::SLOT_COUNT,
    ensures
        a != b ==> (forall|t: Table| !(t.in_slot(a) && t.in_slot(b))),
        p.covers(address) ==> p.table(a) == address.table(a),
{
}

/// Bytes whose bits are the same are the same.
proof fn lemma_byte_bits(a: Seq<u8>, b: Seq<u8>, k: int)
    requires
        0 <= k < a.len(),
        k < b.len(),
    ensures
        (forall|i: int| 8 * k <= i < 8 * k + 8 ==> bit(a, i) == #[trigger] bit(b, i)) <==> a[k]
            == b[k],
{
    vstd::arithmetic::power2::lemma2_to64();
    let (x, y) = (a[k], b[k]);
    assert forall|j: int| 0 <= j < 8 implies (8 * k + j) / 8 == k && #[trigger] ((8 * k + j) % 8)
        == j by {}
    assert(bit(a, 8 * k) == ((x / 128) % 2 == 1) && bit(b, 8 * k) == ((y / 128) % 2 == 1));
    assert(bit(a, 8 * k + 1) == ((x / 64) % 2 == 1) && bit(b, 8 * k + 1) == ((y / 64) % 2 == 1));
    assert(bit(a, 8 * k + 2) == ((x / 32) % 2 == 1) && bit(b, 8 * k + 2) == ((y / 32) % 2 == 1));
    assert(bit(a, 8 * k + 3) == ((x / 16) % 2 == 1) && bit(b, 8 * k + 3) == ((y / 16) % 2 == 1));
    assert(bit(a, 8 * k + 4) == ((x / 8) % 2 == 1) && bit(b, 8 * k + 4) == ((y / 8) % 2 == 1));
    assert(bit(a, 8 * k + 5) == ((x / 4) % 2 == 1) && bit(b, 8 * k + 5) == ((y / 4) % 2 == 1));
    assert(bit(a, 8 * k + 6) == ((x / 2) % 2 == 1) && bit(b, 8 * k + 6) == ((y / 2) % 2 == 1));
    assert(bit(a, 8 * k + 7) == ((x / 1) % 2 == 1) && bit(b, 8 * k + 7) == ((y / 1) % 2 == 1));
    assert(((x / 128) % 2 == 1) == ((y / 128) % 2 == 1) && ((x / 64) % 2 == 1) == ((y / 64) % 2
        == 1) && ((x / 32) % 2 == 1) == ((y / 32) % 2 == 1) && ((x / 16) % 2 == 1) == ((y / 16) % 2
        == 1) && ((x / 8) % 2 == 1) == ((y / 8) % 2 == 1) && ((x / 4) % 2 == 1) == ((y / 4) % 2 == 1)
        && ((x / 2) % 2 == 1) == ((y / 2) % 2 == 1) && ((x / 1) % 2 == 1) == ((y / 1) % 2 == 1)
        ==> x == y) by (bit_vector);
}

/// Whole bytes of a prefix are shared if and only if they are the same.
proof fn lemma_whole_bytes(a: Seq<u8>, b: Seq<u8>, k: int)
    requires
        0 <= k <= a.len(),
        k <= b.len(),
    ensures
        share_bits(a, b, 8 * k) <==> (forall|i: int| 0 <= i < k ==> a[i] == b[i]),
    decreases k,
{
    if k > 0 {
        lemma_whole_bytes(a, b, k - 1);
        lemma_byte_bits(a, b, k - 1);
    }
}

/// A prefix of whole bytes covers exactly the addresses of its family that begin with these
/// bytes: with no bits all of them, with all bits the address alone. A longer prefix of an address
/// covers no more.
pub proof fn law_prefixes_cover_what_begins_alike(
    p: [u8; 4],
    q: [u8; 16],
    a: [u8; 4],
    b: [u8; 16],
    bytes: u8,
    shorter: u8,
    longer: u8,
)
    requires
        bytes <= 16,
        shorter <= longer,
    ensures
        bytes <= 4 ==> ((AddressPrefix::V4 { address: p, prefix_len: (8 * bytes) as u8 }).covers(
            Address::V4(a),
        ) <==> (forall|i: int| 0 <= i < bytes ==> p@[i] == a@[i])),
        (AddressPrefix::V6 { address: q, prefix_len: (8 * bytes) as u8 }).covers(Address::V6(b))
            <==> (forall|i: int| 0 <= i < bytes ==> q@[i] == b@[i]),
        !(AddressPrefix::V4 { address: p, prefix_len: shorter }).covers(Address::V6(b)),
        !(AddressPrefix::V6 { address: q, prefix_len: shorter }).covers(Address::V4(a)),
        (AddressPrefix::V4 { address: p, prefix_len: longer }).covers(Address::V4(a)) ==> (
        AddressPrefix::V4 { address: p, prefix_len: shorter }).covers(Address::V4(a)),
        (AddressPrefix::V6 { address: q, prefix_len: longer }).covers(Address::V6(b)) ==> (
        AddressPrefix::V6 { address: q, prefix_len: shorter }).covers(Address::V6(b)),
{
    if bytes <= 4 {
        lemma_whole_bytes(p@, a@, bytes as int);
    }
    lemma_whole_bytes(q@, b@, bytes as int);
}

} // verus!
