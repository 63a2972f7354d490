//! Address ranges and the units they are probed in.
//!
//! A range is written as an address, or as an address, a slash and a prefix
//! length. The addresses of a range are counted as plain numbers: those of
//! IPv4 below two to the power 32, those of IPv6 below two to the power 128.

use vstd::prelude::*;
use vstd::arithmetic::power2::{
    lemma2_to64, lemma_pow2_adds, lemma_pow2_pos, lemma_pow2_strictly_increases,
    lemma_pow2_unfold, pow2,
};
use crate::address::{ip_value, parse_ip};
use crate::host::IpAddress;
use crate::text::{bounded_decimal, chars_of, find_last, last_index_of, parse_decimal};

verus! {

/// The two kinds of IP address.
#[derive(Clone, Copy, Debug, PartialEq, Eq, Structural)]
pub enum AddressFamily {
    V4,
    V6,
}

impl AddressFamily {
    /// How many bits an address of the family has.
    pub open spec fn bits(self) -> nat {
        match self {
            AddressFamily::V4 => 32,
            AddressFamily::V6 => 128,
        }
    }

    /// The greatest address of the family, as a number.
    pub open spec fn greatest(self) -> nat {
        match self {
            AddressFamily::V4 => 0xffff_ffff,
            AddressFamily::V6 => 0xffff_ffff_ffff_ffff_ffff_ffff_ffff_ffff,
        }
    }

    /// The address of the family that the number `n` stands for.
    pub open spec fn address(self, n: nat) -> IpAddress {
        match self {
            AddressFamily::V4 => IpAddress::V4(n as u32),
            AddressFamily::V6 => IpAddress::V6(n as u128),
        }
    }
}

impl IpAddress {
    /// The family of the address.
    pub open spec fn family(self) -> AddressFamily {
        match self {
            IpAddress::V4(_) => AddressFamily::V4,
            IpAddress::V6(_) => AddressFamily::V6,
        }
    }

    /// The address as a number.
    pub open spec fn number(self) -> nat {
        match self {
            IpAddress::V4(v) => v as nat,
            IpAddress::V6(v) => v as nat,
        }
    }
}

/// The greatest address of a family is one less than two to the power of
/// its bits.
pub proof fn lemma_family_span(family: AddressFamily)
    ensures
        family.greatest() + 1 == pow2(family.bits()),
{
    lemma2_to64();
    lemma_pow2_adds(64, 64);
}

/// A run of addresses of one family, from `first` to `last`, both included.
pub struct RangeView {
    pub family: AddressFamily,
    pub first: nat,
    pub last: nat,
}

impl RangeView {
    /// A range is never empty and stays within its family.
    pub open spec fn wf(self) -> bool {
        self.first <= self.last <= self.family.greatest()
    }

    /// Whether the address with the number `n` lies in the range.
    pub open spec fn holds(self, n: nat) -> bool {
        self.first <= n <= self.last
    }

    /// The number of the last unit when the range is cut into units of
    /// `unit` addresses; the units are numbered from zero.
    pub open spec fn last_unit(self, unit: nat) -> nat {
        (self.last - self.first) as nat / unit
    }

    /// The first address of unit number `index`.
    pub open spec fn unit_first(self, unit: nat, index: nat) -> nat {
        self.first + index * unit
    }

    /// The last address of unit number `index`: the unit is cut short where
    /// the range ends.
    pub open spec fn unit_last(self, unit: nat, index: nat) -> nat {
        if self.first + index * unit + unit - 1 <= self.last {
            (self.first + index * unit + unit - 1) as nat
        } else {
            self.last
        }
    }
}

/// Unit number `index` of `range` cut into units of `unit` addresses.
pub open spec fn segment_of(range: RangeView, unit: nat, index: nat) -> Segment {
    Segment {
        index: index as u128,
        first: range.family.address(range.unit_first(unit, index)),
        last: range.family.address(range.unit_last(unit, index)),
    }
}

/// The range that an address and a prefix length stand for: the addresses
/// that agree with `address` in their first `prefix_len` bits.
pub open spec fn cidr_range(address: IpAddress, prefix_len: nat) -> Option<RangeView> {
    let family = address.family();
    if prefix_len <= family.bits() {
        let span = pow2((family.bits() - prefix_len) as nat);
        let first = (address.number() - address.number() % span) as nat;
        Some(RangeView { family, first, last: (first + span - 1) as nat })
    } else {
        None
    }
}

/// A range given by prefix is never empty, holds its address, and stays
/// within its family.
pub proof fn lemma_cidr_range(address: IpAddress, prefix_len: nat)
    requires
        prefix_len <= address.family().bits(),
    ensures
        cidr_range(address, prefix_len)->0.wf(),
        cidr_range(address, prefix_len)->0.holds(address.number()),
{
    let family = address.family();
    let host_bits = (family.bits() - prefix_len) as nat;
    let span = pow2(host_bits) as int;
    let blocks = pow2(prefix_len) as int;
    let a = address.number() as int;
    lemma_family_span(family);
    lemma_pow2_adds(host_bits, prefix_len);
    lemma_pow2_pos(host_bits);
    lemma_pow2_pos(prefix_len);
    assert(span * blocks == family.greatest() + 1);
    let q = a / span;
    let r = a % span;
    assert(a == span * q + r && 0 <= r < span) by (nonlinear_arith)
        requires
            span > 0,
            q == a / span,
            r == a % span,
    ;
    assert(q < blocks) by (nonlinear_arith)
        requires
            span > 0,
            span * q <= a,
            a < span * blocks,
    ;
    assert(span * q + span <= span * blocks) by (nonlinear_arith)
        requires
            span > 0,
            q + 1 <= blocks,
    ;
}

/// The range that `s` spells: an address alone stands for itself; an
/// address, a slash and a decimal prefix length stand for the addresses
/// with that prefix.
pub open spec fn range_value(s: Seq<char>) -> Option<RangeView> {
    match last_index_of(s, '/') {
        None => match ip_value(s) {
            Some(address) => Some(
                RangeView {
                    family: address.family(),
                    first: address.number(),
                    last: address.number(),
                },
            ),
            None => None,
        },
        Some(i) => match (ip_value(s.take(i)), bounded_decimal(s.skip(i + 1), 128)) {
            (Some(address), Some(prefix_len)) => cidr_range(address, prefix_len),
            _ => None,
        },
    }
}

/// A range of addresses to scan.
#[derive(Clone, Copy, Debug, PartialEq, Eq)]
pub struct AddressRange {
    family: AddressFamily,
    first: u128,
    last: u128,
}

/// A unit of a range: the addresses from `first` to `last`, both included.
#[derive(Clone, Copy, Debug, PartialEq, Eq, Structural)]
pub struct Segment {
    /// The number of the unit within its range, counted from zero.
    pub index: u128,
    pub first: IpAddress,
    pub last: IpAddress,
}

impl View for AddressRange {
    type V = RangeView;

    closed spec fn view(&self) -> RangeView {
        RangeView { family: self.family, first: self.first as nat, last: self.last as nat }
    }
}

/// Two to the power `bits`, less one.
fn low_mask(bits: u8) -> (mask: u128)
    requires
        bits <= 128,
    ensures
        mask == pow2(bits as nat) - 1,
{
    let mut mask: u128 = 0;
    let mut k: u8 = 0;
    proof {
        lemma2_to64();
    }
    while k < bits
        invariant
            k <= bits <= 128,
            mask == pow2(k as nat) - 1,
        decreases bits - k,
    {
        proof {
            lemma_pow2_unfold((k + 1) as nat);
            lemma2_to64();
            lemma_pow2_adds(64, 64);
            if k + 1 < 128 {
                lemma_pow2_strictly_increases((k + 1) as nat, 128);
            }
        }
        mask = mask * 2 + 1;
        k += 1;
    }
    mask
}

impl AddressRange {
    /// The invariant of a range: it is never empty and stays within its
    /// family.
    #[verifier::type_invariant]
    pub open spec fn wf(&self) -> bool {
        self@.wf()
    }

    /// The family of the addresses of the range.
    pub fn family(&self) -> (family: AddressFamily)
        ensures
            family == self@.family,
            self.wf(),
    {
        proof {
            use_type_invariant(self);
        }
        self.family
    }

    /// The address that the number `n` stands for in the family `family`.
    fn address_of(family: AddressFamily, n: u128) -> (address: IpAddress)
        requires
            n <= family.greatest(),
        ensures
            address == family.address(n as nat),
    {
        match family {
            AddressFamily::V4 => IpAddress::V4(n as u32),
            AddressFamily::V6 => IpAddress::V6(n),
        }
    }

    /// The first address of the range.
    pub fn first(&self) -> (address: IpAddress)
        ensures
            address == self@.family.address(self@.first),
    {
        proof {
            use_type_invariant(self);
        }
        Self::address_of(self.family, self.first)
    }

    /// The last address of the range.
    pub fn last(&self) -> (address: IpAddress)
        ensures
            address == self@.family.address(self@.last),
    {
        proof {
            use_type_invariant(self);
        }
        Self::address_of(self.family, self.last)
    }

    /// The range of one address.
    pub fn single(address: IpAddress) -> (range: AddressRange)
        ensures
            range.wf(),
            range@ == (RangeView {
                family: address.family(),
                first: address.number(),
                last: address.number(),
            }),
    {
        match address {
            IpAddress::V4(v) => AddressRange {
                family: AddressFamily::V4,
                first: v as u128,
                last: v as u128,
            },
            IpAddress::V6(v) => AddressRange { family: AddressFamily::V6, first: v, last: v },
        }
    }

    /// The range of the addresses that agree with `address` in their first
    /// `prefix_len` bits, or `None` where the family has fewer bits.
    pub fn from_prefix(address: IpAddress, prefix_len: u8) -> (r: Option<AddressRange>)
        ensures
            match r {
                Some(range) => cidr_range(address, prefix_len as nat) == Some(range@)
                    && range.wf(),
                None => cidr_range(address, prefix_len as nat) is None,
            },
    {
        let (family, bits, number) = match address {
            IpAddress::V4(v) => (AddressFamily::V4, 32u8, v as u128),
            IpAddress::V6(v) => (AddressFamily::V6, 128u8, v),
        };
        if prefix_len > bits {
            return None;
        }
        let mask = low_mask(bits - prefix_len);
        proof {
            lemma_cidr_range(address, prefix_len as nat);
            lemma_pow2_pos((bits - prefix_len) as nat);
            lemma_family_span(family);
        }
        let first = if mask == u128::MAX {
            proof {
                let span = pow2((bits - prefix_len) as nat) as int;
                let a = number as int;
                assert(a % span == a) by (nonlinear_arith)
                    requires
                        0 <= a < span,
                ;
            }
            0
        } else {
            proof {
                let span = (mask + 1) as int;
                let a = number as int;
                assert(0 <= a % span <= a) by (nonlinear_arith)
                    requires
                        0 <= a,
                        0 < span,
                ;
            }
            number - number % (mask + 1)
        };
        Some(AddressRange { family, first, last: first + mask })
    }

    /// Reads a range from its text.
    pub fn parse(text: &str) -> (r: Option<AddressRange>)
        ensures
            match r {
                Some(range) => range_value(text@) == Some(range@) && range.wf(),
                None => range_value(text@) is None,
            },
    {
        let chars = chars_of(text);
        let n = chars.len();
        match find_last(&chars, '/') {
            None => match parse_ip(&chars) {
                Some(address) => Some(Self::single(address)),
                None => None,
            },
            Some(i) => {
                let mut head: Vec<char> = Vec::new();
                let mut k: usize = 0;
                while k < i
                    invariant
                        k <= i < n,
                        n == chars.len(),
                        head@ == chars@.take(k as int),
                    decreases i - k,
                {
                    head.push(chars[k]);
                    assert(chars@.take(k as int).push(chars@[k as int]) == chars@.take(k + 1));
                    k += 1;
                }
                let mut tail: Vec<char> = Vec::new();
                let mut k: usize = i + 1;
                while k < n
                    invariant
                        i + 1 <= k <= n,
                        n == chars.len(),
                        tail@ == chars@.subrange(i + 1, k as int),
                    decreases n - k,
                {
                    tail.push(chars[k]);
                    assert(chars@.subrange(i + 1, k as int).push(chars@[k as int])
                        == chars@.subrange(i + 1, k + 1));
                    k += 1;
                }
                assert(chars@.skip(i + 1) == chars@.subrange(i + 1, n as int));
                match (parse_ip(&head), parse_decimal(&tail, 128)) {
                    (Some(address), Some(prefix_len)) => Self::from_prefix(
                        address,
                        prefix_len as u8,
                    ),
                    _ => None,
                }
            },
        }
    }

    /// The number of the last unit when the range is cut into units of
    /// `unit` addresses, or `None` where `unit` is zero.
    pub fn last_unit(&self, unit: u128) -> (r: Option<u128>)
        ensures
            r == if unit == 0 {
                None
            } else {
                Some(self@.last_unit(unit as nat) as u128)
            },
            unit > 0 ==> self@.last_unit(unit as nat) <= u128::MAX,
    {
        proof {
            use_type_invariant(self);
        }
        if unit == 0 {
            None
        } else {
            Some((self.last - self.first) / unit)
        }
    }

    /// Unit number `index` of the range cut into units of `unit` addresses,
    /// or `None` where `unit` is zero or the range has no such unit.
    pub fn segment(&self, unit: u128, index: u128) -> (r: Option<Segment>)
        ensures
            match r {
                Some(segment) => unit > 0 && index <= self@.last_unit(unit as nat) && segment
                    == segment_of(self@, unit as nat, index as nat),
                None => unit == 0 || index > self@.last_unit(unit as nat),
            },
    {
        proof {
            use_type_invariant(self);
        }
        if unit == 0 {
            return None;
        }
        let width = self.last - self.first;
        if index > width / unit {
            return None;
        }
        proof {
            let w = width as int;
            let u = unit as int;
            let i = index as int;
            assert(i * u <= w) by (nonlinear_arith)
                requires
                    u > 0,
                    0 <= i <= w / u,
            ;
        }
        let offset = index * unit;
        let first = self.first + offset;
        let last = if unit - 1 <= self.last - first {
            first + (unit - 1)
        } else {
            self.last
        };
        Some(
            Segment {
                index,
                first: Self::address_of(self.family, first),
                last: Self::address_of(self.family, last),
            },
        )
    }
}

/// The units of a range cover it without overlap: every address of the
/// range lies in the unit whose number is its distance from the start
/// divided by the unit size, and in no other; no unit is empty, and none
/// holds more than `unit` addresses.
pub proof fn lemma_units_partition(range: RangeView, unit: nat, n: nat, index: nat)
    requires
        range.wf(),
        unit > 0,
        range.holds(n),
        index <= range.last_unit(unit),
    ensures
        range.unit_first(unit, index) <= range.unit_last(unit, index) <= range.last,
        range.unit_last(unit, index) - range.unit_first(unit, index) < unit,
        (range.unit_first(unit, index) <= n <= range.unit_last(unit, index)) <==> index == (n
            - range.first) as nat / unit,
        ((n - range.first) as nat / unit) <= range.last_unit(unit),
{
    let w = (range.last - range.first) as int;
    let d = (n - range.first) as int;
    let u = unit as int;
    let i = index as int;
    let q = d / u;
    assert(i * u <= w) by (nonlinear_arith)
        requires
            u > 0,
            0 <= i <= w / u,
    ;
    assert(d == u * q + d % u && 0 <= d % u < u) by (nonlinear_arith)
        requires
            u > 0,
            q == d / u,
            d >= 0,
    ;
    assert(q <= w / u) by (nonlinear_arith)
        requires
            u > 0,
            0 <= d <= w,
            q == d / u,
    ;
    if i < q {
        assert(i * u + u <= q * u) by (nonlinear_arith)
            requires
                u > 0,
                i + 1 <= q,
        ;
    } else if i > q {
        assert(q * u + u <= i * u) by (nonlinear_arith)
            requires
                u > 0,
                q + 1 <= i,
        ;
    } else {
        assert(i * u == u * q) by (nonlinear_arith)
            requires
                i == q,
        ;
    }
}

} // verus!
