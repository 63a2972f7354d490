//! The textual forms of IP addresses.
//!
//! An IPv4 address is written as four decimal octets separated by dots; an
//! octet has one to three digits and no leading zero. An IPv6 address is
//! written as eight groups of one to four hexadecimal digits separated by
//! colons, where one run of zero groups may be shortened to `::` and the
//! last two groups may be written as an IPv4 address.

use vstd::prelude::*;
use crate::host::IpAddress;
use crate::text::{
    all_digits, all_hex_digits, chars_of, decimal_value, field_views, hex_digit_of, hex_value,
    is_hex_digit, parse_decimal, split, split_fields,
};

verus! {

/// One octet of a dotted IPv4 address.
pub open spec fn is_octet_text(field: Seq<char>) -> bool {
    &&& 1 <= field.len() <= 3
    &&& all_digits(field)
    &&& (field.len() == 1 || field[0] != '0')
    &&& decimal_value(field) <= 255
}

/// The address that `s` spells in dotted form, if it spells one.
pub open spec fn ipv4_value(s: Seq<char>) -> Option<u32> {
    let fields = split_fields(s, '.');
    if fields.len() == 4 && is_octet_text(fields[0]) && is_octet_text(fields[1])
        && is_octet_text(fields[2]) && is_octet_text(fields[3]) {
        Some(
            (decimal_value(fields[0]) * 0x100_0000 + decimal_value(fields[1]) * 0x1_0000
                + decimal_value(fields[2]) * 0x100 + decimal_value(fields[3])) as u32,
        )
    } else {
        None
    }
}

/// Reads one octet of a dotted IPv4 address.
fn parse_octet(field: &Vec<char>) -> (r: Option<u8>)
    ensures
        match r {
            Some(v) => is_octet_text(field@) && v == decimal_value(field@),
            None => !is_octet_text(field@),
        },
{
    let n = field.len();
    if n == 0 || n > 3 {
        return None;
    }
    if n > 1 && field[0] == '0' {
        return None;
    }
    match parse_decimal(field, 255) {
        Some(v) => Some(v as u8),
        None => None,
    }
}

/// Reads an IPv4 address in dotted form.
pub fn parse_ipv4(chars: &Vec<char>) -> (r: Option<u32>)
    ensures
        r == ipv4_value(chars@),
{
    let fields = split(chars, '.');
    if fields.len() != 4 {
        return None;
    }
    assert(forall|i: int| 0 <= i < 4 ==> field_views(fields@)[i] == #[trigger] fields[i]@);
    let a = match parse_octet(&fields[0]) {
        Some(v) => v,
        None => {
            return None;
        },
    };
    let b = match parse_octet(&fields[1]) {
        Some(v) => v,
        None => {
            return None;
        },
    };
    let c = match parse_octet(&fields[2]) {
        Some(v) => v,
        None => {
            return None;
        },
    };
    let d = match parse_octet(&fields[3]) {
        Some(v) => v,
        None => {
            return None;
        },
    };
    Some(a as u32 * 0x100_0000 + b as u32 * 0x1_0000 + c as u32 * 0x100 + d as u32)
}

/// One group of an IPv6 address.
pub open spec fn is_hex_group(field: Seq<char>) -> bool {
    1 <= field.len() <= 4 && all_hex_digits(field)
}

/// A numeral of up to four hexadecimal digits spells less than 65536.
pub proof fn lemma_hex_group_bound(field: Seq<char>)
    requires
        field.len() <= 4,
        all_hex_digits(field),
    ensures
        hex_value(field) < 0x1_0000,
        field.len() <= 3 ==> hex_value(field) < 0x1000,
        field.len() <= 2 ==> hex_value(field) < 0x100,
        field.len() <= 1 ==> hex_value(field) < 0x10,
    decreases field.len(),
{
    if field.len() > 0 {
        assert(is_hex_digit(field[field.len() - 1]));
        assert forall|i: int| 0 <= i < field.len() - 1 implies is_hex_digit(
            #[trigger] field.drop_last()[i],
        ) by {
            assert(is_hex_digit(field[i]));
        }
        lemma_hex_group_bound(field.drop_last());
    }
}

/// Reads one group of an IPv6 address.
fn parse_hex_group(field: &Vec<char>) -> (r: Option<u16>)
    ensures
        match r {
            Some(v) => is_hex_group(field@) && v == hex_value(field@),
            None => !is_hex_group(field@),
        },
{
    let n = field.len();
    if n == 0 || n > 4 {
        return None;
    }
    let mut value: u32 = 0;
    let mut i: usize = 0;
    while i < n
        invariant
            i <= n,
            n == field.len(),
            n <= 4,
            value == hex_value(field@.take(i as int)),
            all_hex_digits(field@.take(i as int)),
        decreases n - i,
    {
        let c = field[i];
        proof {
            assert(field@.take(i + 1).drop_last() == field@.take(i as int));
            assert(field@.take(i + 1).last() == c);
            lemma_hex_group_bound(field@.take(i as int));
        }
        match hex_digit_of(c) {
            Some(d) => {
                value = value * 16 + d as u32;
            },
            None => {
                assert(!is_hex_digit(field@[i as int]));
                return None;
            },
        }
        assert forall|k: int| 0 <= k < i + 1 implies is_hex_digit(
            #[trigger] field@.take(i + 1)[k],
        ) by {
            if k < i {
                assert(is_hex_digit(field@.take(i as int)[k]));
            }
        }
        i += 1;
    }
    proof {
        assert(field@.take(n as int) == field@);
        lemma_hex_group_bound(field@);
    }
    Some(value as u16)
}

/// The groups that `fields` spell, where every field is a group.
pub open spec fn hex_groups(fields: Seq<Seq<char>>) -> Option<Seq<u16>> {
    if forall|i: int| 0 <= i < fields.len() ==> is_hex_group(#[trigger] fields[i]) {
        Some(Seq::new(fields.len(), |i: int| hex_value(fields[i]) as u16))
    } else {
        None
    }
}

/// The groups that `fields` spell, where the last field may be an IPv4
/// address, which stands for two groups, and every other field is a group.
pub open spec fn tail_groups(fields: Seq<Seq<char>>) -> Option<Seq<u16>> {
    if fields.len() == 0 {
        Some(Seq::<u16>::empty())
    } else {
        match ipv4_value(fields.last()) {
            Some(v) => match hex_groups(fields.drop_last()) {
                Some(groups) => Some(
                    groups.push((v / 0x1_0000) as u16).push((v % 0x1_0000) as u16),
                ),
                None => None,
            },
            None => hex_groups(fields),
        }
    }
}

/// The first place at or after `from` at which two colons stand side by
/// side in `s`.
pub open spec fn double_colon_from(s: Seq<char>, from: int) -> Option<int>
    decreases s.len() - from,
{
    if from < 0 || from + 1 >= s.len() {
        None
    } else if s[from] == ':' && s[from + 1] == ':' {
        Some(from)
    } else {
        double_colon_from(s, from + 1)
    }
}

/// `n` groups of zero.
pub open spec fn zero_groups(n: int) -> Seq<u16> {
    Seq::new(n as nat, |i: int| 0u16)
}

/// The eight groups that `s` spells as an IPv6 address, if it spells one.
///
/// Without `::` the text must spell all eight groups. With `::`, what stands
/// before it spells the leading groups, what stands after it the trailing
/// ones, and at least one group of zero lies between.
pub open spec fn ipv6_groups(s: Seq<char>) -> Option<Seq<u16>> {
    match double_colon_from(s, 0) {
        None => match tail_groups(split_fields(s, ':')) {
            Some(groups) => if groups.len() == 8 {
                Some(groups)
            } else {
                None
            },
            None => None,
        },
        Some(p) => {
            let head = if p == 0 {
                Some(Seq::<u16>::empty())
            } else {
                hex_groups(split_fields(s.take(p), ':'))
            };
            let tail = if p + 2 == s.len() {
                Some(Seq::<u16>::empty())
            } else {
                tail_groups(split_fields(s.skip(p + 2), ':'))
            };
            match (head, tail) {
                (Some(h), Some(t)) => if h.len() + t.len() <= 7 {
                    Some(h + zero_groups(8 - h.len() - t.len()) + t)
                } else {
                    None
                },
                _ => None,
            }
        },
    }
}

/// The number that a sequence of groups spells, most significant first.
pub open spec fn groups_value(groups: Seq<u16>) -> nat
    decreases groups.len(),
{
    if groups.len() == 0 {
        0
    } else {
        groups_value(groups.drop_last()) * 0x1_0000 + groups.last() as nat
    }
}

/// The address that `s` spells as an IPv6 address, if it spells one.
pub open spec fn ipv6_value(s: Seq<char>) -> Option<u128> {
    match ipv6_groups(s) {
        Some(groups) => Some(groups_value(groups) as u128),
        None => None,
    }
}

/// The address that `s` spells, in either form, if it spells one.
pub open spec fn ip_value(s: Seq<char>) -> Option<IpAddress> {
    match ipv4_value(s) {
        Some(v) => Some(IpAddress::V4(v)),
        None => match ipv6_value(s) {
            Some(v) => Some(IpAddress::V6(v)),
            None => None,
        },
    }
}

/// Finds the first place at which two colons stand side by side.
fn find_double_colon(chars: &Vec<char>) -> (r: Option<usize>)
    ensures
        match r {
            Some(p) => double_colon_from(chars@, 0) == Some(p as int) && p + 2 <= chars.len(),
            None => double_colon_from(chars@, 0) is None,
        },
{
    let n = chars.len();
    if n < 2 {
        return None;
    }
    let mut i: usize = 0;
    while i < n - 1
        invariant
            n == chars.len(),
            n >= 2,
            i <= n - 1,
            double_colon_from(chars@, 0) == double_colon_from(chars@, i as int),
        decreases n - i,
    {
        if chars[i] == ':' && chars[i + 1] == ':' {
            return Some(i);
        }
        i += 1;
    }
    None
}

/// The characters of `chars` from `from` up to `to`.
fn sub_chars(chars: &Vec<char>, from: usize, to: usize) -> (r: Vec<char>)
    requires
        from <= to <= chars.len(),
    ensures
        r@ == chars@.subrange(from as int, to as int),
{
    let mut r: Vec<char> = Vec::new();
    let mut i: usize = from;
    while i < to
        invariant
            from <= i <= to,
            to <= chars.len(),
            r@ == chars@.subrange(from as int, i as int),
        decreases to - i,
    {
        r.push(chars[i]);
        assert(chars@.subrange(from as int, i as int).push(chars@[i as int]) == chars@.subrange(
            from as int,
            i + 1,
        ));
        i += 1;
    }
    r
}

/// Reads the first `count` of `fields` as groups.
fn parse_hex_groups(fields: &Vec<Vec<char>>, count: usize) -> (r: Option<Vec<u16>>)
    requires
        count <= fields.len(),
    ensures
        match r {
            Some(groups) => hex_groups(field_views(fields@).take(count as int)) == Some(groups@),
            None => hex_groups(field_views(fields@).take(count as int)) is None,
        },
{
    let ghost texts = field_views(fields@).take(count as int);
    let mut groups: Vec<u16> = Vec::new();
    let mut i: usize = 0;
    while i < count
        invariant
            i <= count,
            count <= fields.len(),
            texts == field_views(fields@).take(count as int),
            groups.len() == i,
            forall|k: int| 0 <= k < i ==> is_hex_group(#[trigger] texts[k]),
            forall|k: int| 0 <= k < i ==> #[trigger] groups[k] == hex_value(texts[k]) as u16,
        decreases count - i,
    {
        assert(texts[i as int] == fields[i as int]@);
        match parse_hex_group(&fields[i]) {
            Some(v) => {
                groups.push(v);
            },
            None => {
                return None;
            },
        }
        i += 1;
    }
    assert(groups@ =~= hex_groups(texts)->0);
    Some(groups)
}

/// Reads `fields` as groups, of which the last two may be written as an
/// IPv4 address in the last field.
fn parse_tail_groups(fields: &Vec<Vec<char>>) -> (r: Option<Vec<u16>>)
    ensures
        match r {
            Some(groups) => tail_groups(field_views(fields@)) == Some(groups@),
            None => tail_groups(field_views(fields@)) is None,
        },
{
    let ghost texts = field_views(fields@);
    let n = fields.len();
    assert(texts.take(n as int) == texts);
    if n == 0 {
        return Some(Vec::new());
    }
    assert(texts.last() == fields[n - 1]@);
    assert(texts.take(n - 1) == texts.drop_last());
    match parse_ipv4(&fields[n - 1]) {
        Some(v) => match parse_hex_groups(fields, n - 1) {
            Some(mut groups) => {
                groups.push((v / 0x1_0000) as u16);
                groups.push((v % 0x1_0000) as u16);
                Some(groups)
            },
            None => None,
        },
        None => parse_hex_groups(fields, n),
    }
}

/// Sixty-five thousand five hundred and thirty-six to the power `n`.
pub open spec fn group_span(n: nat) -> nat
    decreases n,
{
    if n == 0 {
        1
    } else {
        0x1_0000 * group_span((n - 1) as nat)
    }
}

/// `n` groups spell less than 65536 to the power `n`.
pub proof fn lemma_groups_value_bound(groups: Seq<u16>)
    ensures
        groups_value(groups) < group_span(groups.len()),
    decreases groups.len(),
{
    if groups.len() > 0 {
        lemma_groups_value_bound(groups.drop_last());
    }
}

/// The number that eight groups spell.
fn combine_groups(groups: &Vec<u16>) -> (v: u128)
    requires
        groups.len() == 8,
    ensures
        v == groups_value(groups@),
{
    let mut v: u128 = 0;
    let mut i: usize = 0;
    while i < 8
        invariant
            i <= 8,
            groups.len() == 8,
            v == groups_value(groups@.take(i as int)),
        decreases 8 - i,
    {
        proof {
            assert(groups@.take(i + 1).drop_last() == groups@.take(i as int));
            assert(groups@.take(i + 1).last() == groups[i as int]);
            lemma_groups_value_bound(groups@.take(i as int));
            reveal_with_fuel(group_span, 9);
            assert(group_span(i as nat) <= group_span(7));
        }
        v = v * 0x1_0000 + groups[i] as u128;
        i += 1;
    }
    assert(groups@.take(8) == groups@);
    v
}

/// Reads an IPv6 address.
pub fn parse_ipv6(chars: &Vec<char>) -> (r: Option<u128>)
    ensures
        r == ipv6_value(chars@),
{
    let n = chars.len();
    let groups = match find_double_colon(chars) {
        None => {
            let fields = split(chars, ':');
            match parse_tail_groups(&fields) {
                Some(groups) => {
                    if groups.len() != 8 {
                        return None;
                    }
                    groups
                },
                None => {
                    return None;
                },
            }
        },
        Some(p) => {
            assert(chars@.take(p as int) == chars@.subrange(0, p as int));
            assert(chars@.skip(p + 2) == chars@.subrange(p + 2, n as int));
            let head = if p == 0 {
                Vec::new()
            } else {
                let text = sub_chars(chars, 0, p);
                let fields = split(&text, ':');
                assert(field_views(fields@).take(fields.len() as int) == field_views(fields@));
                match parse_hex_groups(&fields, fields.len()) {
                    Some(groups) => groups,
                    None => {
                        return None;
                    },
                }
            };
            let tail = if p + 2 == n {
                Vec::new()
            } else {
                let text = sub_chars(chars, p + 2, n);
                let fields = split(&text, ':');
                match parse_tail_groups(&fields) {
                    Some(groups) => groups,
                    None => {
                        return None;
                    },
                }
            };
            if head.len() > 7 || tail.len() > 7 - head.len() {
                return None;
            }
            let zeros = 8 - head.len() - tail.len();
            let mut groups = head;
            let ghost h = groups@;
            let mut k: usize = 0;
            while k < zeros
                invariant
                    k <= zeros,
                    groups@ == h + zero_groups(k as int),
                decreases zeros - k,
            {
                groups.push(0u16);
                assert(groups@ =~= h + zero_groups(k + 1));
                k += 1;
            }
            let mut j: usize = 0;
            while j < tail.len()
                invariant
                    j <= tail.len(),
                    groups@ == h + zero_groups(zeros as int) + tail@.take(j as int),
                decreases tail.len() - j,
            {
                groups.push(tail[j]);
                assert(groups@ =~= h + zero_groups(zeros as int) + tail@.take(j + 1));
                j += 1;
            }
            assert(tail@.take(tail.len() as int) == tail@);
            groups
        },
    };
    assert(ipv6_groups(chars@) == Some(groups@));
    proof {
        lemma_groups_value_bound(groups@);
        reveal_with_fuel(group_span, 9);
    }
    Some(combine_groups(&groups))
}

/// Reads an IP address in either form.
pub fn parse_ip(chars: &Vec<char>) -> (r: Option<IpAddress>)
    ensures
        r == ip_value(chars@),
{
    match parse_ipv4(chars) {
        Some(v) => Some(IpAddress::V4(v)),
        None => match parse_ipv6(chars) {
            Some(v) => Some(IpAddress::V6(v)),
            None => None,
        },
    }
}

impl IpAddress {
    /// Reads an address from its text, IPv4 in dotted form or IPv6 in
    /// colon form. Nothing may stand before or after the address.
    pub fn parse(text: &str) -> (r: Option<IpAddress>)
        ensures
            r == ip_value(text@),
    {
        let chars = chars_of(text);
        parse_ip(&chars)
    }
}

} // verus!
