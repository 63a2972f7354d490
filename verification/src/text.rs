//! Characters, numerals and fields: what the textual forms of names and
//! addresses are made of.

use vstd::prelude::*;

verus! {

/// The characters of `s`, in order.
pub fn chars_of(s: &str) -> (chars: Vec<char>)
    ensures
        chars@ == s@,
{
    let mut chars: Vec<char> = Vec::new();
    for c in it: s.chars()
        invariant
            it.seq() == s@,
            chars@ == s@.take(it.index()),
    {
        chars.push(c);
        assert(s@.take(it.index()).push(c) == s@.take(it.index() + 1));
    }
    assert(s@.take(s@.len() as int) == s@);
    chars
}

/// One of the ten decimal digits.
pub open spec fn is_digit(c: char) -> bool {
    '0' <= c <= '9'
}

/// The number that a decimal digit stands for.
pub open spec fn digit_value(c: char) -> nat {
    (c as nat - '0' as nat) as nat
}

/// Every character of `s` is a decimal digit.
pub open spec fn all_digits(s: Seq<char>) -> bool {
    forall|i: int| 0 <= i < s.len() ==> is_digit(#[trigger] s[i])
}

/// The number that a string of decimal digits spells.
pub open spec fn decimal_value(s: Seq<char>) -> nat
    decreases s.len(),
{
    if s.len() == 0 {
        0
    } else {
        decimal_value(s.drop_last()) * 10 + digit_value(s.last())
    }
}

/// The number that the decimal digit `c` stands for, if it is one.
pub fn digit_of(c: char) -> (d: Option<u8>)
    ensures
        match d {
            Some(v) => is_digit(c) && v == digit_value(c) && v < 10,
            None => !is_digit(c),
        },
{
    if '0' <= c && c <= '9' {
        Some((c as u32 - '0' as u32) as u8)
    } else {
        None
    }
}

/// A longer numeral never spells less than its beginning.
pub proof fn lemma_decimal_prefix(s: Seq<char>, k: int)
    requires
        0 <= k <= s.len(),
    ensures
        decimal_value(s.take(k)) <= decimal_value(s),
    decreases s.len(),
{
    if k == s.len() {
        assert(s.take(k) == s);
    } else {
        assert(s.drop_last().take(k) == s.take(k));
        lemma_decimal_prefix(s.drop_last(), k);
    }
}

/// The number that `s` spells, where `s` is a decimal numeral of at least
/// one digit that spells no more than `limit`.
pub open spec fn bounded_decimal(s: Seq<char>, limit: nat) -> Option<nat> {
    if s.len() >= 1 && all_digits(s) && decimal_value(s) <= limit {
        Some(decimal_value(s))
    } else {
        None
    }
}

/// Reads `field` as a decimal numeral of at least one digit that spells no
/// more than `limit`. Leading zeros are digits like any other.
pub fn parse_decimal(field: &Vec<char>, limit: u16) -> (r: Option<u16>)
    ensures
        match r {
            Some(v) => bounded_decimal(field@, limit as nat) == Some(v as nat),
            None => bounded_decimal(field@, limit as nat) is None,
        },
{
    let n = field.len();
    if n == 0 {
        return None;
    }
    let mut value: u32 = 0;
    let mut i: usize = 0;
    while i < n
        invariant
            i <= n,
            n == field.len(),
            value <= limit,
            value == decimal_value(field@.take(i as int)),
            all_digits(field@.take(i as int)),
        decreases n - i,
    {
        let c = field[i];
        proof {
            assert(field@.take(i + 1).drop_last() == field@.take(i as int));
            assert(field@.take(i + 1).last() == c);
        }
        let digit = match digit_of(c) {
            Some(d) => d,
            None => {
                assert(!is_digit(field@[i as int]));
                return None;
            },
        };
        value = value * 10 + digit as u32;
        if value > limit as u32 {
            proof {
                lemma_decimal_prefix(field@, i + 1);
            }
            return None;
        }
        assert forall|k: int| 0 <= k < i + 1 implies is_digit(#[trigger] field@.take(i + 1)[k]) by {
            if k < i {
                assert(is_digit(field@.take(i as int)[k]));
            }
        }
        i += 1;
    }
    assert(field@.take(n as int) == field@);
    Some(value as u16)
}

/// One of the sixteen hexadecimal digits, in either case.
pub open spec fn is_hex_digit(c: char) -> bool {
    ||| '0' <= c <= '9'
    ||| 'a' <= c <= 'f'
    ||| 'A' <= c <= 'F'
}

/// The number that a hexadecimal digit stands for.
pub open spec fn hex_digit_value(c: char) -> nat {
    if '0' <= c <= '9' {
        (c as nat - '0' as nat) as nat
    } else if 'a' <= c <= 'f' {
        (c as nat - 'a' as nat + 10) as nat
    } else {
        (c as nat - 'A' as nat + 10) as nat
    }
}

/// Every character of `s` is a hexadecimal digit.
pub open spec fn all_hex_digits(s: Seq<char>) -> bool {
    forall|i: int| 0 <= i < s.len() ==> is_hex_digit(#[trigger] s[i])
}

/// The number that a string of hexadecimal digits spells.
pub open spec fn hex_value(s: Seq<char>) -> nat
    decreases s.len(),
{
    if s.len() == 0 {
        0
    } else {
        hex_value(s.drop_last()) * 16 + hex_digit_value(s.last())
    }
}

/// The number that the hexadecimal digit `c` stands for, if it is one.
pub fn hex_digit_of(c: char) -> (d: Option<u8>)
    ensures
        match d {
            Some(v) => is_hex_digit(c) && v == hex_digit_value(c) && v < 16,
            None => !is_hex_digit(c),
        },
{
    if '0' <= c && c <= '9' {
        Some((c as u32 - '0' as u32) as u8)
    } else if 'a' <= c && c <= 'f' {
        Some((c as u32 - 'a' as u32 + 10) as u8)
    } else if 'A' <= c && c <= 'F' {
        Some((c as u32 - 'A' as u32 + 10) as u8)
    } else {
        None
    }
}

/// The fields of `s`: what stands before, between and after the
/// occurrences of `sep`. There is always at least one field, and fields may
/// be empty.
pub open spec fn split_fields(s: Seq<char>, sep: char) -> Seq<Seq<char>>
    decreases s.len(),
{
    if s.len() == 0 {
        seq![Seq::<char>::empty()]
    } else {
        let before = split_fields(s.drop_last(), sep);
        if s.last() == sep {
            before.push(Seq::<char>::empty())
        } else {
            before.update(before.len() - 1, before.last().push(s.last()))
        }
    }
}

/// The fields joined by `sep`.
pub open spec fn join_fields(fields: Seq<Seq<char>>, sep: char) -> Seq<char>
    decreases fields.len(),
{
    if fields.len() == 0 {
        Seq::<char>::empty()
    } else if fields.len() == 1 {
        fields[0]
    } else {
        join_fields(fields.drop_last(), sep).push(sep) + fields.last()
    }
}

/// Splitting loses nothing: there is at least one field, no field holds the
/// separator, and the fields joined by the separator are the text again.
pub proof fn lemma_split_fields(s: Seq<char>, sep: char)
    ensures
        split_fields(s, sep).len() >= 1,
        forall|i: int, k: int|
            0 <= i < split_fields(s, sep).len() && 0 <= k < split_fields(s, sep)[i].len()
                ==> #[trigger] split_fields(s, sep)[i][k] != sep,
        join_fields(split_fields(s, sep), sep) == s,
    decreases s.len(),
{
    let fields = split_fields(s, sep);
    if s.len() == 0 {
        assert(join_fields(fields, sep) =~= s);
    } else {
        let before = split_fields(s.drop_last(), sep);
        lemma_split_fields(s.drop_last(), sep);
        if s.last() == sep {
            assert(fields.drop_last() == before);
            assert(join_fields(fields, sep) =~= s);
        } else {
            let last = before.len() - 1;
            if before.len() == 1 {
                assert(join_fields(fields, sep) =~= s);
            } else {
                assert(fields.drop_last() == before.drop_last());
                assert(join_fields(fields, sep) =~= join_fields(before, sep).push(s.last()));
                assert(join_fields(fields, sep) =~= s);
            }
        }
    }
}

/// The values of a sequence of fields.
pub open spec fn field_views(fields: Seq<Vec<char>>) -> Seq<Seq<char>> {
    Seq::new(fields.len(), |i: int| fields[i]@)
}

/// Splits `chars` at every occurrence of `sep`.
pub fn split(chars: &Vec<char>, sep: char) -> (fields: Vec<Vec<char>>)
    ensures
        field_views(fields@) == split_fields(chars@, sep),
{
    let n = chars.len();
    let mut fields: Vec<Vec<char>> = Vec::new();
    let mut current: Vec<char> = Vec::new();
    let mut i: usize = 0;
    while i < n
        invariant
            i <= n,
            n == chars.len(),
            field_views(fields@).push(current@) == split_fields(chars@.take(i as int), sep),
        decreases n - i,
    {
        let c = chars[i];
        let ghost done = field_views(fields@);
        let ghost open_field = current@;
        proof {
            assert(chars@.take(i + 1).drop_last() == chars@.take(i as int));
            assert(chars@.take(i + 1).last() == c);
        }
        if c == sep {
            fields.push(current);
            current = Vec::new();
            assert(field_views(fields@) =~= done.push(open_field));
        } else {
            current.push(c);
            assert(done.push(current@) =~= done.push(open_field).update(
                done.len() as int,
                open_field.push(c),
            ));
        }
        i += 1;
    }
    assert(chars@.take(n as int) == chars@);
    let ghost done = field_views(fields@);
    let ghost open_field = current@;
    fields.push(current);
    assert(field_views(fields@) =~= done.push(open_field));
    fields
}

/// The last place at which `c` stands in `s`, if it stands anywhere.
pub open spec fn last_index_of(s: Seq<char>, c: char) -> Option<int>
    decreases s.len(),
{
    if s.len() == 0 {
        None
    } else if s.last() == c {
        Some(s.len() - 1)
    } else {
        last_index_of(s.drop_last(), c)
    }
}

/// What `last_index_of` finds is a place of `c` after which `c` does not
/// stand again, and it finds nothing only where `c` does not stand at all.
pub proof fn lemma_last_index_of(s: Seq<char>, c: char)
    ensures
        match last_index_of(s, c) {
            Some(i) => 0 <= i < s.len() && s[i] == c && forall|k: int|
                i < k < s.len() ==> #[trigger] s[k] != c,
            None => !s.contains(c),
        },
    decreases s.len(),
{
    if s.len() == 0 {
    } else if s.last() == c {
    } else {
        let front = s.drop_last();
        lemma_last_index_of(front, c);
        match last_index_of(front, c) {
            Some(i) => {
                assert(s[i] == front[i]);
                assert forall|k: int| i < k < s.len() implies #[trigger] s[k] != c by {
                    if k < front.len() {
                        assert(front[k] != c);
                    }
                }
            },
            None => {
                if s.contains(c) {
                    let k = choose|k: int| 0 <= k < s.len() && s[k] == c;
                    assert(front[k] == c);
                    assert(front.contains(c));
                }
            },
        }
    }
}

/// Finds the last place at which `c` stands in `chars`.
pub fn find_last(chars: &Vec<char>, c: char) -> (r: Option<usize>)
    ensures
        match r {
            Some(i) => last_index_of(chars@, c) == Some(i as int) && i < chars.len(),
            None => last_index_of(chars@, c) is None,
        },
{
    let mut i = chars.len();
    assert(chars@.take(i as int) == chars@);
    while i > 0
        invariant
            i <= chars.len(),
            last_index_of(chars@, c) == last_index_of(chars@.take(i as int), c),
        decreases i,
    {
        if chars[i - 1] == c {
            return Some(i - 1);
        }
        assert(chars@.take(i as int).drop_last() == chars@.take(i - 1));
        i -= 1;
    }
    None
}

} // verus!
