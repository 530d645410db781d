//! The region listing: one region per line, the address range first and the
//! backing path, if there is one, sixth.

use crate::memory::{MemoryMap, RegionView};
use vstd::prelude::*;
use vstd::string::StrSliceExecFns;

verus! {

/// Whether `c` separates the fields of a line: a character with the Unicode
/// property White_Space.
pub open spec fn is_space(c: char) -> bool {
    let v = c as u32;
    ||| 0x09 <= v <= 0x0d
    ||| v == 0x20
    ||| v == 0x85
    ||| v == 0xa0
    ||| v == 0x1680
    ||| 0x2000 <= v <= 0x200a
    ||| v == 0x2028
    ||| v == 0x2029
    ||| v == 0x202f
    ||| v == 0x205f
    ||| v == 0x3000
}

/// Whether `c` is a hexadecimal digit, in either case.
pub open spec fn is_hex_digit(c: char) -> bool {
    let v = c as u32;
    ||| 0x30 <= v <= 0x39
    ||| 0x41 <= v <= 0x46
    ||| 0x61 <= v <= 0x66
}

/// The value of the hexadecimal digit `c`.
pub open spec fn digit_value(c: char) -> nat {
    let v = c as u32;
    if 0x30 <= v <= 0x39 {
        (v - 0x30) as nat
    } else if 0x41 <= v <= 0x46 {
        (v - 0x41 + 10) as nat
    } else {
        (v - 0x61 + 10) as nat
    }
}

/// The number that the hexadecimal digits `s` spell, most significant first.
pub open spec fn hex_value(s: Seq<char>) -> nat
    decreases s.len(),
{
    if s.len() == 0 {
        0
    } else {
        hex_value(s.drop_last()) * 16 + digit_value(s.last())
    }
}

/// Whether `s` spells a 64-bit address: one or more hexadecimal digits, with
/// no sign and no prefix, whose value fits.
pub open spec fn is_hex_u64(s: Seq<char>) -> bool {
    &&& s.len() > 0
    &&& forall|i: int| 0 <= i < s.len() ==> is_hex_digit(#[trigger] s[i])
    &&& hex_value(s) <= u64::MAX
}

/// The first position at or after `from` that holds no separator, or the
/// line's length.
pub open spec fn spaces_end(line: Seq<char>, from: int) -> int
    decreases line.len() - from,
{
    if 0 <= from < line.len() && is_space(line[from]) {
        spaces_end(line, from + 1)
    } else {
        from
    }
}

/// The first position at or after `from` that holds a separator, or the
/// line's length.
pub open spec fn token_end(line: Seq<char>, from: int) -> int
    decreases line.len() - from,
{
    if 0 <= from < line.len() && !is_space(line[from]) {
        token_end(line, from + 1)
    } else {
        from
    }
}

/// Where field `n` of the line starts and ends, counting from 0. Fields are
/// the maximal runs of characters that are no separators. A field that the
/// line does not have starts at the line's length.
pub open spec fn token_bounds(line: Seq<char>, n: nat) -> (int, int)
    decreases n,
{
    let from = if n == 0 {
        0
    } else {
        token_bounds(line, (n - 1) as nat).1
    };
    let start = spaces_end(line, from);
    (start, token_end(line, start))
}

/// Field `n` of the line, if it has that many.
pub open spec fn token(line: Seq<char>, n: nat) -> Option<Seq<char>> {
    let (start, end) = token_bounds(line, n);
    if start < line.len() {
        Some(line.subrange(start, end))
    } else {
        None
    }
}

/// `range` is an address, a dash at position `dash`, and an address.
pub open spec fn splits_at(range: Seq<char>, dash: int) -> bool {
    &&& 0 <= dash < range.len()
    &&& range[dash] == '-'
    &&& is_hex_u64(range.subrange(0, dash))
    &&& is_hex_u64(range.subrange(dash + 1, range.len() as int))
}

/// The two addresses of a range written as `<low>-<high>` in hexadecimal.
pub open spec fn parsed_range(range: Seq<char>) -> Option<(u64, u64)> {
    if exists|dash: int| splits_at(range, dash) {
        let dash = choose|dash: int| splits_at(range, dash);
        Some(
            (
                hex_value(range.subrange(0, dash)) as u64,
                hex_value(range.subrange(dash + 1, range.len() as int)) as u64,
            ),
        )
    } else {
        None
    }
}

/// The region that a line of the listing describes: its first field is the
/// address range, its sixth, where it has one, the backing path. A line
/// without a first field, or whose first field is no range, describes none.
pub open spec fn parsed_line(line: Seq<char>) -> Option<RegionView> {
    match token(line, 0) {
        None => None,
        Some(range) => match parsed_range(range) {
            None => None,
            Some((low, high)) => Some(
                RegionView { low_addr: low, high_addr: high, path: token(line, 5) },
            ),
        },
    }
}

/// A hexadecimal digit is no dash.
proof fn lemma_dash_is_no_digit()
    ensures
        !is_hex_digit('-'),
{
}

/// A range splits at its first dash or nowhere.
proof fn lemma_split_is_first_dash(range: Seq<char>, dash: int, first: int)
    requires
        splits_at(range, dash),
        0 <= first < range.len(),
        range[first] == '-',
        forall|i: int| 0 <= i < first ==> range[i] != '-',
    ensures
        dash == first,
{
    lemma_dash_is_no_digit();
    if first < dash {
        assert(range.subrange(0, dash)[first] == '-');
    }
}

/// The digits read so far never spell more than the whole.
proof fn lemma_hex_prefix(s: Seq<char>, k: int)
    requires
        0 <= k <= s.len(),
    ensures
        hex_value(s.take(k)) <= hex_value(s),
    decreases s.len(),
{
    if k == s.len() {
        assert(s.take(k) =~= s);
    } else {
        assert(s.drop_last().take(k) =~= s.take(k));
        lemma_hex_prefix(s.drop_last(), k);
    }
}

fn is_separator(c: char) -> (space: bool)
    ensures
        space == is_space(c),
{
    let v: u32 = c as u32;
    (0x09 <= v && v <= 0x0d) || v == 0x20 || v == 0x85 || v == 0xa0 || v == 0x1680 || (0x2000 <= v
        && v <= 0x200a) || v == 0x2028 || v == 0x2029 || v == 0x202f || v == 0x205f || v == 0x3000
}

fn digit_of(c: char) -> (digit: Option<u64>)
    ensures
        digit is Some <==> is_hex_digit(c),
        digit matches Some(d) ==> d == digit_value(c) && d < 16,
{
    let v: u32 = c as u32;
    if 0x30 <= v && v <= 0x39 {
        Some((v - 0x30) as u64)
    } else if 0x41 <= v && v <= 0x46 {
        Some((v - 0x41 + 10) as u64)
    } else if 0x61 <= v && v <= 0x66 {
        Some((v - 0x61 + 10) as u64)
    } else {
        None
    }
}

fn chars_of(line: &str) -> (chars: Vec<char>)
    ensures
        chars@ == line@,
{
    let n: usize = line.unicode_len();
    let mut chars: Vec<char> = Vec::new();
    let mut i: usize = 0;
    while i < n
        invariant
            i <= n == line@.len(),
            chars@ == line@.take(i as int),
        decreases n - i,
    {
        chars.push(line.get_char(i));
        assert(line@.take(i + 1) =~= line@.take(i as int).push(line@[i as int]));
        i += 1;
    }
    assert(line@.take(n as int) =~= line@);
    chars
}

fn skip_spaces(chars: &Vec<char>, from: usize) -> (to: usize)
    requires
        from <= chars@.len(),
    ensures
        from <= to <= chars@.len(),
        to == spaces_end(chars@, from as int),
{
    let mut i: usize = from;
    while i < chars.len() && is_separator(chars[i])
        invariant
            from <= i <= chars@.len(),
            spaces_end(chars@, from as int) == spaces_end(chars@, i as int),
        decreases chars@.len() - i,
    {
        i += 1;
    }
    i
}

fn skip_token(chars: &Vec<char>, from: usize) -> (to: usize)
    requires
        from <= chars@.len(),
    ensures
        from <= to <= chars@.len(),
        to == token_end(chars@, from as int),
{
    let mut i: usize = from;
    while i < chars.len() && !is_separator(chars[i])
        invariant
            from <= i <= chars@.len(),
            token_end(chars@, from as int) == token_end(chars@, i as int),
        decreases chars@.len() - i,
    {
        i += 1;
    }
    i
}

fn parse_hex(chars: &Vec<char>, from: usize, to: usize) -> (value: Option<u64>)
    requires
        from <= to <= chars@.len(),
    ensures
        value is Some <==> is_hex_u64(chars@.subrange(from as int, to as int)),
        value matches Some(v) ==> v == hex_value(chars@.subrange(from as int, to as int)),
{
    let ghost digits = chars@.subrange(from as int, to as int);
    if from == to {
        return None;
    }
    let mut acc: u64 = 0;
    let mut i: usize = from;
    while i < to
        invariant
            from <= i <= to <= chars@.len(),
            digits == chars@.subrange(from as int, to as int),
            forall|k: int| 0 <= k < i - from ==> is_hex_digit(#[trigger] digits[k]),
            acc == hex_value(digits.take(i - from)),
        decreases to - i,
    {
        assert(digits[i - from] == chars@[i as int]);
        assert(digits.take(i - from + 1).drop_last() =~= digits.take(i - from));
        match digit_of(chars[i]) {
            None => {
                return None;
            },
            Some(d) => {
                if acc > (u64::MAX - d) / 16 {
                    proof {
                        lemma_hex_prefix(digits, i - from + 1);
                    }
                    return None;
                }
                acc = acc * 16 + d;
            },
        }
        i += 1;
    }
    assert(digits.take(to - from) =~= digits);
    Some(acc)
}

/// Reads one line of the listing. The line describes a region exactly when it
/// has a first field of the form `<low>-<high>`, both in hexadecimal; its
/// sixth field, where there is one, is the region's path.
pub fn parse_line(line: &str) -> (region: Option<MemoryMap>)
    ensures
        region is Some <==> parsed_line(line@) is Some,
        region matches Some(map) ==> parsed_line(line@) == Some(map@),
{
    let chars = chars_of(line);
    let start: usize = skip_spaces(&chars, 0);
    if start == chars.len() {
        return None;
    }
    let end: usize = skip_token(&chars, start);
    let ghost range = chars@.subrange(start as int, end as int);
    let mut dash: usize = start;
    while dash < end && chars[dash] != '-'
        invariant
            start <= dash <= end <= chars@.len(),
            forall|k: int| start <= k < dash ==> chars@[k] != '-',
        decreases end - dash,
    {
        dash += 1;
    }
    if dash == end {
        assert forall|d: int| !splits_at(range, d) by {
            if 0 <= d < range.len() {
                assert(range[d] == chars@[start + d]);
            }
        }
        return None;
    }
    let low = parse_hex(&chars, start, dash);
    let high = parse_hex(&chars, dash + 1, end);
    let ghost first = dash - start;
    proof {
        assert(range.subrange(0, first) =~= chars@.subrange(start as int, dash as int));
        assert(range.subrange(first + 1, range.len() as int) =~= chars@.subrange(
            dash + 1,
            end as int,
        ));
        assert(range[first] == '-');
        assert forall|i: int| 0 <= i < first implies range[i] != '-' by {
            assert(range[i] == chars@[start + i]);
        }
        assert forall|d: int| splits_at(range, d) implies d == first by {
            lemma_split_is_first_dash(range, d, first);
        }
    }
    match (low, high) {
        (Some(low_addr), Some(high_addr)) => {
            assert(splits_at(range, first));
            let mut field_start: usize = start;
            let mut pos: usize = end;
            let mut n: usize = 0;
            while n < 5
                invariant
                    n <= 5,
                    field_start <= pos <= chars@.len(),
                    (field_start as int, pos as int) == token_bounds(chars@, n as nat),
                decreases 5 - n,
            {
                field_start = skip_spaces(&chars, pos);
                pos = skip_token(&chars, field_start);
                n += 1;
            }
            let path = if field_start < chars.len() {
                Some(line.substring_char(field_start, pos).to_owned())
            } else {
                None
            };
            Some(MemoryMap { low_addr, high_addr, path })
        },
        _ => None,
    }
}

} // verus!
