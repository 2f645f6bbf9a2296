//! Reading the summary line of a diff.
//!
//! The line has up to three fields, parted by commas: files changed, lines
//! inserted, lines deleted. The size of the diff is the number of lines
//! inserted plus the number of lines deleted; a field of the two that is
//! missing, or that does not start with a number and a space, counts zero.

use vstd::prelude::*;
use vstd::string::*;

verus! {

/// Why the summary line of a diff gives no size.
#[derive(Clone, Copy, Debug, PartialEq, Eq, Structural)]
pub enum DiffStatError {
    /// The line has more than three fields.
    TooManyFields,
    /// The size does not fit into 64 bits.
    TooLarge,
}

/// The first position at which `c` stands in `s`; the length of `s` where
/// it stands nowhere.
pub open spec fn first_index(s: Seq<char>, c: char) -> int
    decreases s.len(),
{
    if s.len() == 0 {
        0
    } else if s[0] == c {
        0
    } else {
        1 + first_index(s.drop_first(), c)
    }
}

/// A character that counts as white space.
pub open spec fn is_space(c: char) -> bool {
    let u = c as u32;
    u == 0x20 || (0x09 <= u <= 0x0d) || u == 0x85 || u == 0xa0 || u == 0x1680 || (0x2000 <= u
        <= 0x200a) || u == 0x2028 || u == 0x2029 || u == 0x202f || u == 0x205f || u == 0x3000
}

/// The number of white space characters that `s` starts with.
pub open spec fn leading_spaces(s: Seq<char>) -> int
    decreases s.len(),
{
    if s.len() == 0 {
        0
    } else if is_space(s[0]) {
        1 + leading_spaces(s.drop_first())
    } else {
        0
    }
}

/// The number of white space characters that `s` ends with.
pub open spec fn trailing_spaces(s: Seq<char>) -> int
    decreases s.len(),
{
    if s.len() == 0 {
        0
    } else if is_space(s.last()) {
        1 + trailing_spaces(s.drop_last())
    } else {
        0
    }
}

/// `s` without the white space at its ends.
pub open spec fn trimmed(s: Seq<char>) -> Seq<char> {
    if leading_spaces(s) >= s.len() {
        Seq::empty()
    } else {
        s.subrange(leading_spaces(s), s.len() - trailing_spaces(s))
    }
}

/// The value of a decimal digit.
pub open spec fn digit_value(c: char) -> Option<nat> {
    let u = c as u32;
    if 0x30 <= u <= 0x39 {
        Some((u - 0x30) as nat)
    } else {
        None
    }
}

/// The value of a sequence of decimal digits; nothing where the sequence is
/// empty or holds anything else.
pub open spec fn digits_value(s: Seq<char>) -> Option<nat>
    decreases s.len(),
{
    if s.len() == 0 {
        None
    } else if s.len() == 1 {
        digit_value(s[0])
    } else {
        match (digits_value(s.drop_last()), digit_value(s.last())) {
            (Some(high), Some(low)) => Some(high * 10 + low),
            _ => None,
        }
    }
}

/// The number that `s` is: decimal digits, with or without a plus sign in
/// front, of a value that fits into 64 bits.
pub open spec fn number(s: Seq<char>) -> Option<u64> {
    let digits = if s.len() > 0 && s[0] == '+' {
        s.drop_first()
    } else {
        s
    };
    match digits_value(digits) {
        Some(v) => if v <= u64::MAX {
            Some(v as u64)
        } else {
            None
        },
        None => None,
    }
}

/// The number that a field starts with: what stands before the first space
/// of the field, white space at the ends of the field apart. Zero where
/// there is no space, or no number before it.
pub open spec fn field_count(field: Seq<char>) -> u64 {
    let t = trimmed(field);
    let i = first_index(t, ' ');
    if i < t.len() {
        match number(t.subrange(0, i)) {
            Some(v) => v,
            None => 0,
        }
    } else {
        0
    }
}

/// What follows the first comma of `s`.
pub open spec fn after_comma(s: Seq<char>) -> Option<Seq<char>> {
    let i = first_index(s, ',');
    if i < s.len() {
        Some(s.subrange(i + 1, s.len() as int))
    } else {
        None
    }
}

/// What stands before the first comma of `s`.
pub open spec fn before_comma(s: Seq<char>) -> Seq<char> {
    s.subrange(0, first_index(s, ','))
}

/// The number of the field that `rest` starts with; zero where there is no
/// field.
pub open spec fn next_count(rest: Option<Seq<char>>) -> u64 {
    match rest {
        Some(s) => field_count(before_comma(s)),
        None => 0,
    }
}

/// What follows the field that `rest` starts with.
pub open spec fn next_rest(rest: Option<Seq<char>>) -> Option<Seq<char>> {
    match rest {
        Some(s) => after_comma(s),
        None => None,
    }
}

/// The size of the diff that the summary line tells of.
pub open spec fn diff_size(line: Seq<char>) -> Result<u64, DiffStatError> {
    if line.len() == 0 {
        Ok(0)
    } else {
        let second = after_comma(line);
        let third = next_rest(second);
        if next_rest(third) is Some {
            Err(DiffStatError::TooManyFields)
        } else if next_count(second) + next_count(third) > u64::MAX {
            Err(DiffStatError::TooLarge)
        } else {
            Ok((next_count(second) + next_count(third)) as u64)
        }
    }
}

proof fn lemma_first_index(s: Seq<char>, c: char)
    ensures
        0 <= first_index(s, c) <= s.len(),
        first_index(s, c) < s.len() ==> s[first_index(s, c)] == c,
        forall|k: int| 0 <= k < first_index(s, c) ==> s[k] != c,
    decreases s.len(),
{
    if s.len() > 0 && s[0] != c {
        lemma_first_index(s.drop_first(), c);
        assert forall|k: int| 0 <= k < first_index(s, c) implies s[k] != c by {
            if k > 0 {
                assert(s.drop_first()[k - 1] == s[k]);
            }
        }
    }
}

proof fn lemma_first_index_is(s: Seq<char>, c: char, i: int)
    requires
        0 <= i <= s.len(),
        i < s.len() ==> s[i] == c,
        forall|k: int| 0 <= k < i ==> s[k] != c,
    ensures
        first_index(s, c) == i,
{
    lemma_first_index(s, c);
    let f = first_index(s, c);
    if f < i {
        assert(s[f] != c);
    }
    if i < f {
        assert(s[i] != c);
    }
}

proof fn lemma_leading_spaces_is(s: Seq<char>, i: int)
    requires
        0 <= i <= s.len(),
        i < s.len() ==> !is_space(s[i]),
        forall|k: int| 0 <= k < i ==> is_space(s[k]),
    ensures
        leading_spaces(s) == i,
    decreases s.len(),
{
    if s.len() > 0 && i > 0 {
        assert(is_space(s[0]));
        let t = s.drop_first();
        assert forall|k: int| 0 <= k < i - 1 implies is_space(t[k]) by {
            assert(t[k] == s[k + 1]);
        }
        lemma_leading_spaces_is(t, i - 1);
    }
}

proof fn lemma_trailing_spaces_is(s: Seq<char>, i: int)
    requires
        0 <= i <= s.len(),
        i < s.len() ==> !is_space(s[s.len() - 1 - i]),
        forall|k: int| s.len() - i <= k < s.len() ==> is_space(s[k]),
    ensures
        trailing_spaces(s) == i,
    decreases s.len(),
{
    if s.len() > 0 && i > 0 {
        assert(is_space(s[s.len() - 1]));
        let t = s.drop_last();
        assert forall|k: int| t.len() - (i - 1) <= k < t.len() implies is_space(t[k]) by {
            assert(t[k] == s[k]);
        }
        lemma_trailing_spaces_is(t, i - 1);
    }
}

/// Whether a character counts as white space.
pub fn char_is_space(c: char) -> (r: bool)
    ensures
        r == is_space(c),
{
    let u = c as u32;
    u == 0x20 || (0x09 <= u && u <= 0x0d) || u == 0x85 || u == 0xa0 || u == 0x1680 || (0x2000 <= u
        && u <= 0x200a) || u == 0x2028 || u == 0x2029 || u == 0x202f || u == 0x205f || u == 0x3000
}

/// The first position from `start` on, before `end`, at which `c` stands;
/// `end` where it stands nowhere in between.
fn find_from(chars: &Vec<char>, start: usize, end: usize, c: char) -> (i: usize)
    requires
        start <= end <= chars.len(),
    ensures
        start <= i <= end,
        i - start == first_index(chars@.subrange(start as int, end as int), c),
{
    let ghost s = chars@.subrange(start as int, end as int);
    let mut i = start;
    while i < end && chars[i] != c
        invariant
            start <= i <= end,
            end <= chars.len(),
            s == chars@.subrange(start as int, end as int),
            forall|k: int| 0 <= k < i - start ==> s[k] != c,
        decreases end - i,
    {
        i += 1;
    }
    proof {
        lemma_first_index_is(s, c, i - start);
    }
    i
}

/// The number that stands in `chars` from `start` to `end`.
#[verifier::loop_isolation(false)]
fn parse_number(chars: &Vec<char>, start: usize, end: usize) -> (r: Option<u64>)
    requires
        start <= end <= chars.len(),
    ensures
        r == number(chars@.subrange(start as int, end as int)),
{
    let ghost s = chars@.subrange(start as int, end as int);
    let mut i = start;
    if start < end && chars[start] == '+' {
        i = start + 1;
    }
    let ghost digits = chars@.subrange(i as int, end as int);
    assert(digits =~= if s.len() > 0 && s[0] == '+' {
        s.drop_first()
    } else {
        s
    });
    if i == end {
        return None;
    }
    let first = i;
    let mut value: u64 = 0;
    let mut fits = true;
    while i < end
        invariant
            first <= i <= end,
            end <= chars.len(),
            digits == chars@.subrange(first as int, end as int),
            i == first ==> value == 0 && fits,
            i > first ==> match digits_value(digits.subrange(0, i - first)) {
                Some(v) => (fits ==> v == value) && (!fits ==> v > u64::MAX),
                None => false,
            },
        decreases end - i,
    {
        let c = chars[i];
        let u = c as u32;
        let ghost done = digits.subrange(0, i - first);
        let ghost more = digits.subrange(0, i + 1 - first);
        proof {
            assert(more.drop_last() =~= done);
            assert(more.last() == c);
        }
        if !(0x30 <= u && u <= 0x39) {
            proof {
                assert(digit_value(c) is None);
                assert(digits_value(more) is None);
                lemma_digits_prefix(digits, i + 1 - first);
            }
            return None;
        }
        let low = (u - 0x30) as u64;
        let ghost old_value = value;
        let ghost old_fits = fits;
        if fits {
            if value > (u64::MAX - low) / 10 {
                fits = false;
            } else {
                value = value * 10 + low;
            }
        }
        proof {
            assert(digit_value(c) == Some(low as nat));
            if i > first {
                let high = digits_value(done).unwrap();
                assert(more.len() > 1);
                assert(digits_value(more) == Some(high * 10 + low as nat));
                if old_fits {
                    assert(high == old_value);
                    if !fits {
                        assert(old_value >= (u64::MAX - low) / 10 + 1);
                        assert(old_value * 10 + low > u64::MAX);
                    }
                } else {
                    assert(high > u64::MAX);
                    assert(high * 10 + low > u64::MAX);
                }
            } else {
                assert(more.len() == 1);
                assert(more[0] == c);
                assert(digits_value(more) == Some(low as nat));
                assert(old_value == 0 && old_fits);
            }
        }
        i += 1;
    }
    assert(digits.subrange(0, end - first) =~= digits);
    if fits {
        Some(value)
    } else {
        None
    }
}

/// Digits of which a front part has no value have no value.
proof fn lemma_digits_prefix(s: Seq<char>, n: int)
    requires
        0 < n <= s.len(),
        digits_value(s.subrange(0, n)) is None,
    ensures
        digits_value(s) is None,
    decreases s.len() - n,
{
    if n < s.len() {
        let next = s.subrange(0, n + 1);
        assert(next.drop_last() =~= s.subrange(0, n));
        lemma_digits_prefix(s, n + 1);
    } else {
        assert(s.subrange(0, n) =~= s);
    }
}

/// Where the text from `start` to `end` begins and ends once the white
/// space at its ends is left out.
#[verifier::loop_isolation(false)]
pub fn trim_bounds(chars: &Vec<char>, start: usize, end: usize) -> (r: (usize, usize))
    requires
        start <= end <= chars.len(),
    ensures
        start <= r.0 <= r.1 <= end,
        chars@.subrange(r.0 as int, r.1 as int) == trimmed(chars@.subrange(start as int, end as int)),
{
    let ghost field = chars@.subrange(start as int, end as int);
    let mut from = start;
    while from < end && char_is_space(chars[from])
        invariant
            start <= from <= end,
            end <= chars.len(),
            field == chars@.subrange(start as int, end as int),
            forall|k: int| 0 <= k < from - start ==> is_space(field[k]),
        decreases end - from,
    {
        from += 1;
    }
    proof {
        lemma_leading_spaces_is(field, from - start);
    }
    if from == end {
        assert(chars@.subrange(from as int, from as int) =~= Seq::<char>::empty());
        return (from, from);
    }
    let mut to = end;
    while to > from && char_is_space(chars[to - 1])
        invariant
            from < to <= end,
            end <= chars.len(),
            field == chars@.subrange(start as int, end as int),
            !is_space(chars[from as int]),
            forall|k: int| to - start <= k < end - start ==> is_space(field[k]),
        decreases to,
    {
        assert(field[to - 1 - start] == chars[to - 1]);
        to -= 1;
    }
    proof {
        assert(to > from);
        assert(field[to - 1 - start] == chars[to - 1]);
        lemma_trailing_spaces_is(field, end - to);
        assert(trimmed(field) =~= chars@.subrange(from as int, to as int));
    }
    (from, to)
}

/// The number that the field from `start` to `end` starts with.
fn count_field(chars: &Vec<char>, start: usize, end: usize) -> (r: u64)
    requires
        start <= end <= chars.len(),
    ensures
        r == field_count(chars@.subrange(start as int, end as int)),
{
    let (from, to) = trim_bounds(chars, start, end);
    if from == to {
        proof {
            lemma_first_index(Seq::<char>::empty(), ' ');
            assert(chars@.subrange(from as int, to as int) =~= Seq::<char>::empty());
        }
        return 0;
    }
    let space = find_from(chars, from, to, ' ');
    if space == to {
        return 0;
    }
    proof {
        assert(chars@.subrange(from as int, to as int).subrange(0, space - from) =~= chars@.subrange(
            from as int,
            space as int,
        ));
    }
    match parse_number(chars, from, space) {
        Some(v) => v,
        None => 0,
    }
}

/// The number of the field that starts at `start`, and where the field
/// after it starts, if there is one. `start` is the length of the line
/// plus one where there is no field.
fn count_next(chars: &Vec<char>, start: Option<usize>) -> (r: (u64, Option<usize>))
    requires
        match start {
            Some(i) => i <= chars.len(),
            None => true,
        },
    ensures
        r.0 == next_count(rest_at(chars@, start)),
        rest_at(chars@, r.1) == next_rest(rest_at(chars@, start)),
        match r.1 {
            Some(i) => i <= chars.len(),
            None => true,
        },
{
    match start {
        None => (0, None),
        Some(from) => {
            let end = chars.len();
            let ghost s = chars@.subrange(from as int, end as int);
            let comma = find_from(chars, from, end, ',');
            proof {
                assert(s.subrange(0, comma - from) =~= chars@.subrange(from as int, comma as int));
            }
            let count = count_field(chars, from, comma);
            if comma < end {
                proof {
                    assert(s.subrange(comma - from + 1, s.len() as int) =~= chars@.subrange(
                        comma + 1,
                        end as int,
                    ));
                }
                (count, Some(comma + 1))
            } else {
                (count, None)
            }
        },
    }
}

/// What stands in `s` from a position on.
pub open spec fn rest_at(s: Seq<char>, start: Option<usize>) -> Option<Seq<char>> {
    match start {
        Some(i) => Some(s.subrange(i as int, s.len() as int)),
        None => None,
    }
}

/// The characters of a text.
pub fn chars_of(text: &str) -> (r: Vec<char>)
    ensures
        r@ == text@,
{
    let len = text.unicode_len();
    let mut r: Vec<char> = Vec::new();
    let mut i: usize = 0;
    while i < len
        invariant
            i <= len,
            len == text@.len(),
            r.len() == i,
            forall|k: int| 0 <= k < i ==> r[k] == text@[k],
        decreases len - i,
    {
        r.push(text.get_char(i));
        i += 1;
    }
    assert(r@ =~= text@);
    r
}

/// The size of the diff that the summary line tells of: the lines inserted
/// plus the lines deleted. An empty line tells of an empty diff.
pub fn diffstat_count(line: &str) -> (r: Result<u64, DiffStatError>)
    ensures
        r == diff_size(line@),
{
    let chars = chars_of(line);
    if chars.len() == 0 {
        return Ok(0);
    }
    let ghost s = chars@;
    assert(s.subrange(0, s.len() as int) =~= s);
    let first = count_next(&chars, Some(0));
    let second = count_next(&chars, first.1);
    let third = count_next(&chars, second.1);
    assert(rest_at(s, first.1) == after_comma(s));
    if third.1.is_some() {
        return Err(DiffStatError::TooManyFields);
    }
    if second.0 > u64::MAX - third.0 {
        return Err(DiffStatError::TooLarge);
    }
    Ok(second.0 + third.0)
}

} // verus!
