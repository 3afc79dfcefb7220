//! Character-level scanning: finding separators, cutting a text into lines,
//! and reading unsigned decimal numbers.

use vstd::prelude::*;

verus! {

/// The first position at or after `from` at which `s` holds `c`; `s.len()`
/// where there is none.
pub open spec fn next_at(s: Seq<char>, c: char, from: int) -> int
    decreases s.len() - from,
{
    if from < 0 || from >= s.len() {
        s.len() as int
    } else if s[from] == c {
        from
    } else {
        next_at(s, c, from + 1)
    }
}

/// `next_at` lies between `from` and the end, names an occurrence of `c` when
/// it is inside `s`, and nothing before it is `c`.
pub proof fn lemma_next_at(s: Seq<char>, c: char, from: int)
    requires
        0 <= from <= s.len(),
    ensures
        from <= next_at(s, c, from) <= s.len(),
        next_at(s, c, from) < s.len() ==> s[next_at(s, c, from)] == c,
        forall|i: int| from <= i < next_at(s, c, from) ==> s[i] != c,
    decreases s.len() - from,
{
    if from < s.len() && s[from] != c {
        lemma_next_at(s, c, from + 1);
    }
}

/// Finds the first `c` in `s` at or after `from`.
pub fn find_from(s: &Vec<char>, c: char, from: usize) -> (r: usize)
    requires
        from <= s.len(),
    ensures
        r == next_at(s@, c, from as int),
        from <= r <= s.len(),
        r < s.len() ==> s@[r as int] == c,
        forall|i: int| from <= i < r ==> s@[i] != c,
{
    let mut i: usize = from;
    proof {
        lemma_next_at(s@, c, from as int);
    }
    while i < s.len() && s[i] != c
        invariant
            from <= i <= s.len(),
            next_at(s@, c, from as int) == next_at(s@, c, i as int),
        decreases s.len() - i,
    {
        i += 1;
    }
    i
}

/// The characters of `data`, one element each.
pub fn chars_of(data: &str) -> (r: Vec<char>)
    ensures
        r@ == data@,
{
    let mut out: Vec<char> = Vec::new();
    for c in it: data.chars()
        invariant
            out@ == it.seq().take(it.index()),
            it.seq() == data@,
    {
        out.push(c);
    }
    out
}

/// Where a line that starts at `from` and whose newline stands at `nl` ends:
/// before the newline, and before a carriage return that directly precedes it.
/// A last line without a newline keeps a trailing carriage return.
pub open spec fn line_end(s: Seq<char>, from: int, nl: int) -> int {
    if nl < s.len() && from < nl && s[nl - 1] == '\r' {
        nl - 1
    } else {
        nl
    }
}

/// The lines of `s` that begin at or after position `from`, which is the start
/// of a line.
pub open spec fn lines_from(s: Seq<char>, from: int) -> Seq<Seq<char>>
    decreases s.len() + 1 - from,
    via lines_from_decreases
{
    if from < 0 || from >= s.len() {
        Seq::empty()
    } else {
        let nl = next_at(s, '\n', from);
        seq![s.subrange(from, line_end(s, from, nl))] + lines_from(s, nl + 1)
    }
}

#[via_fn]
proof fn lines_from_decreases(s: Seq<char>, from: int) {
    if 0 <= from < s.len() {
        lemma_next_at(s, '\n', from);
    }
}

/// The lines of a text. Lines end at `\n` or `\r\n`; the terminator is not part
/// of the line, and the last line needs none.
pub open spec fn lines(s: Seq<char>) -> Seq<Seq<char>> {
    lines_from(s, 0)
}

/// Whether `c` is a decimal digit.
pub open spec fn is_digit(c: char) -> bool {
    '0' <= c <= '9'
}

/// The value of a decimal digit.
pub open spec fn digit_value(c: char) -> nat {
    (c as int - '0' as int) as nat
}

/// Whether `s` holds decimal digits only.
pub open spec fn all_digits(s: Seq<char>) -> bool {
    forall|i: int| 0 <= i < s.len() ==> is_digit(#[trigger] s[i])
}

/// The value of a string of decimal digits, most significant first.
pub open spec fn decimal(s: Seq<char>) -> nat
    decreases s.len(),
{
    if s.len() == 0 {
        0
    } else {
        decimal(s.drop_last()) * 10 + digit_value(s.last())
    }
}

/// The digits of a number field: the field without one leading `+`.
pub open spec fn digits_of(s: Seq<char>) -> Seq<char> {
    if s.len() > 0 && s[0] == '+' {
        s.subrange(1, s.len() as int)
    } else {
        s
    }
}

/// The number that a field denotes, where it denotes one that is at most
/// `max`: an optional `+`, then one or more decimal digits and nothing else.
pub open spec fn number(s: Seq<char>, max: nat) -> Option<nat> {
    let d = digits_of(s);
    if d.len() > 0 && all_digits(d) && decimal(d) <= max {
        Some(decimal(d))
    } else {
        None
    }
}

/// Appending digits never lowers the value.
pub proof fn lemma_decimal_prefix(s: Seq<char>, k: int)
    requires
        0 <= k <= s.len(),
    ensures
        decimal(s.take(k)) <= decimal(s),
    decreases s.len() - k,
{
    if k == s.len() {
        assert(s.take(k) =~= s);
    } else {
        lemma_decimal_prefix(s, k + 1);
        assert(s.take(k + 1).drop_last() =~= s.take(k));
    }
}

/// The value of the decimal digit `c`.
pub fn digit_of(c: char) -> (r: Option<u64>)
    ensures
        r is Some <==> is_digit(c),
        r matches Some(v) ==> v == digit_value(c) && v <= 9,
{
    if '0' <= c && c <= '9' {
        Some((c as u32 - '0' as u32) as u64)
    } else {
        None
    }
}

/// Reads the number that `s[from..to]` denotes, where it is at most `max`.
pub fn parse_number(s: &Vec<char>, from: usize, to: usize, max: u64) -> (r: Option<u64>)
    requires
        from <= to <= s.len(),
    ensures
        match number(s@.subrange(from as int, to as int), max as nat) {
            Some(v) => r == Some(v as u64),
            None => r is None,
        },
{
    let ghost field = s@.subrange(from as int, to as int);
    let first: usize = if from < to && s[from] == '+' {
        from + 1
    } else {
        from
    };
    let ghost d = digits_of(field);
    assert(d =~= s@.subrange(first as int, to as int));
    if first == to {
        return None;
    }
    let mut acc: u64 = 0;
    let mut i: usize = first;
    while i < to
        invariant
            first <= i <= to <= s.len(),
            d == s@.subrange(first as int, to as int),
            d == digits_of(s@.subrange(from as int, to as int)),
            acc == decimal(d.take(i - first)),
            acc <= max,
            forall|j: int| 0 <= j < i - first ==> is_digit(#[trigger] d[j]),
        decreases to - i,
    {
        let ghost k = i - first;
        proof {
            assert(d.take(k + 1).drop_last() =~= d.take(k));
            assert(d.take(k + 1).last() == s@[i as int]);
            lemma_decimal_prefix(d, k + 1);
        }
        match digit_of(s[i]) {
            None => {
                assert(!is_digit(d[k]));
                return None;
            },
            Some(v) => {
                if v > max || acc > (max - v) / 10 {
                    assert(decimal(d.take(k + 1)) > max);
                    return None;
                }
                acc = acc * 10 + v;
            },
        }
        i += 1;
    }
    assert(d.take(to - first) =~= d);
    Some(acc)
}

/// `String::push`: the string afterwards is the string before with `c` added
/// at its end.
pub assume_specification[ String::push ](s: &mut String, c: char)
    ensures
        final(s)@ == old(s)@.push(c),
;

/// The characters `s[from..to]` as a string.
pub fn string_of(s: &Vec<char>, from: usize, to: usize) -> (r: String)
    requires
        from <= to <= s.len(),
    ensures
        r@ == s@.subrange(from as int, to as int),
{
    let mut out = String::new();
    let mut i: usize = from;
    while i < to
        invariant
            from <= i <= to <= s.len(),
            out@ == s@.subrange(from as int, i as int),
        decreases to - i,
    {
        out.push(s[i]);
        i += 1;
        assert(out@ =~= s@.subrange(from as int, i as int));
    }
    out
}

/// The characters `s[from..to]` as a vector of their own.
pub fn slice_of(s: &Vec<char>, from: usize, to: usize) -> (r: Vec<char>)
    requires
        from <= to <= s.len(),
    ensures
        r@ == s@.subrange(from as int, to as int),
{
    let mut out: Vec<char> = Vec::new();
    let mut i: usize = from;
    while i < to
        invariant
            from <= i <= to <= s.len(),
            out@ == s@.subrange(from as int, i as int),
        decreases to - i,
    {
        out.push(s[i]);
        i += 1;
        assert(out@ =~= s@.subrange(from as int, i as int));
    }
    out
}

} // verus!
