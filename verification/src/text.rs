//! Text primitives shared by the protocol code: whitespace tokens, decimal
//! numbers, prefix and substring tests, and the building of command lines.
//!
//! Every string is modelled by its sequence of characters (`Seq<char>`).

use vstd::prelude::*;
use vstd::string::StrSliceExecFns;
use vstd::string::StringExecFns;

verus! {

// ---------------------------------------------------------------------------
// Characters
// ---------------------------------------------------------------------------

/// The characters that separate tokens: the Unicode `White_Space` set.
pub open spec fn is_space(c: char) -> bool {
    let n = c as u32;
    ||| (0x09 <= n && n <= 0x0D)
    ||| n == 0x20
    ||| n == 0x85
    ||| n == 0xA0
    ||| n == 0x1680
    ||| (0x2000 <= n && n <= 0x200A)
    ||| n == 0x2028
    ||| n == 0x2029
    ||| n == 0x202F
    ||| n == 0x205F
    ||| n == 0x3000
}

/// Whether `c` separates tokens.
pub fn is_whitespace(c: char) -> (b: bool)
    ensures
        b == is_space(c),
{
    let n: u32 = c as u32;
    (0x09 <= n && n <= 0x0D) || n == 0x20 || n == 0x85 || n == 0xA0 || n == 0x1680 || (0x2000 <= n
        && n <= 0x200A) || n == 0x2028 || n == 0x2029 || n == 0x202F || n == 0x205F || n == 0x3000
}

/// The characters of `s`, in order.
pub fn chars_of(s: &str) -> (v: Vec<char>)
    ensures
        v@ == s@,
{
    let mut v: Vec<char> = Vec::new();
    for c in it: s.chars()
        invariant
            v@ == it.seq().take(it.index() as int),
            it.seq() == s@,
    {
        v.push(c);
    }
    v
}

// ---------------------------------------------------------------------------
// Whitespace tokens
// ---------------------------------------------------------------------------

/// The index of the first character at or after `i` that is not a separator,
/// or the length of `s` if there is none.
pub open spec fn skip_spaces(s: Seq<char>, i: int) -> int
    decreases s.len() - i,
{
    if 0 <= i < s.len() && is_space(s[i]) {
        skip_spaces(s, i + 1)
    } else {
        i
    }
}

/// The index of the first separator at or after `i`, or the length of `s` if
/// there is none.
pub open spec fn skip_word(s: Seq<char>, i: int) -> int
    decreases s.len() - i,
{
    if 0 <= i < s.len() && !is_space(s[i]) {
        skip_word(s, i + 1)
    } else {
        i
    }
}

/// The tokens of `s` that begin at or after index `i`.
pub open spec fn tokens_from(s: Seq<char>, i: int) -> Seq<Seq<char>>
    decreases s.len() - i,
    via tokens_from_decreases
{
    let start = skip_spaces(s, i);
    let end = skip_word(s, start);
    if 0 <= i && start < s.len() {
        seq![s.subrange(start, end)] + tokens_from(s, end)
    } else {
        Seq::empty()
    }
}

#[via_fn]
proof fn tokens_from_decreases(s: Seq<char>, i: int) {
    if 0 <= i {
        lemma_skip_spaces(s, i);
        lemma_skip_word(s, skip_spaces(s, i));
    }
}

/// The tokens of `s`: its maximal runs of characters that are not separators,
/// from left to right.
pub open spec fn tokens(s: Seq<char>) -> Seq<Seq<char>> {
    tokens_from(s, 0)
}

/// `skip_spaces` stops at the first character that is no separator.
pub proof fn lemma_skip_spaces(s: Seq<char>, i: int)
    requires
        0 <= i,
    ensures
        i <= skip_spaces(s, i),
        i <= s.len() ==> skip_spaces(s, i) <= s.len(),
        forall|k: int| i <= k < skip_spaces(s, i) ==> is_space(#[trigger] s[k]),
        skip_spaces(s, i) < s.len() ==> !is_space(s[skip_spaces(s, i)]),
    decreases s.len() - i,
{
    if i < s.len() && is_space(s[i]) {
        lemma_skip_spaces(s, i + 1);
    }
}

/// `skip_word` stops at the first separator, and moves past a character that
/// is none.
pub proof fn lemma_skip_word(s: Seq<char>, i: int)
    requires
        0 <= i,
    ensures
        i <= skip_word(s, i),
        i <= s.len() ==> skip_word(s, i) <= s.len(),
        forall|k: int| i <= k < skip_word(s, i) ==> !is_space(#[trigger] s[k]),
        skip_word(s, i) < s.len() ==> is_space(s[skip_word(s, i)]),
        i < s.len() && !is_space(s[i]) ==> i < skip_word(s, i),
    decreases s.len() - i,
{
    if i < s.len() && !is_space(s[i]) {
        lemma_skip_word(s, i + 1);
    }
}

/// Every token has a character, and none of its characters is a separator.
pub proof fn lemma_tokens_are_words(s: Seq<char>, k: int)
    requires
        0 <= k < tokens(s).len(),
    ensures
        tokens(s)[k].len() > 0,
        forall|j: int| 0 <= j < tokens(s)[k].len() ==> !is_space(#[trigger] tokens(s)[k][j]),
{
    lemma_tokens_from_are_words(s, 0, k);
}

proof fn lemma_tokens_from_are_words(s: Seq<char>, i: int, k: int)
    requires
        0 <= i,
        0 <= k < tokens_from(s, i).len(),
    ensures
        tokens_from(s, i)[k].len() > 0,
        forall|j: int|
            0 <= j < tokens_from(s, i)[k].len() ==> !is_space(#[trigger] tokens_from(s, i)[k][j]),
    decreases s.len() - i,
{
    lemma_skip_spaces(s, i);
    let start = skip_spaces(s, i);
    lemma_skip_word(s, start);
    let end = skip_word(s, start);
    let first = s.subrange(start, end);
    let rest = tokens_from(s, end);
    assert(tokens_from(s, i) == seq![first] + rest);
    if k == 0 {
        assert(tokens_from(s, i)[0] == first);
        assert forall|j: int| 0 <= j < first.len() implies !is_space(#[trigger] first[j]) by {
            assert(first[j] == s[start + j]);
        }
    } else {
        assert(tokens_from(s, i)[k] == rest[k - 1]);
        lemma_tokens_from_are_words(s, end, k - 1);
    }
}

/// Splits `line` into its whitespace-separated tokens.
pub fn split_whitespace(line: &str) -> (out: Vec<String>)
    ensures
        out.deep_view() == tokens(line@),
        total_length(out.deep_view()) <= usize::MAX,
{
    let chars = chars_of(line);
    proof {
        lemma_tokens_fit(line@);
    }
    let n = chars.len();
    let mut out: Vec<String> = Vec::new();
    let mut i: usize = 0;
    while i < n
        invariant
            chars@ == line@,
            n == chars.len(),
            i <= n,
            tokens(line@) == out.deep_view() + tokens_from(line@, i as int),
        decreases n - i,
    {
        let ghost from = i as int;
        while i < n && is_whitespace(chars[i])
            invariant
                chars@ == line@,
                n == chars.len(),
                from <= i <= n,
                skip_spaces(line@, from) == skip_spaces(line@, i as int),
            decreases n - i,
        {
            i += 1;
        }
        let start = i;
        while i < n && !is_whitespace(chars[i])
            invariant
                chars@ == line@,
                n == chars.len(),
                start <= i <= n,
                skip_word(line@, start as int) == skip_word(line@, i as int),
            decreases n - i,
        {
            i += 1;
        }
        proof {
            lemma_skip_spaces(line@, from);
            lemma_skip_word(line@, start as int);
        }
        if start < n {
            let token = line.substring_char(start, i).to_owned();
            let ghost before = out.deep_view();
            out.push(token);
            assert(out.deep_view() =~= before + seq![line@.subrange(start as int, i as int)]);
        }
    }
    assert(tokens_from(line@, n as int) =~= Seq::<Seq<char>>::empty());
    out
}

/// The number of characters of all `tokens` together.
pub open spec fn total_length(tokens: Seq<Seq<char>>) -> nat
    decreases tokens.len(),
{
    if tokens.len() == 0 {
        0
    } else {
        total_length(tokens.drop_last()) + tokens.last().len()
    }
}

/// The first tokens have no more characters than all of them.
pub proof fn lemma_total_length_grows(tokens: Seq<Seq<char>>, k: int)
    requires
        0 <= k <= tokens.len(),
    ensures
        total_length(tokens.take(k)) <= total_length(tokens),
    decreases tokens.len() - k,
{
    if k == tokens.len() {
        assert(tokens.take(k) =~= tokens);
    } else {
        lemma_total_length_grows(tokens, k + 1);
        assert(tokens.take(k + 1).drop_last() =~= tokens.take(k));
    }
}

proof fn lemma_total_length_front(first: Seq<char>, rest: Seq<Seq<char>>)
    ensures
        total_length(seq![first] + rest) == first.len() + total_length(rest),
    decreases rest.len(),
{
    let all = seq![first] + rest;
    if rest.len() == 0 {
        assert(all.drop_last() =~= Seq::<Seq<char>>::empty());
        assert(all.last() == first);
        assert(total_length(all.drop_last()) == 0);
    } else {
        lemma_total_length_front(first, rest.drop_last());
        assert(all.drop_last() =~= seq![first] + rest.drop_last());
        assert(all.last() == rest.last());
    }
}

proof fn lemma_tokens_from_fit(s: Seq<char>, i: int)
    requires
        0 <= i <= s.len(),
    ensures
        total_length(tokens_from(s, i)) <= s.len() - i,
    decreases s.len() - i,
{
    lemma_skip_spaces(s, i);
    let start = skip_spaces(s, i);
    lemma_skip_word(s, start);
    let end = skip_word(s, start);
    if start < s.len() {
        lemma_tokens_from_fit(s, end);
        lemma_total_length_front(s.subrange(start, end), tokens_from(s, end));
    }
}

/// The tokens of a text together have no more characters than the text.
pub proof fn lemma_tokens_fit(s: Seq<char>)
    ensures
        total_length(tokens(s)) <= s.len(),
{
    lemma_tokens_from_fit(s, 0);
}

/// How often `c` stands in `s`.
pub open spec fn count_of(s: Seq<char>, c: char) -> nat
    decreases s.len(),
{
    if s.len() == 0 {
        0
    } else if s.last() == c {
        count_of(s.drop_last(), c) + 1
    } else {
        count_of(s.drop_last(), c)
    }
}

/// A character stands in a text no more often than the text is long, and
/// stands in it at all just when it is counted.
pub proof fn lemma_count_of(s: Seq<char>, c: char)
    ensures
        count_of(s, c) <= s.len(),
        count_of(s, c) > 0 <==> s.contains(c),
    decreases s.len(),
{
    if s.len() > 0 {
        lemma_count_of(s.drop_last(), c);
        if s.drop_last().contains(c) {
            let k = choose|k: int| 0 <= k < s.drop_last().len() && s.drop_last()[k] == c;
            assert(s[k] == c);
        }
        if s.contains(c) && s.last() != c {
            let k = choose|k: int| 0 <= k < s.len() && s[k] == c;
            assert(s.drop_last()[k] == c);
        }
        if s.last() == c {
            assert(s[s.len() - 1] == c);
        }
    }
}

/// Counts how often `c` stands in `s`.
pub fn count_char(s: &Vec<char>, c: char) -> (out: usize)
    ensures
        out == count_of(s@, c),
{
    let mut out: usize = 0;
    let mut i: usize = 0;
    assert(s@.take(0) =~= Seq::<char>::empty());
    while i < s.len()
        invariant
            i <= s.len(),
            out == count_of(s@.take(i as int), c),
            out <= i,
        decreases s.len() - i,
    {
        assert(s@.take(i + 1).drop_last() =~= s@.take(i as int));
        if s[i] == c {
            out += 1;
        }
        i += 1;
    }
    assert(s@.take(s.len() as int) =~= s@);
    out
}

/// The tokens of `tokens` joined by single spaces.
pub open spec fn join_spaced(tokens: Seq<Seq<char>>) -> Seq<char>
    decreases tokens.len(),
{
    if tokens.len() == 0 {
        Seq::empty()
    } else if tokens.len() == 1 {
        tokens[0]
    } else {
        join_spaced(tokens.drop_last()) + seq![' '] + tokens.last()
    }
}

/// Joins `tokens` with single spaces.
pub fn join_with_spaces(tokens: &Vec<String>) -> (out: String)
    ensures
        out@ == join_spaced(tokens.deep_view()),
{
    let mut out = String::new();
    let mut i: usize = 0;
    proof {
        reveal_strlit(" ");
    }
    while i < tokens.len()
        invariant
            i <= tokens.len(),
            " "@ == seq![' '],
            out@ == join_spaced(tokens.deep_view().take(i as int)),
        decreases tokens.len() - i,
    {
        let ghost prefix = tokens.deep_view().take(i as int);
        let ghost next = tokens.deep_view().take(i + 1);
        assert(next.drop_last() =~= prefix);
        assert(next.last() == tokens[i as int]@);
        if i > 0 {
            out.append(" ");
        }
        out.append(tokens[i].as_str());
        i += 1;
    }
    assert(tokens.deep_view().take(tokens.len() as int) =~= tokens.deep_view());
    out
}

// ---------------------------------------------------------------------------
// Decimal numbers
// ---------------------------------------------------------------------------

/// Whether `c` is one of the ten ASCII digits.
pub open spec fn is_digit(c: char) -> bool {
    '0' <= c && c <= '9'
}

/// The value of the ASCII digit `c`.
pub open spec fn digit_value(c: char) -> nat {
    (c as u32 - '0' as u32) as nat
}

/// Whether `s` holds ASCII digits only.
pub open spec fn all_digits(s: Seq<char>) -> bool {
    forall|i: int| 0 <= i < s.len() ==> is_digit(#[trigger] s[i])
}

/// The number that the digits of `s` write in base ten.
pub open spec fn digits_value(s: Seq<char>) -> nat
    decreases s.len(),
{
    if s.len() == 0 {
        0
    } else {
        digits_value(s.drop_last()) * 10 + digit_value(s.last())
    }
}

/// The unsigned number that `s` writes, if it is at most `max`: an optional
/// `+`, then one or more digits, and nothing else.
pub open spec fn parse_unsigned(s: Seq<char>, max: nat) -> Option<nat> {
    let digits = if s.len() > 0 && s[0] == '+' {
        s.drop_first()
    } else {
        s
    };
    if digits.len() > 0 && all_digits(digits) && digits_value(digits) <= max {
        Some(digits_value(digits))
    } else {
        None
    }
}

/// The signed number that `s` writes, if it lies in `min ..= max`: an
/// optional `+` or `-`, then one or more digits, and nothing else.
pub open spec fn parse_signed(s: Seq<char>, min: int, max: int) -> Option<int> {
    let negative = s.len() > 0 && s[0] == '-';
    let digits = if s.len() > 0 && (s[0] == '+' || s[0] == '-') {
        s.drop_first()
    } else {
        s
    };
    let value = if negative {
        -(digits_value(digits) as int)
    } else {
        digits_value(digits) as int
    };
    if digits.len() > 0 && all_digits(digits) && min <= value <= max {
        Some(value)
    } else {
        None
    }
}

/// What a token says when read as a `u32`.
pub open spec fn read_u32(s: Seq<char>) -> Option<u32> {
    match parse_unsigned(s, u32::MAX as nat) {
        Some(v) => Some(v as u32),
        None => None,
    }
}

/// What a token says when read as a `u64`.
pub open spec fn read_u64(s: Seq<char>) -> Option<u64> {
    match parse_unsigned(s, u64::MAX as nat) {
        Some(v) => Some(v as u64),
        None => None,
    }
}

/// What a token says when read as an `i32`.
pub open spec fn read_i32(s: Seq<char>) -> Option<i32> {
    match parse_signed(s, i32::MIN as int, i32::MAX as int) {
        Some(v) => Some(v as i32),
        None => None,
    }
}

/// A number written with more digits is no smaller than the number written
/// by a prefix of them.
pub proof fn lemma_digits_value_monotone(s: Seq<char>, k: int)
    requires
        0 <= k <= s.len(),
    ensures
        digits_value(s.take(k)) <= digits_value(s),
    decreases s.len() - k,
{
    if k == s.len() {
        assert(s.take(k) =~= s);
    } else {
        lemma_digits_value_monotone(s.drop_last(), k);
        assert(s.drop_last().take(k) =~= s.take(k));
    }
}

/// Reads the digits `chars[start..]` as a number of at most `max`.
fn read_digits(chars: &Vec<char>, start: usize, max: u64) -> (out: Option<u64>)
    requires
        start <= chars.len(),
    ensures
        out == ({
            let digits = chars@.subrange(start as int, chars.len() as int);
            if digits.len() > 0 && all_digits(digits) && digits_value(digits) <= max {
                Some(digits_value(digits) as u64)
            } else {
                None
            }
        }),
{
    let n = chars.len();
    let ghost digits = chars@.subrange(start as int, n as int);
    if start == n {
        return None;
    }
    let mut acc: u128 = 0;
    let mut i: usize = start;
    while i < n
        invariant
            start <= i <= n,
            n == chars.len(),
            digits == chars@.subrange(start as int, n as int),
            all_digits(digits.take(i - start)),
            acc == digits_value(digits.take(i - start)),
            acc <= max,
        decreases n - i,
    {
        let c = chars[i];
        assert(digits[i - start] == c);
        if !('0' <= c && c <= '9') {
            return None;
        }
        let d: u128 = (c as u32 - '0' as u32) as u128;
        let ghost shorter = digits.take(i - start);
        let ghost longer = digits.take(i - start + 1);
        assert(longer.drop_last() =~= shorter);
        assert(longer.last() == c);
        assert forall|k: int| 0 <= k < longer.len() implies is_digit(#[trigger] longer[k]) by {
            if k < shorter.len() {
                assert(longer[k] == shorter[k]);
            }
        }
        let next: u128 = acc * 10 + d;
        if next > max as u128 {
            proof {
                lemma_digits_value_monotone(digits, i - start + 1);
            }
            return None;
        }
        acc = next;
        i += 1;
    }
    assert(digits.take(n - start) =~= digits);
    Some(acc as u64)
}

/// Reads `text` as a `u32`, as `str::parse` does.
pub fn parse_u32(text: &str) -> (out: Option<u32>)
    ensures
        out == read_u32(text@),
{
    let chars = chars_of(text);
    let start: usize = if chars.len() > 0 && chars[0] == '+' {
        1
    } else {
        0
    };
    assert(chars@.subrange(1, chars.len() as int) =~= chars@.drop_first());
    assert(chars@.subrange(0, chars.len() as int) =~= chars@);
    match read_digits(&chars, start, 0xffff_ffff) {
        Some(v) => Some(v as u32),
        None => None,
    }
}

/// Reads `text` as a `u64`, as `str::parse` does.
pub fn parse_u64(text: &str) -> (out: Option<u64>)
    ensures
        out == read_u64(text@),
{
    let chars = chars_of(text);
    let start: usize = if chars.len() > 0 && chars[0] == '+' {
        1
    } else {
        0
    };
    assert(chars@.subrange(1, chars.len() as int) =~= chars@.drop_first());
    assert(chars@.subrange(0, chars.len() as int) =~= chars@);
    read_digits(&chars, start, 0xffff_ffff_ffff_ffff)
}

/// Reads `text` as an `i32`, as `str::parse` does.
pub fn parse_i32(text: &str) -> (out: Option<i32>)
    ensures
        out == read_i32(text@),
{
    let chars = chars_of(text);
    let negative = chars.len() > 0 && chars[0] == '-';
    let start: usize = if chars.len() > 0 && (chars[0] == '+' || chars[0] == '-') {
        1
    } else {
        0
    };
    assert(chars@.subrange(1, chars.len() as int) =~= chars@.drop_first());
    assert(chars@.subrange(0, chars.len() as int) =~= chars@);
    if negative {
        match read_digits(&chars, start, 0x8000_0000) {
            Some(v) => {
                let wide: i64 = -(v as i64);
                Some(wide as i32)
            },
            None => None,
        }
    } else {
        match read_digits(&chars, start, 0x7fff_ffff) {
            Some(v) => Some(v as i32),
            None => None,
        }
    }
}

// ---------------------------------------------------------------------------
// Writing numbers
// ---------------------------------------------------------------------------

/// The ASCII digit that writes `d`, for `d` below ten.
pub open spec fn digit_char(d: nat) -> char {
    if d == 0 {
        '0'
    } else if d == 1 {
        '1'
    } else if d == 2 {
        '2'
    } else if d == 3 {
        '3'
    } else if d == 4 {
        '4'
    } else if d == 5 {
        '5'
    } else if d == 6 {
        '6'
    } else if d == 7 {
        '7'
    } else if d == 8 {
        '8'
    } else {
        '9'
    }
}

/// `n` written in base ten, without sign or leading zeros.
pub open spec fn decimal_digits(n: nat) -> Seq<char>
    decreases n,
{
    if n < 10 {
        seq![digit_char(n)]
    } else {
        decimal_digits(n / 10).push(digit_char(n % 10))
    }
}

fn digit_text(d: u64) -> (out: &'static str)
    requires
        d < 10,
    ensures
        out@ == seq![digit_char(d as nat)],
{
    proof {
        reveal_strlit("0");
        reveal_strlit("1");
        reveal_strlit("2");
        reveal_strlit("3");
        reveal_strlit("4");
        reveal_strlit("5");
        reveal_strlit("6");
        reveal_strlit("7");
        reveal_strlit("8");
        reveal_strlit("9");
    }
    let out = if d == 0 {
        "0"
    } else if d == 1 {
        "1"
    } else if d == 2 {
        "2"
    } else if d == 3 {
        "3"
    } else if d == 4 {
        "4"
    } else if d == 5 {
        "5"
    } else if d == 6 {
        "6"
    } else if d == 7 {
        "7"
    } else if d == 8 {
        "8"
    } else {
        "9"
    };
    assert(out@ =~= seq![digit_char(d as nat)]);
    out
}

/// Appends `n`, written in base ten, to `out`.
pub fn append_decimal(out: &mut String, n: u64)
    ensures
        final(out)@ == old(out)@ + decimal_digits(n as nat),
    decreases n,
{
    if n >= 10 {
        append_decimal(out, n / 10);
    }
    out.append(digit_text(n % 10));
    assert(out@ =~= old(out)@ + decimal_digits(n as nat));
}

/// A written number reads back as itself.
pub proof fn lemma_decimal_roundtrip(n: nat, max: nat)
    requires
        n <= max,
    ensures
        parse_unsigned(decimal_digits(n), max) == Some(n),
{
    lemma_decimal_digits(n);
}

/// What `decimal_digits` writes is one or more digits, and they write `n`.
pub proof fn lemma_decimal_digits(n: nat)
    ensures
        decimal_digits(n).len() > 0,
        all_digits(decimal_digits(n)),
        digits_value(decimal_digits(n)) == n,
    decreases n,
{
    if n < 10 {
        let s = decimal_digits(n);
        assert(s.drop_last() =~= Seq::<char>::empty());
        assert(digits_value(s.drop_last()) == 0);
    } else {
        lemma_decimal_digits(n / 10);
        let s = decimal_digits(n);
        assert(s.drop_last() =~= decimal_digits(n / 10));
        assert forall|i: int| 0 <= i < s.len() implies is_digit(#[trigger] s[i]) by {
            if i < s.len() - 1 {
                assert(s[i] == decimal_digits(n / 10)[i]);
            }
        }
    }
}

// ---------------------------------------------------------------------------
// Prefixes, substrings, trimming
// ---------------------------------------------------------------------------

/// Whether `needle` stands in `s` at index `i`.
pub open spec fn occurs_at(s: Seq<char>, needle: Seq<char>, i: int) -> bool {
    0 <= i && i + needle.len() <= s.len() && s.subrange(i, i + needle.len()) == needle
}

/// Whether `s` begins with `prefix`.
pub open spec fn has_prefix(s: Seq<char>, prefix: Seq<char>) -> bool {
    occurs_at(s, prefix, 0)
}

/// Whether `needle` stands somewhere in `s`.
pub open spec fn has_substring(s: Seq<char>, needle: Seq<char>) -> bool {
    exists|i: int| occurs_at(s, needle, i)
}

fn matches_at(s: &Vec<char>, needle: &Vec<char>, at: usize) -> (out: bool)
    ensures
        out == occurs_at(s@, needle@, at as int),
{
    if needle.len() > s.len() || at > s.len() - needle.len() {
        return false;
    }
    let mut k: usize = 0;
    while k < needle.len()
        invariant
            k <= needle.len(),
            at + needle.len() <= s.len(),
            forall|j: int| 0 <= j < k ==> s[at + j] == needle[j],
        decreases needle.len() - k,
    {
        if s[at + k] != needle[k] {
            assert(s@.subrange(at as int, at + needle.len())[k as int] == s[at + k]);
            return false;
        }
        k += 1;
    }
    assert(s@.subrange(at as int, at + needle.len()) =~= needle@);
    true
}

/// Whether `a` and `b` hold the same characters.
pub fn same_text(a: &str, b: &str) -> (out: bool)
    ensures
        out == (a@ == b@),
{
    let left = chars_of(a);
    let right = chars_of(b);
    if left.len() != right.len() {
        return false;
    }
    let out = matches_at(&left, &right, 0);
    assert(left@.subrange(0, left.len() as int) =~= left@);
    out
}

/// Whether `s` begins with `prefix`.
pub fn starts_with(s: &str, prefix: &str) -> (out: bool)
    ensures
        out == has_prefix(s@, prefix@),
{
    let chars = chars_of(s);
    let wanted = chars_of(prefix);
    matches_at(&chars, &wanted, 0)
}

/// Whether `needle` stands somewhere in `s`.
pub fn contains(s: &str, needle: &str) -> (out: bool)
    ensures
        out == has_substring(s@, needle@),
{
    let chars = chars_of(s);
    let wanted = chars_of(needle);
    if wanted.len() > chars.len() {
        assert forall|i: int| !occurs_at(s@, needle@, i) by {}
        return false;
    }
    let last = chars.len() - wanted.len();
    let mut i: usize = 0;
    loop
        invariant
            i <= last,
            last == chars.len() - wanted.len(),
            chars@ == s@,
            wanted@ == needle@,
            forall|j: int| 0 <= j < i ==> !occurs_at(s@, needle@, j),
        decreases last - i,
    {
        if matches_at(&chars, &wanted, i) {
            return true;
        }
        if i == last {
            assert forall|j: int| !occurs_at(s@, needle@, j) by {}
            return false;
        }
        i += 1;
    }
}

/// Whether every character of `s` is a separator: what is left of such a
/// string after trimming is empty.
pub open spec fn is_blank(s: Seq<char>) -> bool {
    forall|i: int| 0 <= i < s.len() ==> is_space(#[trigger] s[i])
}

/// Whether `s` is empty once trimmed.
pub fn blank(s: &str) -> (out: bool)
    ensures
        out == is_blank(s@),
{
    let chars = chars_of(s);
    let mut i: usize = 0;
    while i < chars.len()
        invariant
            i <= chars.len(),
            chars@ == s@,
            forall|j: int| 0 <= j < i ==> is_space(#[trigger] chars[j]),
        decreases chars.len() - i,
    {
        if !is_whitespace(chars[i]) {
            assert(!is_space(s@[i as int]));
            return false;
        }
        i += 1;
    }
    true
}

/// `s` without the run of `c` at its end.
pub open spec fn without_trailing(s: Seq<char>, c: char) -> Seq<char>
    decreases s.len(),
{
    if s.len() > 0 && s.last() == c {
        without_trailing(s.drop_last(), c)
    } else {
        s
    }
}

/// Strips every `c` from the end of `s`.
pub fn trim_end_matches(s: &str, c: char) -> (out: &str)
    ensures
        out@ == without_trailing(s@, c),
{
    let chars = chars_of(s);
    let mut end: usize = chars.len();
    assert(s@.take(end as int) =~= s@);
    while end > 0 && chars[end - 1] == c
        invariant
            end <= chars.len(),
            chars@ == s@,
            without_trailing(s@, c) == without_trailing(s@.take(end as int), c),
        decreases end,
    {
        assert(s@.take(end as int).drop_last() =~= s@.take(end - 1));
        end -= 1;
    }
    assert(s@.subrange(0, end as int) =~= s@.take(end as int));
    s.substring_char(0, end)
}


} // verus!
