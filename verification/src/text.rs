//! Text: white space, words, splitting and decimal numbers.
//!
//! Strings are seen as sequences of characters. The definitions follow the
//! standard library's: white space is the Unicode property `White_Space`, and
//! a number is an optional `+` and one or more decimal digits.

use vstd::prelude::*;
use vstd::string::*;
use vstd::utf8::*;

verus! {

/// The characters with the Unicode property `White_Space`.
pub open spec fn is_white_space(c: char) -> bool {
    ||| '\u{9}' <= c <= '\u{d}'
    ||| c == ' '
    ||| c == '\u{85}'
    ||| c == '\u{a0}'
    ||| c == '\u{1680}'
    ||| '\u{2000}' <= c <= '\u{200a}'
    ||| c == '\u{2028}'
    ||| c == '\u{2029}'
    ||| c == '\u{202f}'
    ||| c == '\u{205f}'
    ||| c == '\u{3000}'
}

/// Whether `c` is white space.
pub fn is_whitespace(c: char) -> (white: bool)
    ensures
        white == is_white_space(c),
{
    ('\u{9}' <= c && c <= '\u{d}') || c == ' ' || c == '\u{85}' || c == '\u{a0}' || c == '\u{1680}'
        || ('\u{2000}' <= c && c <= '\u{200a}') || c == '\u{2028}' || c == '\u{2029}' || c
        == '\u{202f}' || c == '\u{205f}' || c == '\u{3000}'
}

/// `s` without the white space in front.
pub open spec fn trimmed_start(s: Seq<char>) -> Seq<char>
    decreases s.len(),
{
    if s.len() > 0 && is_white_space(s[0]) {
        trimmed_start(s.drop_first())
    } else {
        s
    }
}

/// `s` without the white space at its end.
pub open spec fn trimmed_end(s: Seq<char>) -> Seq<char>
    decreases s.len(),
{
    if s.len() > 0 && is_white_space(s.last()) {
        trimmed_end(s.drop_last())
    } else {
        s
    }
}

/// `s` without the white space around it.
pub open spec fn trimmed(s: Seq<char>) -> Seq<char> {
    trimmed_end(trimmed_start(s))
}

/// The number of characters in front of the first white space.
pub open spec fn word_len(s: Seq<char>) -> nat
    decreases s.len(),
{
    if s.len() == 0 || is_white_space(s[0]) {
        0
    } else {
        1 + word_len(s.drop_first())
    }
}

/// The words of `s`: its longest parts without white space, in order.
pub open spec fn words(s: Seq<char>) -> Seq<Seq<char>>
    decreases s.len(),
{
    let t = trimmed_start(s);
    if t.len() == 0 {
        Seq::empty()
    } else {
        proof {
            lemma_trimmed_start(s);
            lemma_word_len(t);
        }
        seq![t.take(word_len(t) as int)] + words(t.skip(word_len(t) as int))
    }
}

/// What stands in front of the first `c` in `s`, and what stands behind it.
pub open spec fn split_once(s: Seq<char>, c: char) -> Option<(Seq<char>, Seq<char>)> {
    match s.index_of_first(c) {
        Some(i) => Some((s.take(i), s.skip(i + 1))),
        None => None,
    }
}

/// The parts of `s` between the occurrences of `c`, in order.
pub open spec fn split_all(s: Seq<char>, c: char) -> Seq<Seq<char>>
    decreases s.len(),
{
    match split_once(s, c) {
        Some((head, tail)) => {
            proof {
                s.index_of_first_ensures(c);
            }
            seq![head] + split_all(tail, c)
        },
        None => seq![s],
    }
}

pub open spec fn is_digit(c: char) -> bool {
    '0' <= c <= '9'
}

pub open spec fn all_digits(s: Seq<char>) -> bool {
    forall|i: int| 0 <= i < s.len() ==> is_digit(#[trigger] s[i])
}

/// The value of decimal digits, the most significant first.
pub open spec fn digits_value(s: Seq<char>) -> nat
    decreases s.len(),
{
    if s.len() == 0 {
        0
    } else {
        (digits_value(s.drop_last()) * 10 + (s.last() as int - '0' as int)) as nat
    }
}

/// The number that `s` writes: one or more digits, with or without a `+` in
/// front.
pub open spec fn number(s: Seq<char>) -> Option<nat> {
    let digits = if s.len() > 0 && s[0] == '+' {
        s.drop_first()
    } else {
        s
    };
    if digits.len() > 0 && all_digits(digits) {
        Some(digits_value(digits))
    } else {
        None
    }
}

/// The number that `s` writes, where it is at most `max`.
pub open spec fn number_up_to(s: Seq<char>, max: nat) -> Option<nat> {
    match number(s) {
        Some(value) if value <= max => Some(value),
        _ => None,
    }
}

pub proof fn lemma_trimmed_start(s: Seq<char>)
    ensures
        trimmed_start(s).len() <= s.len(),
        trimmed_start(s).len() > 0 ==> !is_white_space(trimmed_start(s)[0]),
    decreases s.len(),
{
    if s.len() > 0 && is_white_space(s[0]) {
        lemma_trimmed_start(s.drop_first());
    }
}

pub proof fn lemma_word_len(s: Seq<char>)
    ensures
        word_len(s) <= s.len(),
        s.len() > 0 && !is_white_space(s[0]) ==> word_len(s) > 0,
        word_len(s) < s.len() ==> is_white_space(s[word_len(s) as int]),
        forall|i: int| 0 <= i < word_len(s) ==> !is_white_space(#[trigger] s[i]),
    decreases s.len(),
{
    if s.len() > 0 && !is_white_space(s[0]) {
        let rest = s.drop_first();
        lemma_word_len(rest);
        assert forall|i: int| 0 <= i < word_len(s) implies !is_white_space(#[trigger] s[i]) by {
            if i > 0 {
                assert(s[i] == rest[i - 1]);
            }
        }
    }
}

/// The characters of a string.
pub fn chars_of(s: &str) -> (chars: Vec<char>)
    ensures
        chars@ == s@,
{
    let mut chars: Vec<char> = Vec::new();
    for c in it: s.chars()
        invariant
            it.seq() == s@,
            chars@ == s@.take(it.index()),
    {
        chars.push(c);
    }
    chars
}

proof fn lemma_trimmed_start_skip(s: Seq<char>, n: int)
    requires
        0 <= n <= s.len(),
        forall|i: int| 0 <= i < n ==> is_white_space(#[trigger] s[i]),
    ensures
        trimmed_start(s) == trimmed_start(s.skip(n)),
    decreases n,
{
    if n == 0 {
        assert(s.skip(0) =~= s);
    } else {
        assert(is_white_space(s[0]));
        let rest = s.drop_first();
        assert forall|i: int| 0 <= i < n - 1 implies is_white_space(#[trigger] rest[i]) by {
            assert(rest[i] == s[i + 1]);
        }
        lemma_trimmed_start_skip(rest, n - 1);
        assert(rest.skip(n - 1) =~= s.skip(n));
    }
}

proof fn lemma_trimmed_end_take(s: Seq<char>, n: int)
    requires
        0 <= n <= s.len(),
        forall|i: int| n <= i < s.len() ==> is_white_space(#[trigger] s[i]),
    ensures
        trimmed_end(s) == trimmed_end(s.take(n)),
    decreases s.len() - n,
{
    if n == s.len() {
        assert(s.take(n) =~= s);
    } else {
        assert(is_white_space(s.last()));
        let rest = s.drop_last();
        lemma_trimmed_end_take(rest, n);
        assert(rest.take(n) =~= s.take(n));
    }
}

proof fn lemma_word_len_is(s: Seq<char>, n: int)
    requires
        0 <= n <= s.len(),
        forall|i: int| 0 <= i < n ==> !is_white_space(#[trigger] s[i]),
        n < s.len() ==> is_white_space(s[n]),
    ensures
        word_len(s) == n,
{
    lemma_word_len(s);
    if word_len(s) < n {
        assert(!is_white_space(s[word_len(s) as int]));
    }
}

/// The index of the first character from `from` on that is not white space.
fn skip_white_space(chars: &Vec<char>, from: usize) -> (end: usize)
    requires
        from <= chars@.len(),
    ensures
        from <= end <= chars@.len(),
        forall|i: int| from <= i < end ==> is_white_space(#[trigger] chars@[i]),
        end < chars@.len() ==> !is_white_space(chars@[end as int]),
{
    let mut end: usize = from;
    while end < chars.len() && is_whitespace(chars[end])
        invariant
            from <= end <= chars@.len(),
            forall|i: int| from <= i < end ==> is_white_space(#[trigger] chars@[i]),
        decreases chars@.len() - end,
    {
        end += 1;
    }
    end
}

/// The index of the first white space from `from` on.
fn skip_word(chars: &Vec<char>, from: usize) -> (end: usize)
    requires
        from <= chars@.len(),
    ensures
        from <= end <= chars@.len(),
        forall|i: int| from <= i < end ==> !is_white_space(#[trigger] chars@[i]),
        end < chars@.len() ==> is_white_space(chars@[end as int]),
{
    let mut end: usize = from;
    while end < chars.len() && !is_whitespace(chars[end])
        invariant
            from <= end <= chars@.len(),
            forall|i: int| from <= i < end ==> !is_white_space(#[trigger] chars@[i]),
        decreases chars@.len() - end,
    {
        end += 1;
    }
    end
}

/// The string without the white space around it.
pub fn trim(s: &str) -> (t: &str)
    ensures
        t@ == trimmed(s@),
{
    let chars = chars_of(s);
    let start: usize = skip_white_space(&chars, 0);
    let mut end: usize = chars.len();
    while end > start && is_whitespace(chars[end - 1])
        invariant
            start <= end <= chars@.len(),
            forall|i: int| end <= i < chars@.len() ==> is_white_space(#[trigger] chars@[i]),
        decreases end,
    {
        end -= 1;
    }
    proof {
        let rest = s@.skip(start as int);
        lemma_trimmed_start_skip(s@, start as int);
        assert(trimmed_start(s@) == rest);
        let n = end - start;
        assert forall|i: int| n <= i < rest.len() implies is_white_space(#[trigger] rest[i]) by {
            assert(rest[i] == chars@[start + i]);
        }
        lemma_trimmed_end_take(rest, n);
        assert(rest.take(n) =~= s@.subrange(start as int, end as int));
    }
    s.substring_char(start, end)
}

/// The first word of the string and what stands behind it.
pub fn split_word(s: &str) -> (split: Option<(&str, &str)>)
    ensures
        match split {
            Some((word, rest)) => words(s@) == seq![word@] + words(rest@),
            None => words(s@).len() == 0,
        },
{
    let chars = chars_of(s);
    let start: usize = skip_white_space(&chars, 0);
    proof {
        lemma_trimmed_start_skip(s@, start as int);
    }
    if start == chars.len() {
        return None;
    }
    let end: usize = skip_word(&chars, start);
    proof {
        let t = s@.skip(start as int);
        assert(trimmed_start(s@) == t);
        let n = end - start;
        assert forall|i: int| 0 <= i < n implies !is_white_space(#[trigger] t[i]) by {
            assert(t[i] == chars@[start + i]);
        }
        lemma_word_len_is(t, n);
        assert(t.take(n) =~= s@.subrange(start as int, end as int));
        assert(t.skip(n) =~= s@.subrange(end as int, s@.len() as int));
    }
    Some((s.substring_char(start, end), s.substring_char(end, chars.len())))
}

/// What stands in front of the first white space, where there is any.
pub fn before_white_space(s: &str) -> (head: Option<&str>)
    ensures
        match head {
            Some(h) => word_len(s@) < s@.len() && h@ == s@.take(word_len(s@) as int),
            None => word_len(s@) == s@.len(),
        },
{
    let chars = chars_of(s);
    let end: usize = skip_word(&chars, 0);
    proof {
        lemma_word_len_is(s@, end as int);
        assert(s@.take(end as int) =~= s@.subrange(0, end as int));
    }
    if end < chars.len() {
        Some(s.substring_char(0, end))
    } else {
        None
    }
}

/// The number of words in the string.
pub fn count_words(s: &str) -> (count: usize)
    ensures
        count == words(s@).len(),
{
    let chars = chars_of(s);
    let mut count: usize = 0;
    let mut from: usize = skip_white_space(&chars, 0);
    proof {
        lemma_trimmed_start_skip(s@, from as int);
        assert(s@.skip(0) =~= s@);
        lemma_words_of_trimmed(s@);
    }
    while from < chars.len()
        invariant
            chars@ == s@,
            count <= from <= chars@.len(),
            from < chars@.len() ==> !is_white_space(chars@[from as int]),
            words(s@).len() == count + words(s@.skip(from as int)).len(),
        decreases chars@.len() - from,
    {
        let end: usize = skip_word(&chars, from);
        let next: usize = skip_white_space(&chars, end);
        proof {
            let t = s@.skip(from as int);
            let n = end - from;
            assert forall|i: int| 0 <= i < n implies !is_white_space(#[trigger] t[i]) by {
                assert(t[i] == chars@[from + i]);
            }
            lemma_word_len_is(t, n);
            let rest = t.skip(n);
            assert forall|i: int| 0 <= i < next - end implies is_white_space(
                #[trigger] rest[i],
            ) by {
                assert(rest[i] == chars@[end + i]);
            }
            lemma_trimmed_start_skip(rest, next - end);
            assert(rest.skip(next - end) =~= s@.skip(next as int));
            lemma_words_of_trimmed(rest);
            assert(words(t) == seq![t.take(n)] + words(rest));
        }
        count += 1;
        from = next;
    }
    proof {
        assert(s@.skip(from as int).len() == 0);
    }
    count
}

proof fn lemma_words_of_trimmed(s: Seq<char>)
    ensures
        words(s) == words(trimmed_start(s)),
{
    lemma_trimmed_start(s);
    let t = trimmed_start(s);
    assert(trimmed_start(t) == t);
}

/// Whether two strings have the same characters.
pub fn same_text(a: &str, b: &str) -> (same: bool)
    ensures
        same == (a@ == b@),
{
    let a_bytes = a.as_bytes();
    let b_bytes = b.as_bytes();
    proof {
        encode_utf8_decode_utf8(a@);
        encode_utf8_decode_utf8(b@);
    }
    if a_bytes.len() != b_bytes.len() {
        return false;
    }
    let mut i: usize = 0;
    while i < a_bytes.len()
        invariant
            i <= a_bytes@.len(),
            a_bytes@.len() == b_bytes@.len(),
            a_bytes@ == encode_utf8(a@),
            b_bytes@ == encode_utf8(b@),
            forall|j: int| 0 <= j < i ==> a_bytes@[j] == b_bytes@[j],
        decreases a_bytes@.len() - i,
    {
        if a_bytes[i] != b_bytes[i] {
            return false;
        }
        i += 1;
    }
    assert(a_bytes@ =~= b_bytes@);
    true
}

/// An ASCII character of a string stands in its encoding as a single byte.
proof fn lemma_ascii_char_encoded(s: Seq<char>, c: char, k: int)
    requires
        0 <= k < s.len(),
        s[k] == c,
        c as u32 <= 0x7f,
    ensures
        exists|j: int| 0 <= j < encode_utf8(s).len() && encode_utf8(s)[j] == c as u8,
    decreases s.len(),
{
    let head = encode_scalar(s[0] as u32);
    let tail = encode_utf8(s.drop_first());
    assert(encode_utf8(s) == head + tail);
    if k == 0 {
        let v = c as u32;
        assert(v as u8 == leading_byte_width_1(v)) by (bit_vector)
            requires
                v <= 0x7f,
        ;
        assert(encode_utf8(s)[0] == c as u8);
    } else {
        lemma_ascii_char_encoded(s.drop_first(), c, k - 1);
        let j = choose|j: int| 0 <= j < tail.len() && tail[j] == c as u8;
        assert(encode_utf8(s)[head.len() + j] == c as u8);
    }
}

/// Splits the string at the first `c`, an ASCII character.
pub fn split_at_first(s: &str, c: char) -> (split: Option<(&str, &str)>)
    requires
        c as u32 <= 0x7f,
    ensures
        match split {
            Some((head, tail)) => split_once(s@, c) == Some((head@, tail@)),
            None => split_once(s@, c) is None,
        },
{
    let bytes = s.as_bytes();
    let mark: u8 = c as u8;
    let mut at: usize = 0;
    while at < bytes.len() && bytes[at] != mark
        invariant
            at <= bytes@.len(),
            forall|j: int| 0 <= j < at ==> bytes@[j] != mark,
        decreases bytes@.len() - at,
    {
        at += 1;
    }
    proof {
        s@.index_of_first_ensures(c);
        encode_utf8_valid_utf8(s@);
        encode_utf8_decode_utf8(s@);
    }
    if at == bytes.len() {
        proof {
            if s@.contains(c) {
                let k = choose|k: int| 0 <= k < s@.len() && s@[k] == c;
                lemma_ascii_char_encoded(s@, c, k);
            }
        }
        return None;
    }
    proof {
        is_char_boundary_iff_not_is_continuation_byte(bytes@, at as int);
    }
    let (head, rest) = s.split_at(at);
    proof {
        decode_utf8_split(bytes@, at as int);
        encode_utf8_decode_utf8(head@);
        encode_utf8_decode_utf8(rest@);
        encode_utf8_valid_utf8(rest@);
        assert(s@ == head@ + rest@);
        let r = encode_utf8(rest@);
        assert(r[0] == mark);
        reveal_with_fuel(is_char_boundary, 2);
        assert(is_char_boundary(r, 1));
    }
    let (first, tail) = rest.split_at(1);
    proof {
        let r = encode_utf8(rest@);
        decode_utf8_split(r, 1);
        encode_utf8_decode_utf8(first@);
        encode_utf8_decode_utf8(tail@);
        assert(rest@ == first@ + tail@);
        let f = encode_utf8(first@);
        assert(f =~= seq![mark]);
        encode_utf8_valid_utf8(first@);
        assert(codepoint_width_1(mark) == mark) by (bit_vector)
            requires
                mark <= 0x7f,
        ;
        reveal_with_fuel(decode_utf8, 2);
        assert(pop_first_scalar(f) =~= Seq::<u8>::empty());
        assert(first@ =~= seq![c]);
        assert(s@[head@.len() as int] == c);
        assert forall|k: int| 0 <= k < head@.len() implies s@[k] != c by {
            if s@[k] == c {
                assert(head@[k] == c);
                lemma_ascii_char_encoded(head@, c, k);
            }
        }
        assert(s@.take(head@.len() as int) =~= head@);
        assert(s@.skip(head@.len() as int + 1) =~= tail@);
    }
    Some((head, tail))
}

proof fn lemma_digits_value_grows(s: Seq<char>, n: int)
    requires
        0 <= n <= s.len(),
        all_digits(s),
    ensures
        digits_value(s.take(n)) <= digits_value(s),
    decreases s.len() - n,
{
    if n == s.len() {
        assert(s.take(n) =~= s);
    } else {
        lemma_digits_value_grows(s.drop_last(), n);
        assert(s.drop_last().take(n) =~= s.take(n));
        assert(is_digit(s.last()));
    }
}

/// Reads a decimal number of at most `max`.
pub fn parse_number(s: &str, max: u64) -> (value: Option<u64>)
    ensures
        match value {
            Some(v) => number_up_to(s@, max as nat) == Some(v as nat),
            None => number_up_to(s@, max as nat) is None,
        },
{
    let chars = chars_of(s);
    let start: usize = if chars.len() > 0 && chars[0] == '+' {
        1
    } else {
        0
    };
    let ghost digits = s@.skip(start as int);
    proof {
        if start == 0 {
            assert(digits =~= s@);
        } else {
            assert(digits =~= s@.drop_first());
        }
    }
    if start == chars.len() {
        return None;
    }
    let mut value: u64 = 0;
    let mut i: usize = start;
    while i < chars.len()
        invariant
            chars@ == s@,
            start <= i <= chars@.len(),
            digits == s@.skip(start as int),
            number(s@) == (if all_digits(digits) {
                Some(digits_value(digits))
            } else {
                None
            }),
            forall|j: int| 0 <= j < i - start ==> is_digit(#[trigger] digits[j]),
            value == digits_value(digits.take(i - start)),
            value <= max,
        decreases chars@.len() - i,
    {
        let c = chars[i];
        assert(digits[i - start] == c);
        if c < '0' || '9' < c {
            return None;
        }
        let digit: u64 = c as u64 - '0' as u64;
        proof {
            let longer = digits.take(i - start + 1);
            assert(longer.drop_last() =~= digits.take(i - start));
            assert(digits_value(longer) == value * 10 + digit);
            if number(s@) is Some {
                lemma_digits_value_grows(digits, i - start + 1);
            }
        }
        if value > max / 10 || digit > max - value * 10 {
            return None;
        }
        value = value * 10 + digit;
        i += 1;
    }
    assert(digits.take(i - start) =~= digits);
    Some(value)
}

pub open spec fn all_white_space(s: Seq<char>) -> bool {
    forall|i: int| 0 <= i < s.len() ==> is_white_space(#[trigger] s[i])
}

/// Whether `s` is a single word and nothing else.
pub open spec fn is_word(s: Seq<char>) -> bool {
    &&& s.len() > 0
    &&& forall|i: int| 0 <= i < s.len() ==> !is_white_space(#[trigger] s[i])
}

/// Whether a word in front of `s` ends there.
pub open spec fn ends_word(s: Seq<char>) -> bool {
    s.len() == 0 || is_white_space(s[0])
}

/// The first word of a text is what stands between the white space in front of it
/// and the white space behind it; the other words are those of the rest.
pub proof fn law_first_word(lead: Seq<char>, word: Seq<char>, rest: Seq<char>)
    requires
        all_white_space(lead),
        is_word(word),
        ends_word(rest),
    ensures
        words(lead + word + rest) == seq![word] + words(rest),
        word_len(word + rest) == word.len(),
        word_len(rest) == 0,
{
    let s = lead + word + rest;
    let t = word + rest;
    assert forall|i: int| 0 <= i < lead.len() implies is_white_space(#[trigger] s[i]) by {
        assert(s[i] == lead[i]);
    }
    lemma_trimmed_start_skip(s, lead.len() as int);
    assert(s.skip(lead.len() as int) =~= t);
    assert(t[0] == word[0]);
    assert(trimmed_start(s) == t);
    assert forall|i: int| 0 <= i < word.len() implies !is_white_space(#[trigger] t[i]) by {
        assert(t[i] == word[i]);
    }
    lemma_word_len_is(t, word.len() as int);
    assert(t.take(word.len() as int) =~= word);
    assert(t.skip(word.len() as int) =~= rest);
}

/// A text has no words if and only if it is all white space.
pub proof fn law_no_words(s: Seq<char>)
    ensures
        words(s).len() == 0 <==> all_white_space(s),
    decreases s.len(),
{
    lemma_trimmed_start(s);
    if s.len() > 0 && is_white_space(s[0]) {
        let rest = s.drop_first();
        law_no_words(rest);
        lemma_words_of_trimmed(s);
        lemma_words_of_trimmed(rest);
        if all_white_space(rest) {
            assert forall|i: int| 0 <= i < s.len() implies is_white_space(#[trigger] s[i]) by {
                if i > 0 {
                    assert(s[i] == rest[i - 1]);
                }
            }
        }
        if all_white_space(s) {
            assert forall|i: int| 0 <= i < rest.len() implies is_white_space(
                #[trigger] rest[i],
            ) by {
                assert(rest[i] == s[i + 1]);
            }
        }
    }
}

/// Trimming takes off the white space in front and behind, and nothing else.
pub proof fn law_trimmed(lead: Seq<char>, core: Seq<char>, trail: Seq<char>)
    requires
        all_white_space(lead),
        all_white_space(trail),
        core.len() > 0 ==> !is_white_space(core[0]) && !is_white_space(core.last()),
    ensures
        trimmed(lead + core + trail) == core,
{
    let s = lead + core + trail;
    let n = lead.len() as int;
    if core.len() == 0 {
        assert forall|i: int| 0 <= i < s.len() implies is_white_space(#[trigger] s[i]) by {
            if i < n {
                assert(s[i] == lead[i]);
            } else {
                assert(s[i] == trail[i - n]);
            }
        }
        lemma_trimmed_start_skip(s, s.len() as int);
        assert(s.skip(s.len() as int) =~= Seq::empty());
        assert(core =~= Seq::empty());
    } else {
        assert forall|i: int| 0 <= i < n implies is_white_space(#[trigger] s[i]) by {
            assert(s[i] == lead[i]);
        }
        lemma_trimmed_start_skip(s, n);
        let t = s.skip(n);
        assert(t[0] == core[0]);
        let m = core.len() as int;
        assert forall|i: int| m <= i < t.len() implies is_white_space(#[trigger] t[i]) by {
            assert(t[i] == trail[i - m]);
        }
        lemma_trimmed_end_take(t, m);
        assert(t.take(m) =~= core);
    }
}

/// What trimming leaves neither starts nor ends with white space.
pub proof fn law_trimmed_ends(s: Seq<char>)
    ensures
        trimmed(s).len() > 0 ==> !is_white_space(trimmed(s)[0]) && !is_white_space(
            trimmed(s).last(),
        ),
{
    lemma_trimmed_start(s);
    lemma_trimmed_end(trimmed_start(s));
}

proof fn lemma_trimmed_end(s: Seq<char>)
    ensures
        trimmed_end(s).len() <= s.len(),
        trimmed_end(s) == s.take(trimmed_end(s).len() as int),
        trimmed_end(s).len() > 0 ==> !is_white_space(trimmed_end(s).last()),
    decreases s.len(),
{
    if s.len() > 0 && is_white_space(s.last()) {
        let rest = s.drop_last();
        lemma_trimmed_end(rest);
        assert(rest.take(trimmed_end(rest).len() as int) =~= s.take(
            trimmed_end(rest).len() as int,
        ));
    } else {
        assert(s.take(s.len() as int) =~= s);
    }
}

/// A text is split at the first mark: nothing in front of it is a mark.
pub proof fn law_split_once(head: Seq<char>, c: char, tail: Seq<char>)
    requires
        !head.contains(c),
    ensures
        split_once(head + seq![c] + tail, c) == Some((head, tail)),
        split_all(head + seq![c] + tail, c) == seq![head] + split_all(tail, c),
        split_once(head, c) is None,
        split_all(head, c) == seq![head],
{
    let s = head + seq![c] + tail;
    let n = head.len() as int;
    s.index_of_first_ensures(c);
    head.index_of_first_ensures(c);
    assert(s[n] == c);
    assert(s.contains(c));
    let i = s.index_of_first(c)->0;
    assert(i == n) by {
        if i < n {
            assert(head[i] == c);
        }
    }
    assert(s.take(n) =~= head);
    assert(s.skip(n + 1) =~= tail);
}

/// Two texts with a mark between them have the parts of the one and then those of the
/// other.
pub proof fn law_split_all_joined(first: Seq<char>, c: char, second: Seq<char>)
    ensures
        split_all(first + seq![c] + second, c) == split_all(first, c) + split_all(second, c),
    decreases first.len(),
{
    if first.contains(c) {
        first.index_of_first_ensures(c);
        let i = first.index_of_first(c)->0;
        let head = first.take(i);
        let tail = first.skip(i + 1);
        assert(!head.contains(c));
        assert(first =~= head + seq![c] + tail);
        law_split_once(head, c, tail);
        law_split_once(head, c, tail + seq![c] + second);
        law_split_all_joined(tail, c, second);
        assert(first + seq![c] + second =~= head + seq![c] + (tail + seq![c] + second));
        assert(seq![head] + (split_all(tail, c) + split_all(second, c)) =~= seq![head] + split_all(
            tail,
            c,
        ) + split_all(second, c));
    } else {
        law_split_once(first, c, second);
    }
}

/// A digit as a character.
pub open spec fn digit(value: nat) -> char {
    seq!['0', '1', '2', '3', '4', '5', '6', '7', '8', '9'][value as int]
}

/// A number in decimal, without zeroes in front.
pub open spec fn decimal(value: nat) -> Seq<char>
    decreases value,
{
    if value < 10 {
        seq![digit(value)]
    } else {
        decimal(value / 10).push(digit(value % 10))
    }
}

/// Zeroes.
pub open spec fn zeroes(count: nat) -> Seq<char> {
    Seq::new(count, |i: int| '0')
}

proof fn lemma_digit(value: nat)
    requires
        value < 10,
    ensures
        is_digit(digit(value)),
        digit(value) as int - '0' as int == value,
{
}

proof fn lemma_zeroes(count: nat)
    ensures
        all_digits(zeroes(count)),
        digits_value(zeroes(count)) == 0,
    decreases count,
{
    if count > 0 {
        let n = (count - 1) as nat;
        lemma_zeroes(n);
        assert(zeroes(count).drop_last() =~= zeroes(n));
    }
}

proof fn lemma_decimal(count: nat, value: nat)
    ensures
        decimal(value).len() > 0,
        all_digits(zeroes(count) + decimal(value)),
        digits_value(zeroes(count) + decimal(value)) == value,
    decreases value,
{
    let s = zeroes(count) + decimal(value);
    lemma_zeroes(count);
    if value < 10 {
        lemma_digit(value);
        assert(s.drop_last() =~= zeroes(count));
    } else {
        lemma_decimal(count, value / 10);
        lemma_digit(value % 10);
        let front = zeroes(count) + decimal(value / 10);
        assert(s.drop_last() =~= front);
        assert(s.last() == digit(value % 10));
        assert forall|i: int| 0 <= i < s.len() implies is_digit(#[trigger] s[i]) by {
            if i < front.len() {
                assert(s[i] == front[i]);
            }
        }
    }
}

/// A number is read from its decimal form, with or without zeroes and a `+` in
/// front, if and only if it is not too large.
pub proof fn law_number_of_decimal(count: nat, value: nat, max: nat)
    ensures
        number_up_to(zeroes(count) + decimal(value), max) == (if value <= max {
            Some(value)
        } else {
            None
        }),
        number_up_to(seq!['+'] + zeroes(count) + decimal(value), max) == (if value <= max {
            Some(value)
        } else {
            None
        }),
{
    let s = zeroes(count) + decimal(value);
    let signed = seq!['+'] + zeroes(count) + decimal(value);
    lemma_decimal(count, value);
    assert(is_digit(s[0]));
    assert(signed.drop_first() =~= s);
}

/// What is read as a number is one or more decimal digits, with or without a `+`
/// in front.
pub proof fn law_number_is_digits(s: Seq<char>, max: nat)
    ensures
        number_up_to(s, max) matches Some(value) ==> {
            let first: int = if s[0] == '+' {
                1
            } else {
                0
            };
            &&& value <= max
            &&& first < s.len()
            &&& forall|i: int| first <= i < s.len() ==> '0' <= #[trigger] s[i] <= '9'
        },
{
    if number_up_to(s, max) is Some {
        let digits = if s[0] == '+' {
            s.drop_first()
        } else {
            s
        };
        let first: int = if s[0] == '+' {
            1
        } else {
            0
        };
        assert forall|i: int| first <= i < s.len() implies '0' <= #[trigger] s[i] <= '9' by {
            assert(is_digit(digits[i - first]));
        }
    }
}

} // verus!
