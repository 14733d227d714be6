//! Working with text as sequences of characters.

use vstd::prelude::*;

verus! {

/// `String::push` appends a character to a string.
pub assume_specification[ String::push ](string: &mut String, ch: char)
    ensures
        final(string)@ == old(string)@.push(ch),
;

/// The characters of a text.
pub fn chars_of(text: &str) -> (chars: Vec<char>)
    ensures
        chars@ == text@,
{
    let mut chars: Vec<char> = Vec::new();
    for ch in iter: text.chars()
        invariant
            iter.seq() == text@,
            chars@ == text@.take(iter.index()),
    {
        chars.push(ch);
        assert(chars@ =~= text@.take(iter.index() + 1));
    }
    assert(chars@ =~= text@);
    chars
}

/// The text that characters make up.
pub fn text_of(chars: &[char]) -> (text: String)
    ensures
        text@ == chars@,
{
    let mut text: String = String::new();
    let mut i: usize = 0;
    while i < chars.len()
        invariant
            0 <= i <= chars@.len(),
            text@ == chars@.take(i as int),
        decreases chars@.len() - i,
    {
        text.push(chars[i]);
        i = i + 1;
        assert(text@ =~= chars@.take(i as int));
    }
    assert(text@ =~= chars@);
    text
}

/// Do the characters make up the given text?
pub fn is_text(chars: &Vec<char>, text: &str) -> (result: bool)
    ensures
        result == (chars@ == text@),
{
    let expected: Vec<char> = chars_of(text);
    if chars.len() != expected.len() {
        return false;
    }
    let mut i: usize = 0;
    while i < chars.len()
        invariant
            chars@.len() == expected@.len(),
            expected@ == text@,
            0 <= i <= chars@.len(),
            forall|k: int| 0 <= k < i ==> chars@[k] == expected@[k],
        decreases chars@.len() - i,
    {
        if chars[i] != expected[i] {
            return false;
        }
        i = i + 1;
    }
    assert(chars@ =~= text@);
    true
}

/// The parts of a text between the separators.
pub open spec fn split(text: Seq<char>, separator: char) -> Seq<Seq<char>>
    decreases text.len(),
{
    if text.len() == 0 {
        seq![Seq::empty()]
    } else {
        let parts = split(text.drop_last(), separator);
        if text.last() == separator {
            parts.push(Seq::empty())
        } else {
            parts.drop_last().push(parts.last().push(text.last()))
        }
    }
}

/// The texts have the given characters.
pub open spec fn same_texts(texts: Seq<Vec<char>>, expected: Seq<Seq<char>>) -> bool {
    &&& texts.len() == expected.len()
    &&& forall|i: int| 0 <= i < texts.len() ==> (#[trigger] texts[i])@ == expected[i]
}

/// A text always has a part.
pub proof fn lemma_split_nonempty(text: Seq<char>, separator: char)
    ensures
        split(text, separator).len() >= 1,
    decreases text.len(),
{
    if text.len() > 0 {
        lemma_split_nonempty(text.drop_last(), separator);
    }
}

/// Split a text at the separators.
pub fn split_chars(chars: &Vec<char>, separator: char) -> (parts: Vec<Vec<char>>)
    ensures
        same_texts(parts@, split(chars@, separator)),
{
    let mut finished: Vec<Vec<char>> = Vec::new();
    let mut current: Vec<char> = Vec::new();
    let mut i: usize = 0;
    while i < chars.len()
        invariant
            0 <= i <= chars@.len(),
            split(chars@.take(i as int), separator).len() == finished@.len() + 1,
            current@ == split(chars@.take(i as int), separator).last(),
            forall|k: int|
                0 <= k < finished@.len() ==> (#[trigger] finished@[k])@ == split(
                    chars@.take(i as int),
                    separator,
                )[k],
        decreases chars@.len() - i,
    {
        let ch: char = chars[i];
        proof {
            assert(chars@.take(i + 1).drop_last() =~= chars@.take(i as int));
        }
        if ch == separator {
            finished.push(current);
            current = Vec::new();
        } else {
            current.push(ch);
        }
        i = i + 1;
    }
    finished.push(current);
    assert(chars@.take(i as int) =~= chars@);
    finished
}

/// A text without the separator is its only part.
pub proof fn lemma_split_single(text: Seq<char>, separator: char)
    requires
        !text.contains(separator),
    ensures
        split(text, separator) == seq![text],
    decreases text.len(),
{
    if text.len() > 0 {
        let front = text.drop_last();
        assert(!front.contains(separator)) by {
            if front.contains(separator) {
                assert(text[front.index_of(separator)] == separator);
            }
        }
        assert(text[text.len() - 1] != separator);
        lemma_split_single(front, separator);
        assert(seq![front].drop_last() =~= Seq::<Seq<char>>::empty());
        assert(front.push(text.last()) =~= text);
        assert(split(text, separator) =~= seq![text]);
    } else {
        assert(text =~= Seq::empty());
    }
}

/// A part after a separator is the last one.
pub proof fn lemma_split_append(text: Seq<char>, separator: char, part: Seq<char>)
    requires
        !part.contains(separator),
    ensures
        split(text.push(separator) + part, separator) == split(text, separator).push(part),
    decreases part.len(),
{
    let whole = text.push(separator) + part;
    if part.len() == 0 {
        assert(whole =~= text.push(separator));
        assert(whole.drop_last() =~= text);
        assert(part =~= Seq::empty());
    } else {
        let front = part.drop_last();
        assert(!front.contains(separator)) by {
            if front.contains(separator) {
                assert(part[front.index_of(separator)] == separator);
            }
        }
        assert(part[part.len() - 1] != separator);
        lemma_split_append(text, separator, front);
        assert(whole.drop_last() =~= text.push(separator) + front);
        assert(whole.last() == part.last());
        let parts = split(text, separator);
        assert(parts.push(front).drop_last() =~= parts);
        assert(front.push(part.last()) =~= part);
        assert(split(whole, separator) =~= parts.push(part));
    }
}

/// The characters that count as white space.
pub open spec fn is_white_space(ch: char) -> bool {
    let code = ch as u32;
    ||| 0x9 <= code <= 0xd
    ||| code == 0x20
    ||| code == 0x85
    ||| code == 0xa0
    ||| code == 0x1680
    ||| 0x2000 <= code <= 0x200a
    ||| code == 0x2028
    ||| code == 0x2029
    ||| code == 0x202f
    ||| code == 0x205f
    ||| code == 0x3000
}

/// Does the character count as white space?
pub fn check_white_space(ch: char) -> (result: bool)
    ensures
        result == is_white_space(ch),
{
    let code: u32 = ch as u32;
    (0x9 <= code && code <= 0xd) || code == 0x20 || code == 0x85 || code == 0xa0 || code == 0x1680
        || (0x2000 <= code && code <= 0x200a) || code == 0x2028 || code == 0x2029 || code == 0x202f
        || code == 0x205f || code == 0x3000
}

/// A text without the white space at its start.
pub open spec fn trimmed_start(text: Seq<char>) -> Seq<char>
    decreases text.len(),
{
    if text.len() > 0 && is_white_space(text[0]) {
        trimmed_start(text.drop_first())
    } else {
        text
    }
}

/// A text without the white space at its end.
pub open spec fn trimmed_end(text: Seq<char>) -> Seq<char>
    decreases text.len(),
{
    if text.len() > 0 && is_white_space(text.last()) {
        trimmed_end(text.drop_last())
    } else {
        text
    }
}

/// A text without the white space at both ends.
pub open spec fn trimmed(text: Seq<char>) -> Seq<char> {
    trimmed_end(trimmed_start(text))
}

/// White space at the start makes no difference.
proof fn lemma_trimmed_start(text: Seq<char>, n: int)
    requires
        0 <= n <= text.len(),
        forall|i: int| 0 <= i < n ==> is_white_space(#[trigger] text[i]),
    ensures
        trimmed_start(text) == trimmed_start(text.skip(n)),
    decreases n,
{
    if n > 0 {
        lemma_trimmed_start(text, n - 1);
        assert(text.skip(n - 1).drop_first() =~= text.skip(n));
        assert(text.skip(n - 1)[0] == text[n - 1]);
    } else {
        assert(text.skip(0) =~= text);
    }
}

/// White space at the end makes no difference.
proof fn lemma_trimmed_end(text: Seq<char>, n: int)
    requires
        0 <= n <= text.len(),
        forall|i: int| n <= i < text.len() ==> is_white_space(#[trigger] text[i]),
    ensures
        trimmed_end(text) == trimmed_end(text.take(n)),
    decreases text.len() - n,
{
    if n < text.len() {
        lemma_trimmed_end(text, n + 1);
        assert(text.take(n + 1).drop_last() =~= text.take(n));
        assert(text.take(n + 1).last() == text[n]);
    } else {
        assert(text.take(n) =~= text);
    }
}

/// Remove the white space at both ends of a text.
pub fn trim_chars(chars: &Vec<char>) -> (result: Vec<char>)
    ensures
        result@ == trimmed(chars@),
{
    let mut start: usize = 0;
    while start < chars.len() && check_white_space(chars[start])
        invariant
            0 <= start <= chars@.len(),
            forall|i: int| 0 <= i < start ==> is_white_space(#[trigger] chars@[i]),
        decreases chars@.len() - start,
    {
        start = start + 1;
    }
    let ghost tail = chars@.skip(start as int);
    proof {
        lemma_trimmed_start(chars@, start as int);
        if start < chars@.len() {
            assert(tail[0] == chars@[start as int]);
        }
        assert(trimmed_start(chars@) == tail);
    }
    let mut end: usize = chars.len();
    while end > start && check_white_space(chars[end - 1])
        invariant
            0 <= start <= end <= chars@.len(),
            forall|i: int| end <= i < chars@.len() ==> is_white_space(#[trigger] chars@[i]),
        decreases end,
    {
        end = end - 1;
    }
    let ghost length = end - start;
    proof {
        assert forall|i: int| length <= i < tail.len() implies is_white_space(#[trigger] tail[i]) by {
            assert(tail[i] == chars@[start + i]);
        }
        lemma_trimmed_end(tail, length);
        if length > 0 {
            assert(tail.take(length).last() == chars@[end - 1]);
        }
        assert(trimmed(chars@) == tail.take(length));
    }
    let mut result: Vec<char> = Vec::new();
    let mut i: usize = start;
    while i < end
        invariant
            start <= i <= end <= chars@.len(),
            result@ == chars@.skip(start as int).take(i - start),
        decreases end - i,
    {
        result.push(chars[i]);
        i = i + 1;
        assert(result@ =~= chars@.skip(start as int).take(i - start));
    }
    result
}

/// A line without a carriage return at its end.
pub open spec fn without_return(line: Seq<char>) -> Seq<char> {
    if line.len() > 0 && line.last() == '\r' {
        line.drop_last()
    } else {
        line
    }
}

/// The parts of a text that end with a line break, and what comes after the last one unless that is
/// empty.
pub open spec fn line_parts(text: Seq<char>) -> Seq<Seq<char>> {
    let parts = split(text, '\n');
    if parts.last().len() == 0 {
        parts.drop_last()
    } else {
        parts
    }
}

/// The lines of a text. A carriage return is part of the line break that follows it.
pub open spec fn text_lines(text: Seq<char>) -> Seq<Seq<char>> {
    let parts = line_parts(text);
    let breaks = split(text, '\n').len() - 1;
    Seq::new(
        parts.len(),
        |i: int|
            if i < breaks {
                without_return(parts[i])
            } else {
                parts[i]
            },
    )
}

/// Split a text into lines like `str::lines` does.
pub fn split_lines(chars: &Vec<char>) -> (lines: Vec<Vec<char>>)
    ensures
        same_texts(lines@, text_lines(chars@)),
{
    let mut parts: Vec<Vec<char>> = split_chars(chars, '\n');
    proof {
        lemma_split_nonempty(chars@, '\n');
    }
    let last: usize = parts.len() - 1;
    if parts[last].len() == 0 {
        parts.pop();
    }
    let ghost texts = line_parts(chars@);
    let mut lines: Vec<Vec<char>> = Vec::new();
    let mut i: usize = 0;
    while i < parts.len()
        invariant
            same_texts(parts@, texts),
            texts == line_parts(chars@),
            last == split(chars@, '\n').len() - 1,
            0 <= i <= parts@.len(),
            lines@.len() == i,
            forall|k: int| 0 <= k < i ==> (#[trigger] lines@[k])@ == text_lines(chars@)[k],
        decreases parts@.len() - i,
    {
        let part: &Vec<char> = &parts[i];
        let length: usize = if i < last && part.len() > 0 && part[part.len() - 1] == '\r' {
            part.len() - 1
        } else {
            part.len()
        };
        let mut line: Vec<char> = Vec::new();
        let mut k: usize = 0;
        while k < length
            invariant
                length <= part@.len(),
                0 <= k <= length,
                line@ == part@.take(k as int),
            decreases length - k,
        {
            line.push(part[k]);
            k = k + 1;
            assert(line@ =~= part@.take(k as int));
        }
        assert(line@ =~= text_lines(chars@)[i as int]) by {
            assert(part@ == texts[i as int]);
        }
        lines.push(line);
        i = i + 1;
    }
    lines
}

/// The text starts with the given one.
pub fn starts_with(text: &str, prefix: &str) -> (result: bool)
    ensures
        result == prefix@.is_prefix_of(text@),
{
    let chars: Vec<char> = chars_of(text);
    let expected: Vec<char> = chars_of(prefix);
    if expected.len() > chars.len() {
        return false;
    }
    let mut i: usize = 0;
    while i < expected.len()
        invariant
            chars@ == text@,
            expected@ == prefix@,
            expected@.len() <= chars@.len(),
            0 <= i <= expected@.len(),
            forall|k: int| 0 <= k < i ==> expected@[k] == chars@[k],
        decreases expected@.len() - i,
    {
        if expected[i] != chars[i] {
            proof {
                if prefix@.is_prefix_of(text@) {
                    assert(prefix@[i as int] == text@.subrange(0, prefix@.len() as int)[i as int]);
                }
            }
            return false;
        }
        i = i + 1;
    }
    assert(prefix@ =~= text@.subrange(0, prefix@.len() as int));
    true
}

/// A text with one character replaced by another.
pub open spec fn replaced(text: Seq<char>, from: char, to: char) -> Seq<char> {
    text.map_values(
        |ch: char|
            if ch == from {
                to
            } else {
                ch
            },
    )
}

/// Replace a character by another one wherever it occurs.
pub fn replace_char(text: &str, from: char, to: char) -> (result: String)
    ensures
        result@ == replaced(text@, from, to),
{
    let chars: Vec<char> = chars_of(text);
    let mut result: String = String::new();
    let mut i: usize = 0;
    while i < chars.len()
        invariant
            chars@ == text@,
            0 <= i <= chars@.len(),
            result@ == replaced(text@, from, to).take(i as int),
        decreases chars@.len() - i,
    {
        if chars[i] == from {
            result.push(to);
        } else {
            result.push(chars[i]);
        }
        i = i + 1;
        assert(result@ =~= replaced(text@, from, to).take(i as int));
    }
    assert(result@ =~= replaced(text@, from, to));
    result
}

/// The character is a decimal digit.
pub open spec fn is_digit(ch: char) -> bool {
    '0' <= ch <= '9'
}

/// The digit for a number below ten.
pub open spec fn digit(n: nat) -> char {
    (n + ('0' as nat)) as char
}

/// A number in decimal.
pub open spec fn decimal(n: nat) -> Seq<char>
    decreases n,
{
    if n < 10 {
        seq![digit(n)]
    } else {
        decimal(n / 10).push(digit(n % 10))
    }
}

/// The number that digits stand for.
pub open spec fn decimal_value(digits: Seq<char>) -> nat
    decreases digits.len(),
{
    if digits.len() == 0 {
        0
    } else {
        decimal_value(digits.drop_last()) * 10 + (digits.last() as nat - '0' as nat) as nat
    }
}

/// The text consists of digits, and there is at least one.
pub open spec fn is_decimal(text: Seq<char>) -> bool {
    text.len() > 0 && forall|i: int| 0 <= i < text.len() ==> is_digit(#[trigger] text[i])
}

/// The text without a leading plus sign.
pub open spec fn without_plus(text: Seq<char>) -> Seq<char> {
    if text.len() > 0 && text[0] == '+' {
        text.skip(1)
    } else {
        text
    }
}

/// The number that a text stands for, if it is made of digits, with or without a leading plus sign,
/// and does not exceed the bound.
pub open spec fn parsed_number(text: Seq<char>, bound: nat) -> Option<nat> {
    let digits = without_plus(text);
    if is_decimal(digits) && decimal_value(digits) <= bound {
        Some(decimal_value(digits))
    } else {
        None
    }
}

/// Fewer digits stand for a smaller number.
proof fn lemma_decimal_prefix(digits: Seq<char>, n: int)
    requires
        is_decimal(digits),
        0 <= n <= digits.len(),
    ensures
        decimal_value(digits.take(n)) <= decimal_value(digits),
    decreases digits.len() - n,
{
    if n < digits.len() {
        lemma_decimal_prefix(digits, n + 1);
        assert(digits.take(n + 1).drop_last() =~= digits.take(n));
    } else {
        assert(digits.take(n) =~= digits);
    }
}

/// Parse a number like `str::parse` does.
pub fn parse_usize(text: &Vec<char>) -> (number: Option<usize>)
    ensures
        match number {
            Some(number) => parsed_number(text@, usize::MAX as nat) == Some(number as nat),
            None => parsed_number(text@, usize::MAX as nat) is None,
        },
{
    let start: usize = if text.len() > 0 && text[0] == '+' {
        1
    } else {
        0
    };
    let ghost digits = without_plus(text@);
    proof {
        assert(digits =~= text@.skip(start as int));
    }
    if text.len() == start {
        return None;
    }
    let mut value: usize = 0;
    let mut i: usize = start;
    while i < text.len()
        invariant
            start <= i <= text@.len(),
            start < text@.len(),
            start <= 1,
            digits == text@.skip(start as int),
            digits == without_plus(text@),
            value == decimal_value(digits.take(i - start)),
            forall|k: int| 0 <= k < i - start ==> is_digit(#[trigger] digits[k]),
        decreases text@.len() - i,
    {
        let ch: char = text[i];
        let ghost k = i - start;
        proof {
            assert(digits[k] == ch);
            assert(digits.take(k + 1).drop_last() =~= digits.take(k));
            assert(digits.take(k + 1).last() == ch);
            if is_decimal(digits) {
                lemma_decimal_prefix(digits, k + 1);
            }
        }
        if ch < '0' || ch > '9' {
            assert(!is_digit(digits[k]));
            return None;
        }
        let d: usize = (ch as u32 - '0' as u32) as usize;
        match value.checked_mul(10) {
            None => {
                return None;
            },
            Some(shifted) => {
                match shifted.checked_add(d) {
                    None => {
                        return None;
                    },
                    Some(next) => {
                        value = next;
                    },
                }
            },
        }
        i = i + 1;
    }
    assert(digits.take(i - start) =~= digits);
    Some(value)
}

/// Append a number in decimal.
pub fn push_decimal(text: &mut String, n: usize)
    ensures
        final(text)@ == old(text)@ + decimal(n as nat),
    decreases n,
{
    if n >= 10 {
        push_decimal(text, n / 10);
    }
    let ghost before = text@;
    let last: u32 = (n % 10) as u32;
    let ch: char = digit_char(last);
    text.push(ch);
    proof {
        if n >= 10 {
            assert(text@ =~= old(text)@ + decimal(n as nat / 10).push(digit(n as nat % 10)));
        } else {
            assert(text@ =~= old(text)@ + seq![digit(n as nat)]);
        }
    }
}

/// The digit for a number below ten.
fn digit_char(n: u32) -> (ch: char)
    requires
        n < 10,
    ensures
        ch == digit(n as nat),
{
    if n == 0 {
        '0'
    } else if n == 1 {
        '1'
    } else if n == 2 {
        '2'
    } else if n == 3 {
        '3'
    } else if n == 4 {
        '4'
    } else if n == 5 {
        '5'
    } else if n == 6 {
        '6'
    } else if n == 7 {
        '7'
    } else if n == 8 {
        '8'
    } else {
        '9'
    }
}

/// A number in decimal is made of digits that stand for it.
pub proof fn lemma_decimal_round_trip(n: nat)
    ensures
        is_decimal(decimal(n)),
        decimal_value(decimal(n)) == n,
    decreases n,
{
    if n < 10 {
        assert(decimal(n).drop_last() =~= Seq::empty());
        assert(decimal_value(Seq::<char>::empty()) == 0);
    } else {
        lemma_decimal_round_trip(n / 10);
        assert(decimal(n).drop_last() =~= decimal(n / 10));
    }
}

/// The parts one after the other, with the separator between them.
pub open spec fn joined(parts: Seq<Seq<char>>, separator: char) -> Seq<char>
    decreases parts.len(),
{
    if parts.len() == 0 {
        Seq::empty()
    } else if parts.len() == 1 {
        parts[0]
    } else {
        joined(parts.drop_last(), separator).push(separator) + parts.last()
    }
}

/// The parts of a text make up the text again when they are joined, and none of them has a separator.
pub proof fn lemma_split_joined(text: Seq<char>, separator: char)
    ensures
        split(text, separator).len() >= 1,
        joined(split(text, separator), separator) == text,
        forall|i: int|
            0 <= i < split(text, separator).len() ==> !(#[trigger] split(text, separator)[i]).contains(
                separator,
            ),
    decreases text.len(),
{
    let parts = split(text, separator);
    if text.len() == 0 {
        assert(joined(parts, separator) =~= text);
    } else {
        let front = text.drop_last();
        let before = split(front, separator);
        lemma_split_joined(front, separator);
        if text.last() == separator {
            assert(parts.drop_last() =~= before);
            assert(joined(parts, separator) =~= text);
        } else {
            let last = before.last().push(text.last());
            assert(parts == before.drop_last().push(last));
            assert(!last.contains(separator)) by {
                if last.contains(separator) {
                    let k = last.index_of(separator);
                    assert(k < before.last().len());
                    assert(before.last()[k] == separator);
                    assert(before[before.len() - 1].contains(separator));
                }
            }
            assert forall|i: int| 0 <= i < parts.len() implies !(#[trigger] parts[i]).contains(
                separator,
            ) by {
                if i < parts.len() - 1 {
                    assert(parts[i] == before[i]);
                }
            }
            if before.len() == 1 {
                assert(joined(before, separator) == before[0]);
                assert(parts.len() == 1 && parts[0] == last);
                assert(front.push(text.last()) =~= text);
            } else {
                assert(parts.drop_last() =~= before.drop_last());
                assert(parts.last() == last);
                let head = joined(before.drop_last(), separator).push(separator);
                assert(front == head + before.last());
                assert((head + before.last()).push(text.last()) =~= head + last);
                assert(front.push(text.last()) =~= text);
            }
        }
    }
}

/// A trimmed text is the part of the text between its first and its last character that is not white
/// space. Only white space is taken away, and all of it at both ends.
pub proof fn lemma_trimmed_part(text: Seq<char>) -> (bounds: (int, int))
    ensures
        0 <= bounds.0 <= bounds.1 <= text.len(),
        trimmed(text) == text.subrange(bounds.0, bounds.1),
        forall|i: int|
            0 <= i < bounds.0 || bounds.1 <= i < text.len() ==> is_white_space(#[trigger] text[i]),
        bounds.0 < bounds.1 ==> !is_white_space(text[bounds.0]) && !is_white_space(
            text[bounds.1 - 1],
        ),
{
    let a = lemma_start_part(text);
    let rest = text.skip(a);
    let n = lemma_end_part(rest);
    assert(rest.take(n) =~= text.subrange(a, a + n));
    assert forall|i: int| a + n <= i < text.len() implies is_white_space(#[trigger] text[i]) by {
        assert(rest[i - a] == text[i]);
    }
    if n > 0 {
        assert(rest[0] == text[a]);
        assert(rest[n - 1] == text[a + n - 1]);
    }
    (a, a + n)
}

/// What is left of a text without the white space at its start.
proof fn lemma_start_part(text: Seq<char>) -> (start: int)
    ensures
        0 <= start <= text.len(),
        trimmed_start(text) == text.skip(start),
        forall|i: int| 0 <= i < start ==> is_white_space(#[trigger] text[i]),
        start < text.len() ==> !is_white_space(text[start]),
    decreases text.len(),
{
    if text.len() > 0 && is_white_space(text[0]) {
        let rest = text.drop_first();
        let start = lemma_start_part(rest);
        assert(rest.skip(start) =~= text.skip(start + 1));
        assert forall|i: int| 0 <= i < start + 1 implies is_white_space(#[trigger] text[i]) by {
            if i > 0 {
                assert(rest[i - 1] == text[i]);
            }
        }
        if start < rest.len() {
            assert(rest[start] == text[start + 1]);
        }
        start + 1
    } else {
        assert(text.skip(0) =~= text);
        0
    }
}

/// What is left of a text without the white space at its end.
proof fn lemma_end_part(text: Seq<char>) -> (end: int)
    ensures
        0 <= end <= text.len(),
        trimmed_end(text) == text.take(end),
        forall|i: int| end <= i < text.len() ==> is_white_space(#[trigger] text[i]),
        end > 0 ==> !is_white_space(text[end - 1]),
    decreases text.len(),
{
    if text.len() > 0 && is_white_space(text.last()) {
        let rest = text.drop_last();
        let end = lemma_end_part(rest);
        assert(rest.take(end) =~= text.take(end));
        assert forall|i: int| end <= i < text.len() implies is_white_space(#[trigger] text[i]) by {
            if i < rest.len() {
                assert(rest[i] == text[i]);
            }
        }
        end
    } else {
        assert(text.take(text.len() as int) =~= text);
        text.len() as int
    }
}

/// The lines one after the other, each with its line break.
pub open spec fn broken(lines: Seq<Seq<char>>, breaks: Seq<Seq<char>>) -> Seq<char>
    decreases lines.len(),
{
    if lines.len() == 0 {
        Seq::empty()
    } else {
        broken(lines.drop_last(), breaks.drop_last()) + lines.last() + breaks.last()
    }
}

/// The text is made up of its lines and the line breaks after them. A line break is a line feed, with
/// a carriage return before it or not; only the last line may do without, if it isn't empty. No line
/// has a line feed in it, and none has a carriage return that belongs to its line break.
pub proof fn lemma_lines_broken(text: Seq<char>) -> (breaks: Seq<Seq<char>>)
    ensures
        breaks.len() == text_lines(text).len(),
        broken(text_lines(text), breaks) == text,
        forall|i: int|
            0 <= i < breaks.len() ==> {
                let line = text_lines(text)[i];
                &&& !line.contains('\n')
                &&& (#[trigger] breaks[i]) == seq!['\n'] ==> (line.len() == 0 || line.last() != '\r')
                &&& breaks[i] == seq!['\n'] || breaks[i] == seq!['\r', '\n'] || (i == breaks.len() - 1
                    && breaks[i] == Seq::<char>::empty() && line.len() > 0)
            },
{
    let parts = split(text, '\n');
    let lines = text_lines(text);
    let n = parts.len() - 1;
    lemma_split_joined(text, '\n');
    let breaks = Seq::new(
        lines.len(),
        |i: int|
            if i >= n {
                Seq::<char>::empty()
            } else if parts[i].len() > 0 && parts[i].last() == '\r' {
                seq!['\r', '\n']
            } else {
                seq!['\n']
            },
    );
    assert forall|i: int| 0 <= i < lines.len() implies #[trigger] line_parts(text)[i] == parts[i] by {}
    assert forall|i: int| 0 <= i < breaks.len() implies {
        let line = lines[i];
        &&& !line.contains('\n')
        &&& (#[trigger] breaks[i]) == seq!['\n'] ==> (line.len() == 0 || line.last() != '\r')
        &&& breaks[i] == seq!['\n'] || breaks[i] == seq!['\r', '\n'] || (i == breaks.len() - 1
            && breaks[i] == Seq::<char>::empty() && line.len() > 0)
    } by {
        let line = lines[i];
        assert(!parts[i].contains('\n'));
        if line.contains('\n') {
            assert(parts[i][line.index_of('\n')] == '\n');
        }
        if i < n && parts[i].len() > 0 && parts[i].last() == '\r' {
            assert(breaks[i].len() == 2);
            assert(seq!['\n'].len() == 1);
        }
        if i >= n {
            assert(breaks[i].len() == 0);
        }
    }
    assert forall|i: int| 0 <= i < lines.len() implies #[trigger] lines[i] + breaks[i] == (if i
        < parts.len() - 1 {
        parts[i].push('\n')
    } else {
        parts[i]
    }) by {
        assert(line_parts(text)[i] == parts[i]);
        if i < n {
            if parts[i].len() > 0 && parts[i].last() == '\r' {
                assert(lines[i] + breaks[i] =~= parts[i].push('\n'));
            } else {
                assert(lines[i] + breaks[i] =~= parts[i].push('\n'));
            }
        } else {
            assert(lines[i] + breaks[i] =~= parts[i]);
        }
    }
    lemma_broken_prefix(parts, lines, breaks, lines.len() as int);
    assert(lines.take(lines.len() as int) =~= lines);
    assert(breaks.take(breaks.len() as int) =~= breaks);
    if lines.len() == parts.len() {
        assert(parts.take(parts.len() as int) =~= parts);
    } else {
        assert(parts.take(n) =~= parts.drop_last());
        assert(parts.last() =~= Seq::empty());
        if n == 0 {
            assert(text =~= Seq::empty());
        } else {
            assert(joined(parts, '\n') =~= joined(parts.take(n), '\n').push('\n'));
        }
    }
    breaks
}

/// The first lines with their breaks are the first parts joined.
proof fn lemma_broken_prefix(
    parts: Seq<Seq<char>>,
    lines: Seq<Seq<char>>,
    breaks: Seq<Seq<char>>,
    k: int,
)
    requires
        0 <= k <= lines.len(),
        lines.len() == breaks.len(),
        lines.len() <= parts.len(),
        forall|i: int|
            0 <= i < lines.len() ==> #[trigger] lines[i] + breaks[i] == (if i < parts.len() - 1 {
                parts[i].push('\n')
            } else {
                parts[i]
            }),
    ensures
        broken(lines.take(k), breaks.take(k)) == (if k == 0 {
            Seq::empty()
        } else if k < parts.len() {
            joined(parts.take(k), '\n').push('\n')
        } else {
            joined(parts, '\n')
        }),
    decreases k,
{
    if k > 0 {
        lemma_broken_prefix(parts, lines, breaks, k - 1);
        assert(lines.take(k).drop_last() =~= lines.take(k - 1));
        assert(breaks.take(k).drop_last() =~= breaks.take(k - 1));
        assert(parts.take(k).drop_last() =~= parts.take(k - 1));
        let before = broken(lines.take(k - 1), breaks.take(k - 1));
        assert(before + lines[k - 1] + breaks[k - 1] =~= before + (lines[k - 1] + breaks[k - 1]));
        assert(parts.take(k).last() == parts[k - 1]);
        if k == parts.len() {
            assert(parts.take(k) =~= parts);
            if k > 1 {
                assert(broken(lines.take(k), breaks.take(k)) =~= joined(parts, '\n'));
            } else {
                assert(before =~= Seq::empty());
                assert(broken(lines.take(k), breaks.take(k)) =~= joined(parts, '\n'));
            }
        } else {
            if k > 1 {
                assert(broken(lines.take(k), breaks.take(k)) =~= joined(parts.take(k), '\n').push(
                    '\n',
                ));
            } else {
                assert(before =~= Seq::empty());
                assert(broken(lines.take(k), breaks.take(k)) =~= joined(parts.take(k), '\n').push(
                    '\n',
                ));
            }
        }
    }
}

/// Text that a number is written as with digits, with or without a plus sign, stands for that number,
/// unless the number exceeds the bound. Nothing else stands for a number.
pub proof fn lemma_parsed_number(text: Seq<char>, bound: nat)
    ensures
        forall|n: nat|
            n <= bound ==> parsed_number(#[trigger] decimal(n), bound) == Some(n) && parsed_number(
                seq!['+'] + decimal(n),
                bound,
            ) == Some(n),
        parsed_number(text, bound) matches Some(n) ==> n <= bound && text.len() > 0 && (text[0]
            == '+' || is_digit(text[0])) && is_digit(text.last()) && forall|i: int|
            0 < i < text.len() ==> is_digit(#[trigger] text[i]),
{
    assert forall|n: nat| n <= bound implies parsed_number(#[trigger] decimal(n), bound) == Some(n)
        && parsed_number(seq!['+'] + decimal(n), bound) == Some(n) by {
        lemma_decimal_round_trip(n);
        let digits = decimal(n);
        assert(is_digit(digits[0]));
        assert((seq!['+'] + digits).skip(1) =~= digits);
    }
    if parsed_number(text, bound) is Some {
        let digits = without_plus(text);
        if text[0] == '+' {
            assert forall|i: int| 0 < i < text.len() implies is_digit(#[trigger] text[i]) by {
                assert(digits[i - 1] == text[i]);
            }
        }
    }
}

} // verus!
