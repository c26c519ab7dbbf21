//! Texts as sequences of characters: finding, decimal numbers, trimming and
//! replacing.
use vstd::prelude::*;
use vstd::string::StringExecFns;

verus! {

/// The texts that a list of strings holds.
pub open spec fn texts(list: Seq<String>) -> Seq<Seq<char>> {
    list.map_values(|s: String| s@)
}

/// The text that an optional string holds.
pub open spec fn optional_text(text: Option<String>) -> Option<Seq<char>> {
    match text {
        Some(s) => Some(s@),
        None => None,
    }
}

/// `String::push` appends the character to the end of the string.
pub assume_specification[ String::push ](s: &mut String, c: char)
    ensures
        final(s)@ == old(s)@.push(c),
;

/// Whether a character has the Unicode property `White_Space`.
pub open spec fn is_white_space(c: char) -> bool {
    let code = c as int;
    ||| 0x9 <= code <= 0xd
    ||| code == 0x20 || code == 0x85 || code == 0xa0 || code == 0x1680
    ||| 0x2000 <= code <= 0x200a
    ||| code == 0x2028 || code == 0x2029 || code == 0x202f || code == 0x205f || code == 0x3000
}

/// `char::is_whitespace` tells whether the character has the Unicode property
/// `White_Space`, which these characters have.
pub assume_specification[ char::is_whitespace ](c: char) -> (white: bool)
    ensures
        white == is_white_space(c),
;

/// The characters of a text, in order.
pub fn chars_of(text: &str) -> (chars: Vec<char>)
    ensures
        chars@ == text@,
{
    let mut chars: Vec<char> = Vec::new();
    for c in it: text.chars()
        invariant
            chars@ == it.seq().take(it.index()),
            it.seq() == text@,
    {
        chars.push(c);
    }
    chars
}

/// The text made of the characters `chars[from..to]`.
pub fn text_of(chars: &Vec<char>, from: usize, to: usize) -> (text: String)
    requires
        from <= to <= chars.len(),
    ensures
        text@ == chars@.subrange(from as int, to as int),
{
    let mut text = String::new();
    let mut i: usize = from;
    while i < to
        invariant
            from <= i <= to <= chars.len(),
            text@ == chars@.subrange(from as int, i as int),
        decreases to - i,
    {
        text.push(chars[i]);
        assert(chars@.subrange(from as int, i + 1) =~= chars@.subrange(
            from as int,
            i as int,
        ).push(chars@[i as int]));
        i += 1;
    }
    text
}

/// Whether two texts hold the same characters.
pub fn same_text(a: &str, b: &str) -> (same: bool)
    ensures
        same == (a@ == b@),
{
    a.to_owned() == b.to_owned()
}

/// Two texts, one after the other.
pub fn join2(a: &str, b: &str) -> (text: String)
    ensures
        text@ == a@ + b@,
{
    a.to_owned().concat(b)
}

/// Three texts, one after the other.
pub fn join3(a: &str, b: &str, c: &str) -> (text: String)
    ensures
        text@ == a@ + b@ + c@,
{
    a.to_owned().concat(b).concat(c)
}

/// Whether a list of texts holds a text.
pub fn contains_text(list: &Vec<String>, wanted: &str) -> (found: bool)
    ensures
        found == texts(list@).contains(wanted@),
{
    let mut i: usize = 0;
    while i < list.len()
        invariant
            i <= list.len(),
            forall|j: int| 0 <= j < i ==> list@[j]@ != wanted@,
        decreases list.len() - i,
    {
        if same_text(list[i].as_str(), wanted) {
            assert(texts(list@)[i as int] == wanted@);
            return true;
        }
        i += 1;
    }
    assert forall|j: int| 0 <= j < list.len() implies texts(list@)[j] != wanted@ by {
        assert(list@[j]@ != wanted@);
    }
    false
}

/// The first position at which a text stands in a list.
pub open spec fn first_position(list: Seq<Seq<char>>, wanted: Seq<char>) -> Option<int>
    decreases list.len(),
{
    if list.len() == 0 {
        None
    } else {
        match first_position(list.drop_last(), wanted) {
            Some(i) => Some(i),
            None => if list.last() == wanted {
                Some(list.len() - 1)
            } else {
                None
            },
        }
    }
}

/// The position that `first_position` gives is in the list, holds the text,
/// and no earlier one does; without a position the text is not in the list.
pub proof fn lemma_first_position(list: Seq<Seq<char>>, wanted: Seq<char>)
    ensures
        first_position(list, wanted) matches Some(i) ==> 0 <= i < list.len() && list[i] == wanted && (
        forall|j: int| 0 <= j < i ==> list[j] != wanted),
        first_position(list, wanted) is None ==> !list.contains(wanted),
    decreases list.len(),
{
    if list.len() > 0 {
        lemma_first_position(list.drop_last(), wanted);
        assert forall|j: int| 0 <= j < list.len() && first_position(list, wanted) is None implies list[j]
            != wanted by {
            if j < list.len() - 1 {
                assert(list.drop_last()[j] == list[j]);
                assert(list.drop_last().contains(list[j]));
            }
        }
        assert forall|i: int, j: int|
            first_position(list, wanted) == Some(i) && 0 <= j < i implies list[j] != wanted by {
            assert(list.drop_last()[j] == list[j]);
            if i == list.len() - 1 {
                if list[j] == wanted && first_position(list.drop_last(), wanted) is None {
                    assert(list.drop_last().contains(wanted));
                }
            }
        }
    }
}

/// A position that holds the text, with no earlier one that does, is the
/// first position.
pub proof fn lemma_first_position_is(list: Seq<Seq<char>>, wanted: Seq<char>, i: int)
    requires
        0 <= i < list.len(),
        list[i] == wanted,
        forall|j: int| 0 <= j < i ==> list[j] != wanted,
    ensures
        first_position(list, wanted) == Some(i),
{
    lemma_first_position(list, wanted);
    assert(list.contains(wanted));
    let k = first_position(list, wanted)->0;
    if k < i {
        assert(list[k] != wanted);
    }
}

/// The first position at which a text stands in a list of strings.
pub fn position_of(list: &Vec<String>, wanted: &str) -> (position: Option<usize>)
    ensures
        match position {
            Some(i) => first_position(texts(list@), wanted@) == Some(i as int) && i < list.len(),
            None => first_position(texts(list@), wanted@) is None,
        },
{
    let mut i: usize = 0;
    while i < list.len()
        invariant
            i <= list.len(),
            forall|j: int| 0 <= j < i ==> texts(list@)[j] != wanted@,
        decreases list.len() - i,
    {
        if same_text(list[i].as_str(), wanted) {
            proof {
                assert(texts(list@)[i as int] == wanted@);
                lemma_first_position_is(texts(list@), wanted@, i as int);
            }
            return Some(i);
        }
        i += 1;
    }
    proof {
        lemma_first_position(texts(list@), wanted@);
    }
    None
}

// ---------------------------------------------------------------- numbers

/// The digit character of a number below ten.
pub open spec fn digit_char(d: nat) -> char {
    ('0' as int + d) as char
}

/// A number in decimal digits, without leading zeros.
pub open spec fn decimal_text(n: nat) -> Seq<char>
    decreases n,
{
    if n < 10 {
        seq![digit_char(n)]
    } else {
        decimal_text(n / 10).push(digit_char(n % 10))
    }
}

/// Writes a number in decimal digits.
pub fn decimal(n: u64) -> (text: String)
    ensures
        text@ == decimal_text(n as nat),
    decreases n,
{
    if n < 10 {
        let mut text = String::new();
        text.push((48u8 + n as u8) as char);
        assert(text@ =~= seq![digit_char(n as nat)]);
        text
    } else {
        let mut text = decimal(n / 10);
        text.push((48u8 + (n % 10) as u8) as char);
        text
    }
}

/// Whether a character is one of the ten decimal digits.
pub open spec fn is_digit(c: char) -> bool {
    '0' as int <= c as int <= '9' as int
}

/// The number that a sequence of decimal digits stands for.
pub open spec fn digits_value(digits: Seq<char>) -> nat
    decreases digits.len(),
{
    if digits.len() == 0 {
        0
    } else {
        digits_value(digits.drop_last()) * 10 + (digits.last() as int - '0' as int) as nat
    }
}

/// The part of a number's text behind an optional plus sign.
pub open spec fn unsigned_digits(text: Seq<char>) -> Seq<char> {
    if text.len() > 1 && text[0] == '+' {
        text.subrange(1, text.len() as int)
    } else {
        text
    }
}

/// The number that a text reads as: an optional plus sign and at least one
/// digit, with a value that 64 bits can hold.
pub open spec fn parsed_u64(text: Seq<char>) -> Option<u64> {
    let digits = unsigned_digits(text);
    if digits.len() > 0 && (forall|i: int| 0 <= i < digits.len() ==> is_digit(#[trigger] digits[i]))
        && digits_value(digits) <= u64::MAX {
        Some(digits_value(digits) as u64)
    } else {
        None
    }
}

/// The value of digits only grows when more of them are read.
proof fn lemma_digits_value_prefix(digits: Seq<char>, n: int)
    requires
        0 <= n <= digits.len(),
        forall|i: int| 0 <= i < digits.len() ==> is_digit(#[trigger] digits[i]),
    ensures
        digits_value(digits.take(n)) <= digits_value(digits),
    decreases digits.len() - n,
{
    if n == digits.len() {
        assert(digits.take(n) =~= digits);
    } else {
        lemma_digits_value_prefix(digits, n + 1);
        assert(digits.take(n + 1).drop_last() =~= digits.take(n));
    }
}

/// Reads an unsigned number in decimal digits.
pub fn parse_u64(text: &str) -> (number: Option<u64>)
    ensures
        number == parsed_u64(text@),
{
    let chars = chars_of(text);
    let start: usize = if chars.len() > 1 && chars[0] == '+' {
        1
    } else {
        0
    };
    let ghost digits = unsigned_digits(text@);
    assert(digits =~= chars@.subrange(start as int, chars@.len() as int));
    if start == chars.len() {
        return None;
    }
    let mut value: u64 = 0;
    let mut i: usize = start;
    while i < chars.len()
        invariant
            start <= i <= chars.len(),
            digits == chars@.subrange(start as int, chars@.len() as int),
            digits == unsigned_digits(text@),
            forall|j: int| 0 <= j < i - start ==> is_digit(#[trigger] digits[j]),
            value == digits_value(digits.take(i - start)),
        decreases chars.len() - i,
    {
        let c = chars[i];
        assert(digits[i - start] == c);
        if !('0' <= c && c <= '9') {
            return None;
        }
        let d: u64 = (c as u32 - 48) as u64;
        assert(digits.take(i + 1 - start).drop_last() =~= digits.take(i - start));
        let ghost next: nat = digits_value(digits.take(i + 1 - start));
        assert(next == value * 10 + d);
        if value > 1844674407370955161 || (value == 1844674407370955161 && d > 5) {
            proof {
                if forall|j: int| 0 <= j < digits.len() ==> is_digit(#[trigger] digits[j]) {
                    lemma_digits_value_prefix(digits, i + 1 - start);
                }
            }
            return None;
        }
        value = value * 10 + d;
        i += 1;
    }
    assert(digits.take(chars.len() - start) =~= digits);
    Some(value)
}

/// A number's decimal text is a single nonempty run of digits with its value.
proof fn lemma_decimal_text(n: nat)
    ensures
        decimal_text(n).len() > 0,
        forall|i: int| 0 <= i < decimal_text(n).len() ==> is_digit(#[trigger] decimal_text(n)[i]),
        digits_value(decimal_text(n)) == n,
    decreases n,
{
    let text = decimal_text(n);
    if n < 10 {
        assert(text.drop_last() =~= Seq::<char>::empty());
        assert(digits_value(text.drop_last()) == 0);
    } else {
        lemma_decimal_text(n / 10);
        assert(text.drop_last() =~= decimal_text(n / 10));
        assert forall|i: int| 0 <= i < text.len() implies is_digit(#[trigger] text[i]) by {
            if i < text.len() - 1 {
                assert(text[i] == decimal_text(n / 10)[i]);
            }
        }
    }
}

/// Reading back what [`decimal`] wrote gives the number again.
pub proof fn law_parse_decimal(n: u64)
    ensures
        parsed_u64(decimal_text(n as nat)) == Some(n),
{
    lemma_decimal_text(n as nat);
    let text = decimal_text(n as nat);
    assert(is_digit(text[0]));
    assert(unsigned_digits(text) == text);
}

/// One more digit behind a number multiplies it by ten and adds the digit; a
/// number below ten is a single digit.
pub proof fn law_decimal_digits(n: nat, digit: nat)
    requires
        digit < 10,
    ensures
        decimal_text(digit) == seq![('0' as int + digit) as char],
        n > 0 ==> decimal_text(n * 10 + digit) == decimal_text(n).push(
            ('0' as int + digit) as char,
        ),
{
}

/// Whether a text is made of decimal digits only.
pub open spec fn are_digits(text: Seq<char>) -> bool {
    forall|i: int| 0 <= i < text.len() ==> '0' as int <= #[trigger] text[i] as int <= '9' as int
}

/// A number reads with one more digit behind it as ten times as much and the
/// digit, as long as 64 bits can hold that. A text without digits is no number,
/// and neither is one with anything but digits behind an optional plus sign.
pub proof fn law_parse_digits(text: Seq<char>, digit: nat)
    requires
        digit < 10,
    ensures
        parsed_u64(seq![('0' as int + digit) as char]) == Some(digit as u64),
        text.len() > 0 && are_digits(text) ==> parsed_u64(
            text.push(('0' as int + digit) as char),
        ) == (match parsed_u64(text) {
            Some(value) => if value * 10 + digit <= u64::MAX {
                Some((value * 10 + digit) as u64)
            } else {
                None
            },
            None => None,
        }),
        text.len() > 0 && are_digits(text) ==> parsed_u64(seq!['+'] + text) == parsed_u64(text),
        parsed_u64(Seq::empty()) is None,
        text.len() > 0 && text[0] != '+' && !are_digits(text) ==> parsed_u64(text) is None,
        !are_digits(text) ==> parsed_u64(seq!['+'] + text) is None,
        parsed_u64(seq!['+']) is None,
{
    let c = ('0' as int + digit) as char;
    let one = seq![c];
    assert(one.drop_last() =~= Seq::<char>::empty());
    assert(unsigned_digits(one) == one);
    assert(digits_value(one) == digit) by {
        assert(digits_value(one.drop_last()) == 0);
    }
    let plus = seq!['+'] + text;
    if text.len() > 0 && are_digits(text) {
        let longer = text.push(c);
        assert(longer.drop_last() =~= text);
        assert(longer.last() == c);
        assert('0' as int <= text[0] as int);
        assert(unsigned_digits(longer) == longer);
        assert(unsigned_digits(text) == text);
        assert(plus.subrange(1, plus.len() as int) =~= text);
        assert(unsigned_digits(plus) == text);
        assert forall|i: int| 0 <= i < longer.len() implies is_digit(#[trigger] longer[i]) by {
            if i < text.len() {
                assert(longer[i] == text[i]);
            }
        }
        assert forall|i: int| 0 <= i < text.len() implies is_digit(#[trigger] text[i]) by {}
        assert(digits_value(longer) == digits_value(text) * 10 + digit);
    }
    if !are_digits(text) {
        let i = choose|i: int|
            0 <= i < text.len() && !('0' as int <= #[trigger] text[i] as int <= '9' as int);
        assert(!is_digit(text[i]));
        assert(plus.subrange(1, plus.len() as int) =~= text);
    }
    assert(!is_digit(seq!['+'][0]));
}

// ---------------------------------------------------------------- trimming

/// A text without the white space at its end.
pub open spec fn trimmed_end(text: Seq<char>) -> Seq<char>
    decreases text.len(),
{
    if text.len() > 0 && is_white_space(text.last()) {
        trimmed_end(text.drop_last())
    } else {
        text
    }
}

/// A text without the white space at its start.
pub open spec fn trimmed_start(text: Seq<char>) -> Seq<char>
    decreases text.len(),
{
    if text.len() > 0 && is_white_space(text[0]) {
        trimmed_start(text.subrange(1, text.len() as int))
    } else {
        text
    }
}

/// A text without the white space around it.
pub open spec fn trimmed(text: Seq<char>) -> Seq<char> {
    trimmed_start(trimmed_end(text))
}

/// Removes the white space around a text.
pub fn trim(text: &str) -> (inner: String)
    ensures
        inner@ == trimmed(text@),
{
    let chars = chars_of(text);
    let mut end: usize = chars.len();
    assert(chars@.take(end as int) =~= text@);
    while end > 0 && chars[end - 1].is_whitespace()
        invariant
            end <= chars.len(),
            trimmed_end(chars@.take(end as int)) == trimmed_end(text@),
        ensures
            end <= chars.len(),
            trimmed_end(text@) == chars@.take(end as int),
        decreases end,
    {
        assert(chars@.take(end as int).drop_last() =~= chars@.take(end - 1));
        end -= 1;
    }
    let ghost rest = chars@.take(end as int);
    let mut start: usize = 0;
    assert(rest.subrange(0, end as int) =~= rest);
    while start < end && chars[start].is_whitespace()
        invariant
            start <= end <= chars.len(),
            rest == chars@.take(end as int),
            trimmed_start(rest.subrange(start as int, end as int)) == trimmed_start(rest),
        ensures
            start <= end <= chars.len(),
            trimmed_start(rest) == rest.subrange(start as int, end as int),
        decreases end - start,
    {
        assert(rest.subrange(start as int, end as int).subrange(1, end - start) =~= rest.subrange(
            start + 1,
            end as int,
        ));
        start += 1;
    }
    assert(rest.subrange(start as int, end as int) =~= chars@.subrange(start as int, end as int));
    text_of(&chars, start, end)
}

/// Whether a text holds nothing but white space.
pub open spec fn is_blank_text(text: Seq<char>) -> bool {
    forall|i: int| 0 <= i < text.len() ==> is_white_space(#[trigger] text[i])
}

/// Trimming takes away all white space around a text, and nothing else: what is
/// left neither starts nor ends with white space, whatever stands inside it.
pub proof fn law_trim(before: Seq<char>, inner: Seq<char>, after: Seq<char>)
    requires
        is_blank_text(before),
        is_blank_text(after),
        inner.len() > 0 ==> !is_white_space(inner[0]) && !is_white_space(inner.last()),
    ensures
        trimmed(before + inner + after) == inner,
{
    lemma_trimmed_end(before + inner, after);
    if inner.len() == 0 {
        assert(before + inner =~= before);
        lemma_trimmed_end(Seq::empty(), before);
        assert(Seq::<char>::empty() + before =~= before);
        assert(trimmed_start(Seq::<char>::empty()) =~= inner);
    } else {
        assert((before + inner).last() == inner.last());
        lemma_trimmed_start(before, inner);
    }
}

proof fn lemma_trimmed_end(text: Seq<char>, after: Seq<char>)
    requires
        is_blank_text(after),
    ensures
        trimmed_end(text + after) == trimmed_end(text),
    decreases after.len(),
{
    if after.len() == 0 {
        assert(text + after =~= text);
    } else {
        let shorter = after.drop_last();
        assert(is_white_space(after[after.len() - 1]));
        assert forall|i: int| 0 <= i < shorter.len() implies is_white_space(
            #[trigger] shorter[i],
        ) by {
            assert(shorter[i] == after[i]);
        }
        assert((text + after).drop_last() =~= text + shorter);
        lemma_trimmed_end(text, shorter);
    }
}

proof fn lemma_trimmed_start(before: Seq<char>, text: Seq<char>)
    requires
        is_blank_text(before),
    ensures
        trimmed_start(before + text) == trimmed_start(text),
    decreases before.len(),
{
    if before.len() == 0 {
        assert(before + text =~= text);
    } else {
        let rest = before.subrange(1, before.len() as int);
        assert(is_white_space(before[0]));
        assert forall|i: int| 0 <= i < rest.len() implies is_white_space(#[trigger] rest[i]) by {
            assert(rest[i] == before[i + 1]);
        }
        let all = before + text;
        assert(all.subrange(1, all.len() as int) =~= rest + text);
        lemma_trimmed_start(rest, text);
    }
}

// ---------------------------------------------------------------- replacing

/// A text with every occurrence of `from` replaced by `to`, the occurrences
/// being found from the left and not overlapping.
pub open spec fn replaced(text: Seq<char>, from: Seq<char>, to: Seq<char>) -> Seq<char>
    decreases text.len(),
{
    if from.len() == 0 || text.len() < from.len() {
        text
    } else if text.take(from.len() as int) == from {
        to + replaced(text.subrange(from.len() as int, text.len() as int), from, to)
    } else {
        seq![text[0]] + replaced(text.subrange(1, text.len() as int), from, to)
    }
}

/// Whether `part` stands in `text` at a position.
pub open spec fn stands_at(text: Seq<char>, part: Seq<char>, at: int) -> bool {
    0 <= at && at + part.len() <= text.len() && text.subrange(at, at + part.len()) == part
}

/// Whether `part` stands somewhere in `text`.
pub open spec fn occurs(text: Seq<char>, part: Seq<char>) -> bool {
    exists|at: int| #[trigger] stands_at(text, part, at)
}

/// Replacing what does not occur in a text leaves the text as it is.
pub proof fn law_replace_absent(text: Seq<char>, from: Seq<char>, to: Seq<char>)
    requires
        !occurs(text, from),
    ensures
        replaced(text, from, to) == text,
    decreases text.len(),
{
    if from.len() == 0 || text.len() < from.len() {
    } else {
        if text.take(from.len() as int) == from {
            assert(text.subrange(0, from.len() as int) =~= text.take(from.len() as int));
            assert(stands_at(text, from, 0));
        }
        let rest = text.subrange(1, text.len() as int);
        assert forall|at: int| !#[trigger] stands_at(rest, from, at) by {
            if stands_at(rest, from, at) {
                assert(text.subrange(at + 1, at + 1 + from.len()) =~= rest.subrange(at, at + from.len()));
                assert(stands_at(text, from, at + 1));
            }
        }
        law_replace_absent(rest, from, to);
        assert(seq![text[0]] + rest =~= text);
    }
}

/// A part stands at a position of a text exactly if its characters do, one by one.
pub proof fn law_stands_at(text: Seq<char>, part: Seq<char>, at: int)
    ensures
        stands_at(text, part, at) <==> 0 <= at && at + part.len() <= text.len() && (forall|k: int|
            0 <= k < part.len() ==> #[trigger] part[k] == text[at + k]),
{
    if 0 <= at && at + part.len() <= text.len() {
        let found = text.subrange(at, at + part.len());
        if forall|k: int| 0 <= k < part.len() ==> #[trigger] part[k] == text[at + k] {
            assert(found =~= part);
        }
        if found == part {
            assert forall|k: int| 0 <= k < part.len() implies #[trigger] part[k] == text[at + k] by {
                assert(found[k] == text[at + k]);
            }
        }
    }
}

/// Whether a part is found next behind a piece of a text, and not before.
pub open spec fn ends_piece(piece: Seq<char>, part: Seq<char>) -> bool {
    forall|at: int| 0 <= at < piece.len() ==> !#[trigger] stands_at(piece + part, part, at)
}

/// The first occurrence of a part gives way to the replacement, what stands
/// before it stays as it is, and the same goes on behind it.
pub proof fn law_replace_first(
    piece: Seq<char>,
    from: Seq<char>,
    rest: Seq<char>,
    to: Seq<char>,
)
    requires
        from.len() > 0,
        ends_piece(piece, from),
    ensures
        replaced(piece + from + rest, from, to) == piece + to + replaced(rest, from, to),
    decreases piece.len(),
{
    let text = piece + from + rest;
    let n = from.len() as int;
    if piece.len() == 0 {
        assert(text.take(n) =~= from);
        assert(text.subrange(n, text.len() as int) =~= rest);
        assert(piece + to =~= to);
    } else {
        let shorter = piece.subrange(1, piece.len() as int);
        assert(!stands_at(piece + from, from, 0));
        assert((piece + from).subrange(0, n) =~= text.take(n));
        assert forall|at: int| 0 <= at < shorter.len() implies !#[trigger] stands_at(
            shorter + from,
            from,
            at,
        ) by {
            assert(!stands_at(piece + from, from, at + 1));
            assert((piece + from).subrange(at + 1, at + 1 + n) =~= (shorter + from).subrange(
                at,
                at + n,
            ));
        }
        law_replace_first(shorter, from, rest, to);
        assert(text.subrange(1, text.len() as int) =~= shorter + from + rest);
        assert(piece + to + replaced(rest, from, to) =~= seq![piece[0]] + (shorter + to + replaced(
            rest,
            from,
            to,
        )));
    }
}

/// Pieces of a text with something between each two of them.
pub open spec fn joined_by(pieces: Seq<Seq<char>>, between: Seq<char>) -> Seq<char>
    decreases pieces.len(),
{
    if pieces.len() == 0 {
        Seq::empty()
    } else if pieces.len() == 1 {
        pieces[0]
    } else {
        pieces[0] + between + joined_by(pieces.subrange(1, pieces.len() as int), between)
    }
}

/// Whether pieces are those between the occurrences of a part, which are found
/// from the left and do not overlap.
pub open spec fn are_split_at(pieces: Seq<Seq<char>>, part: Seq<char>) -> bool {
    &&& pieces.len() > 0
    &&& forall|i: int| 0 <= i < pieces.len() - 1 ==> ends_piece(#[trigger] pieces[i], part)
    &&& !occurs(pieces.last(), part)
}

/// Replacing puts the replacement between the pieces of a text in place of what
/// stood there, at every one of these places, and changes nothing else.
pub proof fn law_replace_all(pieces: Seq<Seq<char>>, from: Seq<char>, to: Seq<char>)
    requires
        from.len() > 0,
        are_split_at(pieces, from),
    ensures
        replaced(joined_by(pieces, from), from, to) == joined_by(pieces, to),
    decreases pieces.len(),
{
    if pieces.len() == 1 {
        law_replace_absent(pieces[0], from, to);
    } else {
        let rest = pieces.subrange(1, pieces.len() as int);
        assert forall|i: int| 0 <= i < rest.len() - 1 implies ends_piece(
            #[trigger] rest[i],
            from,
        ) by {
            assert(rest[i] == pieces[i + 1]);
        }
        assert(rest.last() == pieces.last());
        assert(ends_piece(pieces[0], from));
        law_replace_all(rest, from, to);
        law_replace_first(pieces[0], from, joined_by(rest, from), to);
    }
}

/// Whether the characters of `part` stand in `chars` from a position on.
pub fn stands_here(chars: &Vec<char>, part: &Vec<char>, at: usize) -> (stands: bool)
    requires
        at <= chars.len(),
    ensures
        stands == stands_at(chars@, part@, at as int),
        stands == (part.len() <= chars.len() - at && chars@.subrange(
            at as int,
            chars@.len() as int,
        ).take(part@.len() as int) == part@),
{
    if part.len() > chars.len() - at {
        return false;
    }
    let ghost rest = chars@.subrange(at as int, chars@.len() as int);
    assert(rest.take(part@.len() as int) =~= chars@.subrange(at as int, at + part@.len()));
    let mut i: usize = 0;
    while i < part.len()
        invariant
            at <= chars.len(),
            i <= part.len() <= chars.len() - at,
            rest == chars@.subrange(at as int, chars@.len() as int),
            rest.take(part@.len() as int) == chars@.subrange(at as int, at + part@.len()),
            rest.take(i as int) == part@.take(i as int),
        decreases part.len() - i,
    {
        assert(rest.take(part@.len() as int)[i as int] == chars@[at + i]);
        if chars[at + i] != part[i] {
            return false;
        }
        assert(rest.take(i + 1) =~= rest.take(i as int).push(rest[i as int]));
        assert(part@.take(i + 1) =~= part@.take(i as int).push(part@[i as int]));
        i += 1;
    }
    assert(part@.take(part@.len() as int) =~= part@);
    true
}

/// Replaces every occurrence of `from` in a text by `to`.
pub fn replace_all(text: &str, from: &str, to: &str) -> (filled: String)
    requires
        from@.len() > 0,
    ensures
        filled@ == replaced(text@, from@, to@),
{
    let chars = chars_of(text);
    let part = chars_of(from);
    let mut filled = String::new();
    let mut i: usize = 0;
    assert(chars@.subrange(0, chars@.len() as int) =~= text@);
    assert(filled@ + replaced(text@, from@, to@) =~= replaced(text@, from@, to@));
    while i < chars.len()
        invariant
            i <= chars.len(),
            part@ == from@,
            part@.len() > 0,
            chars@ == text@,
            replaced(text@, from@, to@) == filled@ + replaced(
                chars@.subrange(i as int, chars@.len() as int),
                from@,
                to@,
            ),
        decreases chars.len() - i,
    {
        let ghost rest = chars@.subrange(i as int, chars@.len() as int);
        let ghost before = filled@;
        if stands_here(&chars, &part, i) {
            filled.append(to);
            i += part.len();
            proof {
                let next = chars@.subrange(i as int, chars@.len() as int);
                assert(rest.subrange(from@.len() as int, rest.len() as int) =~= next);
                assert(before + (to@ + replaced(next, from@, to@)) =~= filled@ + replaced(next, from@, to@));
            }
        } else {
            filled.push(chars[i]);
            proof {
                let next = chars@.subrange(i + 1, chars@.len() as int);
                assert(rest.subrange(1, rest.len() as int) =~= next);
                if rest.len() < from@.len() {
                    assert(replaced(next, from@, to@) == next);
                    assert(before + rest =~= filled@ + next);
                } else {
                    assert(before + (seq![rest[0]] + replaced(next, from@, to@)) =~= filled@ + replaced(
                        next,
                        from@,
                        to@,
                    ));
                }
            }
            i += 1;
        }
    }
    assert(chars@.subrange(i as int, chars@.len() as int) =~= Seq::<char>::empty());
    assert(filled@ + Seq::<char>::empty() =~= filled@);
    filled
}

/// Texts are seen one by one, in their order.
pub proof fn law_texts_keep_order(list: Seq<String>, i: int)
    requires
        0 <= i < list.len(),
    ensures
        texts(list).len() == list.len(),
        texts(list)[i] == list[i]@,
{
}

/// An optional text is seen as it is.
pub proof fn law_optional_text_shows_all(text: Option<String>)
    ensures
        text is None <==> optional_text(text) is None,
        text matches Some(text) ==> optional_text(Some(text)) == Some(text@),
{
}

}
