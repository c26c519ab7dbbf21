//! Templates that can be rendered in one way only.
use vstd::prelude::*;
use crate::text::{chars_of, law_stands_at, stands_at, stands_here};

verus! {

// ---------------------------------------------------------------- tags

/// Whether two characters stand at a position.
pub open spec fn two_at(text: Seq<char>, first: char, second: char, at: int) -> bool {
    0 <= at && at + 1 < text.len() && text[at] == first && text[at + 1] == second
}

/// Whether a character is one of the blanks that can stand in a tag.
pub open spec fn is_blank(c: char) -> bool {
    c == ' ' || c == '\t' || c == '\r' || c == '\n'
}

/// Where blanks end, from a position on.
pub open spec fn blanks_end(text: Seq<char>, from: int) -> int
    decreases text.len() - from,
{
    if 0 <= from < text.len() && is_blank(text[from]) {
        blanks_end(text, from + 1)
    } else {
        from
    }
}

/// The position behind a hyphen, if one stands at a position. A hyphen at either
/// end of a tag takes away the blanks beside the tag.
pub open spec fn past_hyphen(text: Seq<char>, at: int) -> int {
    if 0 <= at < text.len() && text[at] == '-' {
        at + 1
    } else {
        at
    }
}

/// Where what stands in the tag at a position begins.
pub open spec fn tag_body(text: Seq<char>, at: int) -> int {
    blanks_end(text, past_hyphen(text, at + 2))
}

/// The position behind a tag, whose body ends at a position and which is closed
/// by a character and a brace.
pub open spec fn tag_end(text: Seq<char>, from: int, closing: char) -> Option<int> {
    let at = past_hyphen(text, blanks_end(text, from));
    if two_at(text, closing, '}', at) {
        Some(at + 2)
    } else {
        None
    }
}

// ---------------------------------------------------------------- values

/// Whether a name can start with a character.
pub open spec fn starts_name(c: char) -> bool {
    'a' as int <= c as int <= 'z' as int || 'A' as int <= c as int <= 'Z' as int || c == '_'
}

/// Whether a character can stand in a name.
pub open spec fn is_name_char(c: char) -> bool {
    starts_name(c) || '0' as int <= c as int <= '9' as int
}

/// Where the characters of a name end, from a position on.
pub open spec fn name_end(text: Seq<char>, from: int) -> int
    decreases text.len() - from,
{
    if 0 <= from < text.len() && is_name_char(text[from]) {
        name_end(text, from + 1)
    } else {
        from
    }
}

/// Whether a character is one of those that texts are quoted with.
pub open spec fn is_quote(c: char) -> bool {
    c == '"' || c == '\'' || c == '`'
}

/// Where a character stands next, from a position on; the end of the text, where
/// it does not.
pub open spec fn next_at(text: Seq<char>, wanted: char, from: int) -> int
    decreases text.len() - from,
{
    if 0 <= from < text.len() && text[from] != wanted {
        next_at(text, wanted, from + 1)
    } else {
        from
    }
}

/// The position behind the name or the quoted text at a position.
pub open spec fn value_end(text: Seq<char>, at: int) -> Option<int> {
    if !(0 <= at < text.len()) {
        None
    } else if starts_name(text[at]) {
        Some(name_end(text, at))
    } else if is_quote(text[at]) && next_at(text, text[at], at + 1) < text.len() {
        Some(next_at(text, text[at], at + 1) + 1)
    } else {
        None
    }
}

// ---------------------------------------------------------------- pieces

/// The position behind the tag at a position, if it holds just a name or a quoted
/// text.
pub open spec fn value_tag_end(text: Seq<char>, at: int) -> Option<int> {
    match value_end(text, tag_body(text, at)) {
        Some(end) => tag_end(text, end, '}'),
        None => None,
    }
}

/// The position behind the block tag at a position, if it holds just this word.
pub open spec fn word_tag_end(text: Seq<char>, word: Seq<char>, at: int) -> Option<int> {
    let body = tag_body(text, at);
    if two_at(text, '{', '%', at) && stands_at(text, word, body) {
        tag_end(text, body + word.len(), '%')
    } else {
        None
    }
}

/// The position behind the first tag with a word, from a position on.
pub open spec fn next_word_tag_end(text: Seq<char>, word: Seq<char>, from: int) -> Option<int>
    decreases text.len() - from,
{
    if !(0 <= from < text.len()) {
        None
    } else {
        match word_tag_end(text, word, from) {
            Some(end) => Some(end),
            None => next_word_tag_end(text, word, from + 1),
        }
    }
}

/// The position behind the raw block at a position, in which nothing is a tag but
/// its end.
pub open spec fn raw_end(text: Seq<char>, at: int) -> Option<int> {
    match word_tag_end(text, "raw"@, at) {
        Some(start) => next_word_tag_end(text, "endraw"@, start),
        None => None,
    }
}

/// The position behind the end of a comment, from a position on.
pub open spec fn comment_end(text: Seq<char>, from: int) -> Option<int>
    decreases text.len() - from,
{
    if !(0 <= from < text.len()) {
        None
    } else if two_at(text, '#', '}', from) {
        Some(from + 2)
    } else {
        comment_end(text, from + 1)
    }
}

/// The position behind the piece of a template at a position: a tag with a name
/// or a quoted text, a raw block, a comment, or else one character. There is none
/// where any other tag starts.
pub open spec fn piece_end(template: Seq<char>, at: int) -> Option<int> {
    if two_at(template, '{', '{', at) {
        value_tag_end(template, at)
    } else if two_at(template, '{', '%', at) {
        raw_end(template, at)
    } else if two_at(template, '{', '#', at) {
        comment_end(template, at + 2)
    } else {
        Some(at + 1)
    }
}

/// Whether a template is made of such pieces from a position on.
pub open spec fn is_plain_from(template: Seq<char>, at: int) -> bool
    decreases template.len() - at,
{
    if !(0 <= at < template.len()) {
        true
    } else {
        match piece_end(template, at) {
            Some(end) => at < end <= template.len() && is_plain_from(template, end),
            None => false,
        }
    }
}

/// Whether a template is made of texts, names and quoted texts in double braces,
/// raw blocks and comments. Other tags, with numbers, operators, functions,
/// filters or blocks, can make the renderer panic or run for ever, and they can
/// ask for the time, a random number or the environment.
pub open spec fn is_plain_template(template: Seq<char>) -> bool {
    is_plain_from(template, 0)
}

// ---------------------------------------------------------------- scanning

fn are_two_at(chars: &Vec<char>, first: char, second: char, at: usize) -> (stand: bool)
    requires
        at <= chars.len(),
    ensures
        stand == two_at(chars@, first, second, at as int),
{
    chars.len() - at > 1 && chars[at] == first && chars[at + 1] == second
}

fn skip_blanks(chars: &Vec<char>, from: usize) -> (end: usize)
    requires
        from <= chars.len(),
    ensures
        end == blanks_end(chars@, from as int),
        from <= end <= chars.len(),
{
    let mut end: usize = from;
    while end < chars.len() && (chars[end] == ' ' || chars[end] == '\t' || chars[end] == '\r'
        || chars[end] == '\n')
        invariant
            from <= end <= chars.len(),
            blanks_end(chars@, from as int) == blanks_end(chars@, end as int),
        ensures
            from <= end <= chars.len(),
            blanks_end(chars@, from as int) == end,
        decreases chars.len() - end,
    {
        end += 1;
    }
    end
}

fn skip_hyphen(chars: &Vec<char>, at: usize) -> (end: usize)
    requires
        at <= chars.len(),
    ensures
        end == past_hyphen(chars@, at as int),
        at <= end <= chars.len(),
{
    if at < chars.len() && chars[at] == '-' {
        at + 1
    } else {
        at
    }
}

fn find_tag_body(chars: &Vec<char>, at: usize) -> (body: usize)
    requires
        at + 2 <= chars.len(),
    ensures
        body == tag_body(chars@, at as int),
        at + 2 <= body <= chars.len(),
{
    skip_blanks(chars, skip_hyphen(chars, at + 2))
}

fn find_tag_end(chars: &Vec<char>, from: usize, closing: char) -> (end: Option<usize>)
    requires
        from <= chars.len(),
    ensures
        position(end) == tag_end(chars@, from as int, closing),
        end matches Some(end) ==> from < end <= chars.len(),
{
    let at = skip_hyphen(chars, skip_blanks(chars, from));
    if are_two_at(chars, closing, '}', at) {
        Some(at + 2)
    } else {
        None
    }
}

/// An optional position as an integer.
pub open spec fn position(at: Option<usize>) -> Option<int> {
    match at {
        Some(at) => Some(at as int),
        None => None,
    }
}

fn is_name_start(c: char) -> (start: bool)
    ensures
        start == starts_name(c),
{
    ('a' <= c && c <= 'z') || ('A' <= c && c <= 'Z') || c == '_'
}

fn skip_name(chars: &Vec<char>, from: usize) -> (end: usize)
    requires
        from <= chars.len(),
    ensures
        end == name_end(chars@, from as int),
        from <= end <= chars.len(),
{
    let mut end: usize = from;
    while end < chars.len() && (is_name_start(chars[end]) || ('0' <= chars[end] && chars[end]
        <= '9'))
        invariant
            from <= end <= chars.len(),
            name_end(chars@, from as int) == name_end(chars@, end as int),
        ensures
            from <= end <= chars.len(),
            name_end(chars@, from as int) == end,
        decreases chars.len() - end,
    {
        end += 1;
    }
    end
}

fn find_next(chars: &Vec<char>, wanted: char, from: usize) -> (at: usize)
    requires
        from <= chars.len(),
    ensures
        at == next_at(chars@, wanted, from as int),
        from <= at <= chars.len(),
{
    let mut at: usize = from;
    while at < chars.len() && chars[at] != wanted
        invariant
            from <= at <= chars.len(),
            next_at(chars@, wanted, from as int) == next_at(chars@, wanted, at as int),
        ensures
            from <= at <= chars.len(),
            next_at(chars@, wanted, from as int) == at,
        decreases chars.len() - at,
    {
        at += 1;
    }
    at
}

fn find_value_end(chars: &Vec<char>, at: usize) -> (end: Option<usize>)
    requires
        at <= chars.len(),
    ensures
        position(end) == value_end(chars@, at as int),
        end matches Some(end) ==> at <= end <= chars.len(),
{
    if at == chars.len() {
        return None;
    }
    let c = chars[at];
    if is_name_start(c) {
        return Some(skip_name(chars, at));
    }
    if c == '"' || c == '\'' || c == '`' {
        let end = find_next(chars, c, at + 1);
        if end < chars.len() {
            return Some(end + 1);
        }
    }
    None
}

fn find_value_tag_end(chars: &Vec<char>, at: usize) -> (end: Option<usize>)
    requires
        at + 2 <= chars.len(),
    ensures
        position(end) == value_tag_end(chars@, at as int),
        end matches Some(end) ==> at < end <= chars.len(),
{
    match find_value_end(chars, find_tag_body(chars, at)) {
        Some(end) => find_tag_end(chars, end, '}'),
        None => None,
    }
}

fn find_word_tag_end(chars: &Vec<char>, word: &Vec<char>, at: usize) -> (end: Option<usize>)
    requires
        at <= chars.len(),
    ensures
        position(end) == word_tag_end(chars@, word@, at as int),
        end matches Some(end) ==> at < end <= chars.len(),
{
    if !are_two_at(chars, '{', '%', at) {
        return None;
    }
    let body = find_tag_body(chars, at);
    if stands_here(chars, word, body) {
        find_tag_end(chars, body + word.len(), '%')
    } else {
        None
    }
}

fn find_next_word_tag_end(chars: &Vec<char>, word: &Vec<char>, from: usize) -> (end: Option<usize>)
    requires
        from <= chars.len(),
    ensures
        position(end) == next_word_tag_end(chars@, word@, from as int),
        end matches Some(end) ==> from < end <= chars.len(),
{
    let mut at: usize = from;
    while at < chars.len()
        invariant
            from <= at <= chars.len(),
            next_word_tag_end(chars@, word@, from as int) == next_word_tag_end(
                chars@,
                word@,
                at as int,
            ),
        decreases chars.len() - at,
    {
        if let Some(end) = find_word_tag_end(chars, word, at) {
            return Some(end);
        }
        at += 1;
    }
    None
}

fn find_raw_end(chars: &Vec<char>, at: usize) -> (end: Option<usize>)
    requires
        at <= chars.len(),
    ensures
        position(end) == raw_end(chars@, at as int),
        end matches Some(end) ==> at < end <= chars.len(),
{
    match find_word_tag_end(chars, &chars_of("raw"), at) {
        Some(start) => find_next_word_tag_end(chars, &chars_of("endraw"), start),
        None => None,
    }
}

fn find_comment_end(chars: &Vec<char>, from: usize) -> (end: Option<usize>)
    requires
        from <= chars.len(),
    ensures
        position(end) == comment_end(chars@, from as int),
        end matches Some(end) ==> from < end <= chars.len(),
{
    let mut at: usize = from;
    while at < chars.len()
        invariant
            from <= at <= chars.len(),
            comment_end(chars@, from as int) == comment_end(chars@, at as int),
        decreases chars.len() - at,
    {
        if are_two_at(chars, '#', '}', at) {
            return Some(at + 2);
        }
        at += 1;
    }
    None
}

/// Whether a template is made of texts, names and quoted texts in double braces,
/// raw blocks and comments.
pub fn is_plain(template: &str) -> (plain: bool)
    ensures
        plain == is_plain_template(template@),
{
    let chars = chars_of(template);
    let mut at: usize = 0;
    while at < chars.len()
        invariant
            at <= chars.len(),
            chars@ == template@,
            is_plain_template(template@) == is_plain_from(template@, at as int),
        decreases chars.len() - at,
    {
        let end = if are_two_at(&chars, '{', '{', at) {
            find_value_tag_end(&chars, at)
        } else if are_two_at(&chars, '{', '%', at) {
            find_raw_end(&chars, at)
        } else if are_two_at(&chars, '{', '#', at) {
            find_comment_end(&chars, at + 2)
        } else {
            Some(at + 1)
        };
        assert(position(end) == piece_end(template@, at as int));
        match end {
            Some(end) => {
                at = end;
            },
            None => {
                return false;
            },
        }
    }
    true
}

// ---------------------------------------------------------------- laws

/// Whether all characters from one position to another are blanks, and the next
/// one is not.
pub open spec fn are_blanks(text: Seq<char>, from: int, to: int) -> bool {
    &&& 0 <= from <= to <= text.len()
    &&& forall|i: int|
        from <= i < to ==> (#[trigger] text[i] == ' ' || text[i] == '\t' || text[i] == '\r'
            || text[i] == '\n')
    &&& to < text.len() ==> text[to] != ' ' && text[to] != '\t' && text[to] != '\r' && text[to]
        != '\n'
}

proof fn lemma_blanks(text: Seq<char>, from: int, to: int)
    ensures
        are_blanks(text, from, to) ==> blanks_end(text, from) == to,
        0 <= from <= text.len() ==> are_blanks(text, from, blanks_end(text, from)),
    decreases text.len() - from,
{
    if 0 <= from < text.len() {
        lemma_blanks(text, from + 1, to);
        if are_blanks(text, from, to) && from < to {
            assert(text[from] == ' ' || text[from] == '\t' || text[from] == '\r' || text[from]
                == '\n');
            assert(are_blanks(text, from + 1, to));
        }
    }
}

/// Whether a tag starts with a brace and a character at one position, and what it
/// holds starts at another one, behind a hyphen, if there is one, and blanks.
pub open spec fn opens_tag(text: Seq<char>, at: int, second: char, body: int) -> bool {
    &&& 0 <= at
    &&& at + 1 < text.len()
    &&& text[at] == '{'
    &&& text[at + 1] == second
    &&& if at + 2 < text.len() && text[at + 2] == '-' {
        are_blanks(text, at + 3, body)
    } else {
        are_blanks(text, at + 2, body)
    }
}

/// Whether a tag ends: from one position on there are blanks up to another one,
/// then a hyphen, if there is one, then a character and a brace.
pub open spec fn closes_tag(
    text: Seq<char>,
    from: int,
    blanks: int,
    first: char,
    end: int,
) -> bool {
    &&& are_blanks(text, from, blanks)
    &&& blanks < text.len() && text[blanks] == '-' ==> end == blanks + 3
    &&& !(blanks < text.len() && text[blanks] == '-') ==> end == blanks + 2
    &&& end <= text.len()
    &&& text[end - 2] == first
    &&& text[end - 1] == '}'
}

proof fn lemma_tag(text: Seq<char>, at: int, second: char, body: int)
    ensures
        opens_tag(text, at, second, body) ==> two_at(text, '{', second, at) && tag_body(text, at)
            == body && at + 2 <= body <= text.len(),
        two_at(text, '{', second, at) ==> opens_tag(text, at, second, tag_body(text, at)),
{
    lemma_blanks(text, past_hyphen(text, at + 2), body);
}

proof fn lemma_tag_end(text: Seq<char>, from: int, blanks: int, first: char, end: int)
    requires
        0 <= from <= text.len(),
    ensures
        closes_tag(text, from, blanks, first, end) ==> tag_end(text, from, first) == Some(end)
            && from < end <= text.len(),
        tag_end(text, from, first) is Some ==> closes_tag(
            text,
            from,
            blanks_end(text, from),
            first,
            tag_end(text, from, first)->0,
        ),
{
    lemma_blanks(text, from, blanks);
}

/// Whether a character is a letter of the Latin alphabet or an underscore.
pub open spec fn is_letter(c: char) -> bool {
    'a' as int <= c as int <= 'z' as int || 'A' as int <= c as int <= 'Z' as int || c == '_'
}

/// Whether a name stands between two positions: a letter, then letters and
/// digits, with neither of them behind it.
pub open spec fn is_name_at(text: Seq<char>, from: int, to: int) -> bool {
    &&& 0 <= from < to <= text.len()
    &&& is_letter(text[from])
    &&& forall|i: int|
        from <= i < to ==> is_letter(#[trigger] text[i]) || '0' as int <= text[i] as int
            <= '9' as int
    &&& to < text.len() ==> !is_letter(text[to]) && !('0' as int <= text[to] as int <= '9' as int)
}

/// Whether a quoted text stands between two positions: one of three quotes, texts
/// without it, and the same quote.
pub open spec fn is_quoted_at(text: Seq<char>, from: int, to: int) -> bool {
    &&& 0 <= from
    &&& from + 2 <= to <= text.len()
    &&& text[from] == '"' || text[from] == '\'' || text[from] == '`'
    &&& text[to - 1] == text[from]
    &&& forall|i: int| from < i < to - 1 ==> #[trigger] text[i] != text[from]
}

proof fn lemma_name_end(text: Seq<char>, from: int, to: int)
    ensures
        0 <= from <= to <= text.len() && (forall|i: int|
            from <= i < to ==> is_letter(#[trigger] text[i]) || '0' as int <= text[i] as int
                <= '9' as int) && (to < text.len() ==> !is_letter(text[to]) && !('0' as int
            <= text[to] as int <= '9' as int)) ==> name_end(text, from) == to,
        0 <= from <= text.len() ==> {
            let end = name_end(text, from);
            &&& from <= end <= text.len()
            &&& forall|i: int|
                from <= i < end ==> is_letter(#[trigger] text[i]) || '0' as int <= text[i] as int
                    <= '9' as int
            &&& end < text.len() ==> !is_letter(text[end]) && !('0' as int <= text[end] as int
                <= '9' as int)
        },
    decreases text.len() - from,
{
    if 0 <= from < text.len() {
        lemma_name_end(text, from + 1, to);
    }
}

proof fn lemma_next(text: Seq<char>, wanted: char, from: int, at: int)
    ensures
        0 <= from <= at < text.len() && text[at] == wanted && (forall|i: int|
            from <= i < at ==> #[trigger] text[i] != wanted) ==> next_at(text, wanted, from) == at,
        0 <= from <= text.len() ==> {
            let next = next_at(text, wanted, from);
            &&& from <= next <= text.len()
            &&& forall|i: int| from <= i < next ==> #[trigger] text[i] != wanted
            &&& next < text.len() ==> text[next] == wanted
        },
    decreases text.len() - from,
{
    if 0 <= from < text.len() {
        lemma_next(text, wanted, from + 1, at);
    }
}

proof fn lemma_value(text: Seq<char>, from: int, to: int)
    ensures
        is_name_at(text, from, to) || is_quoted_at(text, from, to) ==> value_end(text, from)
            == Some(to),
        value_end(text, from) matches Some(end) ==> is_name_at(text, from, end) || is_quoted_at(
            text,
            from,
            end,
        ),
{
    if 0 <= from < text.len() {
        lemma_name_end(text, from, to);
        lemma_next(text, text[from], from + 1, to - 1);
    }
}

/// Whether a tag with just a name or a quoted text stands between two positions.
pub open spec fn is_value_tag(
    text: Seq<char>,
    at: int,
    body: int,
    body_end: int,
    blanks: int,
    end: int,
) -> bool {
    &&& opens_tag(text, at, '{', body)
    &&& is_name_at(text, body, body_end) || is_quoted_at(text, body, body_end)
    &&& closes_tag(text, body_end, blanks, '}', end)
}

/// Whether a block tag with just a word stands between two positions.
pub open spec fn is_word_tag(
    text: Seq<char>,
    word: Seq<char>,
    at: int,
    body: int,
    blanks: int,
    end: int,
) -> bool {
    &&& opens_tag(text, at, '%', body)
    &&& body + word.len() <= text.len()
    &&& text.subrange(body, body + word.len()) == word
    &&& closes_tag(text, body + word.len(), blanks, '%', end)
}

/// Whether a block tag with just a word starts at a position.
pub open spec fn has_word_tag(text: Seq<char>, word: Seq<char>, at: int) -> bool {
    exists|body: int, blanks: int, end: int| is_word_tag(text, word, at, body, blanks, end)
}

proof fn lemma_word_tag(
    text: Seq<char>,
    word: Seq<char>,
    at: int,
    body: int,
    blanks: int,
    end: int,
)
    ensures
        is_word_tag(text, word, at, body, blanks, end) ==> word_tag_end(text, word, at) == Some(
            end,
        ) && at < end <= text.len(),
        word_tag_end(text, word, at) is Some ==> has_word_tag(text, word, at),
        word_tag_end(text, word, at) is Some ==> at < word_tag_end(text, word, at)->0
            <= text.len(),
{
    lemma_tag(text, at, '%', body);
    let there = tag_body(text, at);
    law_stands_at(text, word, body);
    law_stands_at(text, word, there);
    if is_word_tag(text, word, at, body, blanks, end) {
        lemma_tag_end(text, body + word.len(), blanks, '%', end);
    }
    if word_tag_end(text, word, at) is Some {
        lemma_tag_end(text, there + word.len(), blanks, '%', end);
        assert(is_word_tag(
            text,
            word,
            at,
            there,
            blanks_end(text, there + word.len()),
            word_tag_end(text, word, at)->0,
        ));
    }
}

proof fn lemma_next_word_tag(text: Seq<char>, word: Seq<char>, from: int, k: int)
    requires
        0 <= from,
    ensures
        from <= k < text.len() && word_tag_end(text, word, k) is Some && (forall|j: int|
            from <= j < k ==> #[trigger] word_tag_end(text, word, j) is None) ==> next_word_tag_end(
            text,
            word,
            from,
        ) == word_tag_end(text, word, k),
        (forall|j: int| from <= j ==> #[trigger] word_tag_end(text, word, j) is None)
            ==> next_word_tag_end(text, word, from) is None,
    decreases text.len() - from,
{
    if from < text.len() {
        lemma_next_word_tag(text, word, from + 1, k);
    }
}

proof fn lemma_comment(text: Seq<char>, from: int, k: int)
    requires
        0 <= from,
    ensures
        from <= k && two_at(text, '#', '}', k) && (forall|j: int|
            from <= j < k ==> !(#[trigger] two_at(text, '#', '}', j))) ==> comment_end(text, from)
            == Some(k + 2),
        (forall|j: int| from <= j ==> !(#[trigger] two_at(text, '#', '}', j))) ==> comment_end(
            text,
            from,
        ) is None,
    decreases text.len() - from,
{
    if from < text.len() {
        lemma_comment(text, from + 1, k);
    }
}

/// A character that starts no tag can stand anywhere. A template that is at its
/// end is plain.
pub proof fn law_texts_are_plain(template: Seq<char>, at: int)
    requires
        0 <= at,
    ensures
        is_plain_template(template) == is_plain_from(template, 0),
        at >= template.len() ==> is_plain_from(template, at),
        at < template.len() && !(at + 1 < template.len() && template[at] == '{' && (template[at + 1]
            == '{' || template[at + 1] == '%' || template[at + 1] == '#')) ==> is_plain_from(
            template,
            at,
        ) == is_plain_from(template, at + 1),
{
}

/// A tag with just a name or a quoted text can stand anywhere.
pub proof fn law_values_are_plain(
    template: Seq<char>,
    at: int,
    body: int,
    body_end: int,
    blanks: int,
    end: int,
)
    requires
        is_value_tag(template, at, body, body_end, blanks, end),
    ensures
        is_plain_from(template, at) == is_plain_from(template, end),
{
    lemma_tag(template, at, '{', body);
    lemma_value(template, body, body_end);
    lemma_tag_end(template, body_end, blanks, '}', end);
}

/// No other tag with double braces can stand in a plain template.
pub proof fn law_other_tags_are_not_plain(template: Seq<char>, at: int)
    requires
        0 <= at,
        at + 1 < template.len(),
        template[at] == '{',
        template[at + 1] == '{',
        forall|body: int, body_end: int, blanks: int, end: int|
            !is_value_tag(template, at, body, body_end, blanks, end),
    ensures
        !is_plain_from(template, at),
{
    if is_plain_from(template, at) {
        let body = tag_body(template, at);
        lemma_tag(template, at, '{', body);
        let body_end = value_end(template, body)->0;
        lemma_value(template, body, body_end);
        let end = tag_end(template, body_end, '}')->0;
        lemma_tag_end(template, body_end, 0, '}', end);
        assert(is_value_tag(
            template,
            at,
            body,
            body_end,
            blanks_end(template, body_end),
            end,
        ));
    }
}

/// A comment can stand anywhere, up to the first place where it ends. One that
/// does not end cannot.
pub proof fn law_comments_are_plain(template: Seq<char>, at: int, k: int)
    requires
        0 <= at,
        at + 1 < template.len(),
        template[at] == '{',
        template[at + 1] == '#',
    ensures
        ends_comment(template, k) && at + 2 <= k && (forall|j: int|
            at + 2 <= j < k ==> !#[trigger] ends_comment(template, j)) ==> is_plain_from(
            template,
            at,
        ) == is_plain_from(template, k + 2),
        (forall|j: int| at + 2 <= j ==> !#[trigger] ends_comment(template, j)) ==> !is_plain_from(
            template,
            at,
        ),
{
    assert forall|j: int| #[trigger] two_at(template, '#', '}', j) == ends_comment(template, j) by {
    }
    assert forall|j: int| #[trigger] ends_comment(template, j) == two_at(template, '#', '}', j) by {
    }
    lemma_comment(template, at + 2, k);
}

/// Whether the end of a comment stands at a position.
pub open spec fn ends_comment(template: Seq<char>, at: int) -> bool {
    0 <= at && at + 1 < template.len() && template[at] == '#' && template[at + 1] == '}'
}

/// A raw block can stand anywhere, up to the first tag that ends it. One that
/// does not end cannot, and neither can any other block tag.
pub proof fn law_raw_blocks_are_plain(
    template: Seq<char>,
    at: int,
    body: int,
    blanks: int,
    start: int,
    k: int,
    end_body: int,
    end_blanks: int,
    end: int,
)
    requires
        0 <= at,
        at + 1 < template.len(),
        template[at] == '{',
        template[at + 1] == '%',
    ensures
        is_word_tag(template, "raw"@, at, body, blanks, start) && start <= k && is_word_tag(
            template,
            "endraw"@,
            k,
            end_body,
            end_blanks,
            end,
        ) && (forall|j: int| start <= j < k ==> !#[trigger] has_word_tag(template, "endraw"@, j))
            ==> is_plain_from(template, at) == is_plain_from(template, end),
        is_word_tag(template, "raw"@, at, body, blanks, start) && (forall|j: int|
            start <= j ==> !#[trigger] has_word_tag(template, "endraw"@, j)) ==> !is_plain_from(
            template,
            at,
        ),
        !has_word_tag(template, "raw"@, at) ==> !is_plain_from(template, at),
{
    lemma_word_tag(template, "raw"@, at, body, blanks, start);
    lemma_word_tag(template, "endraw"@, k, end_body, end_blanks, end);
    assert forall|j: int| #[trigger] word_tag_end(template, "endraw"@, j) is Some implies
        has_word_tag(template, "endraw"@, j) by {
        lemma_word_tag(template, "endraw"@, j, 0, 0, 0);
    }
    if is_word_tag(template, "raw"@, at, body, blanks, start) {
        lemma_next_word_tag(template, "endraw"@, start, k);
    }
}

/// An optional position is the same number as an integer.
pub proof fn law_position_shows_all(at: usize)
    ensures
        position(Some(at)) == Some(at as int),
        position(None) is None,
{
}

}
