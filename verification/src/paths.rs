//! Node paths: their parts, and the order in which texts and paths sort.
use vstd::prelude::*;
use crate::text::{chars_of, optional_text, texts};

verus! {

// ---------------------------------------------------------------- parts

/// The characters behind the last slash of a path.
pub open spec fn last_part(path: Seq<char>) -> Seq<char>
    decreases path.len(),
{
    if path.len() == 0 || path.last() == '/' {
        Seq::empty()
    } else {
        last_part(path.drop_last()).push(path.last())
    }
}

/// A list of parts with one more part, if that one is not empty.
pub open spec fn with_part(parts: Seq<Seq<char>>, part: Seq<char>) -> Seq<Seq<char>> {
    if part.len() == 0 {
        parts
    } else {
        parts.push(part)
    }
}

/// The nonempty parts of a path that a slash ends.
pub open spec fn ended_parts(path: Seq<char>) -> Seq<Seq<char>>
    decreases path.len(),
{
    if path.len() == 0 {
        Seq::empty()
    } else if path.last() == '/' {
        with_part(ended_parts(path.drop_last()), last_part(path.drop_last()))
    } else {
        ended_parts(path.drop_last())
    }
}

/// The nonempty parts of a path between its slashes.
pub open spec fn parts_of(path: Seq<char>) -> Seq<Seq<char>> {
    with_part(ended_parts(path), last_part(path))
}

/// Splits a path at its slashes and drops the empty parts.
pub fn path_parts(path: &str) -> (parts: Vec<String>)
    ensures
        texts(parts@) == parts_of(path@),
{
    let chars = chars_of(path);
    let mut parts: Vec<String> = Vec::new();
    let mut part = String::new();
    let mut i: usize = 0;
    assert(texts(parts@) =~= ended_parts(chars@.take(0)));
    while i < chars.len()
        invariant
            i <= chars.len(),
            texts(parts@) == ended_parts(chars@.take(i as int)),
            part@ == last_part(chars@.take(i as int)),
        decreases chars.len() - i,
    {
        assert(chars@.take(i + 1).drop_last() =~= chars@.take(i as int));
        if chars[i] == '/' {
            if !part.as_str().is_empty() {
                let ghost before = parts@;
                parts.push(part);
                assert(texts(parts@) =~= texts(before).push(part@));
            }
            part = String::new();
        } else {
            part.push(chars[i]);
        }
        i += 1;
    }
    assert(chars@.take(i as int) =~= path@);
    if !part.as_str().is_empty() {
        let ghost before = parts@;
        parts.push(part);
        assert(texts(parts@) =~= texts(before).push(part@));
    }
    parts
}

/// A name that can be one part of a path.
pub open spec fn is_part(name: Seq<char>) -> bool {
    name.len() > 0 && !name.contains('/')
}

proof fn lemma_append_name(path: Seq<char>, name: Seq<char>)
    requires
        path.len() > 0,
        path.last() == '/',
        !name.contains('/'),
    ensures
        ended_parts(path + name) == ended_parts(path),
        last_part(path + name) == name,
    decreases name.len(),
{
    if name.len() == 0 {
        assert(path + name =~= path);
        assert(last_part(path) =~= name);
    } else {
        let shorter = name.drop_last();
        assert((path + name).drop_last() =~= path + shorter);
        assert((path + name).last() == name.last());
        assert(name.contains(name.last()));
        assert(!shorter.contains('/')) by {
            if shorter.contains('/') {
                let i = choose|i: int| 0 <= i < shorter.len() && shorter[i] == '/';
                assert(name[i] == '/');
            }
        }
        lemma_append_name(path, shorter);
        assert(shorter.push(name.last()) =~= name);
    }
}

/// A path with a slash and a name behind it has the parts of the path, and
/// then the name.
pub proof fn law_parts_of_child(parent: Seq<char>, name: Seq<char>)
    requires
        is_part(name),
    ensures
        parts_of(parent + seq!['/'] + name) == parts_of(parent).push(name),
{
    let slashed = parent + seq!['/'];
    assert(slashed.drop_last() =~= parent);
    lemma_append_name(slashed, name);
    assert(ended_parts(slashed) == parts_of(parent));
}

/// A slash at the end of a path adds no part.
pub proof fn law_parts_of_slash(path: Seq<char>)
    ensures
        parts_of(path + seq!['/']) == parts_of(path),
{
    let slashed = path + seq!['/'];
    assert(slashed.drop_last() =~= path);
    assert(last_part(slashed).len() == 0);
}

/// A name without a slash is the only part of a path made of it; the empty path
/// has none.
pub proof fn law_parts_of_name(name: Seq<char>)
    requires
        !name.contains('/'),
    ensures
        parts_of(name) == (if name.len() == 0 {
            Seq::empty()
        } else {
            seq![name]
        }),
{
    lemma_name_only(name);
    assert(parts_of(name) =~= if name.len() == 0 {
        Seq::empty()
    } else {
        seq![name]
    });
}

proof fn lemma_name_only(name: Seq<char>)
    requires
        !name.contains('/'),
    ensures
        ended_parts(name) == Seq::<Seq<char>>::empty(),
        last_part(name) == name,
    decreases name.len(),
{
    if name.len() > 0 {
        let shorter = name.drop_last();
        assert(name.contains(name[name.len() - 1]));
        assert(!shorter.contains('/')) by {
            if shorter.contains('/') {
                let i = choose|i: int| 0 <= i < shorter.len() && shorter[i] == '/';
                assert(name[i] == '/');
            }
        }
        lemma_name_only(shorter);
        assert(shorter.push(name.last()) =~= name);
    } else {
        assert(last_part(name) =~= name);
    }
}

// ---------------------------------------------------------------- order

/// Whether one text stands before another in the order of their characters,
/// or is the same.
pub open spec fn text_le(a: Seq<char>, b: Seq<char>) -> bool
    decreases a.len(),
{
    if a.len() == 0 {
        true
    } else if b.len() == 0 {
        false
    } else if a[0] != b[0] {
        (a[0] as int) < (b[0] as int)
    } else {
        text_le(a.subrange(1, a.len() as int), b.subrange(1, b.len() as int))
    }
}

/// Whether one optional path stands before another: no path comes first.
pub open spec fn path_le(a: Option<Seq<char>>, b: Option<Seq<char>>) -> bool {
    match (a, b) {
        (None, _) => true,
        (Some(_), None) => false,
        (Some(x), Some(y)) => text_le(x, y),
    }
}

proof fn lemma_text_le_total(a: Seq<char>, b: Seq<char>)
    ensures
        text_le(a, b) || text_le(b, a),
        text_le(a, b) && text_le(b, a) ==> a == b,
    decreases a.len(),
{
    if a.len() > 0 && b.len() > 0 && a[0] == b[0] {
        let x = a.subrange(1, a.len() as int);
        let y = b.subrange(1, b.len() as int);
        lemma_text_le_total(x, y);
        assert(a =~= seq![a[0]] + x);
        assert(b =~= seq![b[0]] + y);
    } else if a.len() == 0 && b.len() == 0 {
        assert(a =~= b);
    }
}

proof fn lemma_text_le_transitive(a: Seq<char>, b: Seq<char>, c: Seq<char>)
    requires
        text_le(a, b),
        text_le(b, c),
    ensures
        text_le(a, c),
    decreases a.len(),
{
    if a.len() > 0 && b.len() > 0 && c.len() > 0 && a[0] == b[0] && b[0] == c[0] {
        lemma_text_le_transitive(
            a.subrange(1, a.len() as int),
            b.subrange(1, b.len() as int),
            c.subrange(1, c.len() as int),
        );
    }
}

/// Any two optional paths are ordered, and two that stand before each other
/// are the same.
pub proof fn law_path_le_total(a: Option<Seq<char>>, b: Option<Seq<char>>)
    ensures
        path_le(a, b) || path_le(b, a),
        path_le(a, b) && path_le(b, a) ==> a == b,
{
    if let (Some(x), Some(y)) = (a, b) {
        lemma_text_le_total(x, y);
    }
}

/// The order of optional paths is transitive.
pub proof fn law_path_le_transitive(
    a: Option<Seq<char>>,
    b: Option<Seq<char>>,
    c: Option<Seq<char>>,
)
    requires
        path_le(a, b),
        path_le(b, c),
    ensures
        path_le(a, c),
{
    if let (Some(x), Some(y)) = (a, b) {
        if let Some(z) = c {
            lemma_text_le_transitive(x, y, z);
        }
    }
}

/// A text stands before every longer text that starts with it.
pub proof fn law_prefix_first(text: Seq<char>, more: Seq<char>)
    ensures
        text_le(text, text + more),
        more.len() > 0 ==> !text_le(text + more, text),
    decreases text.len(),
{
    let longer = text + more;
    if text.len() > 0 {
        let rest = text.subrange(1, text.len() as int);
        assert(longer.subrange(1, longer.len() as int) =~= rest + more);
        law_prefix_first(rest, more);
    }
}

/// Of two texts that differ, the one with the smaller character at the first
/// difference stands first, whatever stands behind it.
pub proof fn law_first_difference_decides(
    start: Seq<char>,
    a: char,
    b: char,
    rest_a: Seq<char>,
    rest_b: Seq<char>,
)
    requires
        (a as int) < (b as int),
    ensures
        text_le(start + seq![a] + rest_a, start + seq![b] + rest_b),
        !text_le(start + seq![b] + rest_b, start + seq![a] + rest_a),
    decreases start.len(),
{
    let x = start + seq![a] + rest_a;
    let y = start + seq![b] + rest_b;
    if start.len() > 0 {
        let rest = start.subrange(1, start.len() as int);
        assert(x.subrange(1, x.len() as int) =~= rest + seq![a] + rest_a);
        assert(y.subrange(1, y.len() as int) =~= rest + seq![b] + rest_b);
        law_first_difference_decides(rest, a, b, rest_a, rest_b);
    }
}

/// What has no path comes before everything that has one; two paths are ordered
/// as texts.
pub proof fn law_no_path_first(a: Seq<char>, b: Seq<char>)
    ensures
        path_le(None, Some(a)),
        path_le(None, None),
        !path_le(Some(a), None),
        path_le(Some(a), Some(b)) <==> text_le(a, b),
{
}

/// Whether one text stands before another, or is the same.
pub fn text_not_after(a: &str, b: &str) -> (le: bool)
    ensures
        le == text_le(a@, b@),
{
    let x = chars_of(a);
    let y = chars_of(b);
    let mut i: usize = 0;
    assert(x@.subrange(0, x@.len() as int) =~= a@);
    assert(y@.subrange(0, y@.len() as int) =~= b@);
    while i < x.len()
        invariant
            i <= x.len(),
            i <= y.len(),
            x@ == a@,
            y@ == b@,
            text_le(a@, b@) == text_le(
                x@.subrange(i as int, x@.len() as int),
                y@.subrange(i as int, y@.len() as int),
            ),
        decreases x.len() - i,
    {
        if i == y.len() {
            return false;
        }
        if x[i] != y[i] {
            return x[i] < y[i];
        }
        proof {
            let rest_x = x@.subrange(i as int, x@.len() as int);
            let rest_y = y@.subrange(i as int, y@.len() as int);
            assert(rest_x.subrange(1, rest_x.len() as int) =~= x@.subrange(i + 1, x@.len() as int));
            assert(rest_y.subrange(1, rest_y.len() as int) =~= y@.subrange(i + 1, y@.len() as int));
        }
        i += 1;
    }
    true
}

/// Whether one optional path stands before another, or is the same.
pub fn path_not_after(a: &Option<String>, b: &Option<String>) -> (le: bool)
    ensures
        le == path_le(optional_text(*a), optional_text(*b)),
{
    match (a, b) {
        (None, _) => true,
        (Some(_), None) => false,
        (Some(x), Some(y)) => text_not_after(x.as_str(), y.as_str()),
    }
}

}
