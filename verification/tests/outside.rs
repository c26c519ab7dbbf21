//! What the library relies on of other crates, on many inputs.
use itertools::Itertools;

/// What stands between `{{` and the next `}}` on the same line, from left to
/// right.
fn braced(text: &[char]) -> Vec<String> {
    let mut found = vec![];
    let mut at = 0;
    while at < text.len() {
        let mut end = None;
        if text[at..].starts_with(&['{', '{']) {
            let mut i = at + 2;
            while i < text.len() {
                if text[i..].starts_with(&['}', '}']) {
                    end = Some(i);
                    break;
                }
                if text[i] == '\n' {
                    break;
                }
                i += 1;
            }
        }
        match end {
            Some(i) => {
                found.push(text[at + 2..i].iter().collect());
                at = i + 2;
            }
            None => at += 1,
        }
    }
    found
}

#[test]
fn braces_are_matched_from_the_left() {
    let alphabet = ['{', '}', 'ä', '\n'];
    let expression = regex::Regex::new(r"\{\{(.*?)\}\}").unwrap();
    for length in 0..9_u32 {
        for number in 0..4_usize.pow(length) {
            let text: Vec<char> =
                (0..length).map(|i| alphabet[number / 4_usize.pow(i) % 4]).collect();
            let whole: String = text.iter().collect();
            let groups: Vec<String> =
                expression.captures_iter(&whole).map(|found| found[1].to_string()).collect();
            assert_eq!(groups, braced(&text), "{:?}", whole);
        }
    }
}

fn json_char(c: char) -> String {
    match c {
        '"' => "\\\"".to_string(),
        '\\' => "\\\\".to_string(),
        '\u{8}' => "\\b".to_string(),
        '\t' => "\\t".to_string(),
        '\n' => "\\n".to_string(),
        '\u{c}' => "\\f".to_string(),
        '\r' => "\\r".to_string(),
        c if (c as u32) < 32 => format!("\\u{:04x}", c as u32),
        c => c.to_string(),
    }
}

#[test]
fn characters_are_escaped_in_json() {
    for c in '\0'..='\u{10ffff}' {
        if (c as u32) < 0x3000 || (c as u32) % 997 == 0 {
            assert_eq!(
                serde_json::to_string(&c.to_string()).unwrap(),
                format!("\"{}\"", json_char(c))
            );
        }
    }
}

#[test]
fn the_first_of_equal_numbers_is_kept() {
    for number in 0..3_usize.pow(6) {
        let list: Vec<u64> = (0..6).map(|i| (number / 3_usize.pow(i) % 3) as u64).collect();
        let mut kept: Vec<u64> = vec![];
        for n in &list {
            if !kept.contains(n) {
                kept.push(*n);
            }
        }
        assert_eq!(list.into_iter().unique().collect::<Vec<u64>>(), kept);
    }
}

#[test]
fn white_space_is_what_unicode_lists() {
    let listed = |c: char| {
        matches!(
            c as u32,
            0x9..=0xd
                | 0x20
                | 0x85
                | 0xa0
                | 0x1680
                | 0x2000..=0x200a
                | 0x2028
                | 0x2029
                | 0x202f
                | 0x205f
                | 0x3000
        )
    };
    for c in '\0'..=char::MAX {
        assert_eq!(c.is_whitespace(), listed(c), "{:x}", c as u32);
    }
    assert_eq!(('\0'..=char::MAX).filter(|c| c.is_whitespace()).count(), 25);
}

#[test]
fn names_are_rendered_as_they_are() {
    let mut context = tera::Context::new();
    context.insert("name", "a&b");
    let render = |template: &str| tera::Tera::one_off(template, &context, true).ok();
    assert_eq!(render("x {{ name }} {{name}}"), Some("x a&amp;b a&amp;b".to_string()));
    assert_eq!(render("{{ other }}"), None);
    // Words of the template language on their own are no names, and do not
    // make the renderer panic.
    for word in ["and", "or", "not", "in", "is", "true", "name in name", "name is defined", "", " "] {
        let _ = render(&format!("{{{{ {word} }}}}"));
        let _ = render(&format!("{{{{- {word} -}}}}"));
    }
}
