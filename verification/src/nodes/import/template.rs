//! Rooms from a JSON template and a CSV file that fills it.
use vstd::prelude::*;
use crate::crates::{
    braced, braced_from, closing_braces, csv_header_fields, csv_headers, debug_list, debug_texts,
    fields_view, first_groups, lemma_closing_braces,
};
use crate::models::{outcome, DcCmdError, ErrorView};
use crate::nodes::models::RoomImport;
use crate::nodes::rules::verdict;
use crate::text::{
    contains_text, first_position, is_blank_text, is_white_space, join2, join3, law_trim,
    lemma_first_position, lemma_first_position_is, occurs, position_of, same_text, stands_at, texts,
    trim, trimmed,
};

verus! {

// ---------------------------------------------------------------- tokens

/// The tokens of a template: what stands in double braces, without the white
/// space around it.
pub open spec fn template_tokens(template: Seq<char>) -> Seq<Seq<char>> {
    braced(template).map_values(|inner: Seq<char>| trimmed(inner))
}

/// Whether a template may hold a token.
pub open spec fn is_allowed(token: Seq<char>) -> bool {
    token == "name"@ || token == "userPermissions"@ || token == "groupPermissions"@
}

/// The tokens that a template may not hold.
pub open spec fn invalid_tokens(tokens: Seq<Seq<char>>) -> Seq<Seq<char>>
    decreases tokens.len(),
{
    if tokens.len() == 0 {
        Seq::empty()
    } else if is_allowed(tokens.last()) {
        invalid_tokens(tokens.drop_last())
    } else {
        invalid_tokens(tokens.drop_last()).push(tokens.last())
    }
}

/// What is wrong with the tokens of a template.
pub open spec fn token_error(tokens: Seq<Seq<char>>) -> Option<ErrorView> {
    if tokens.len() == 0 {
        Some(ErrorView::NoTemplateTokensFound("No template tokens found in template content."@))
    } else if invalid_tokens(tokens).len() > 0 {
        Some(
            ErrorView::InvalidTemplateTokens(
                "Invalid template tokens found in template content: "@ + debug_list(
                    invalid_tokens(tokens),
                )
                    + ". Only '{ name }', '{ userPermissions }' and '{ groupPermissions }' are allowed."@,
            ),
        )
    } else {
        None
    }
}

/// Texts, or an error.
pub open spec fn texts_outcome(result: Result<Vec<String>, DcCmdError>) -> Result<
    Seq<Seq<char>>,
    ErrorView,
> {
    match result {
        Ok(list) => Ok(texts(list@)),
        Err(error) => Err(error@),
    }
}

/// A value where there is no error, and that error otherwise.
pub open spec fn unless<T>(error: Option<ErrorView>, value: T) -> Result<T, ErrorView> {
    match error {
        Some(e) => Err(e),
        None => Ok(value),
    }
}

proof fn lemma_invalid_tokens(tokens: Seq<Seq<char>>)
    ensures
        invalid_tokens(tokens).len() == 0 <==> (forall|i: int|
            0 <= i < tokens.len() ==> is_allowed(#[trigger] tokens[i])),
    decreases tokens.len(),
{
    if tokens.len() > 0 {
        let front = tokens.drop_last();
        lemma_invalid_tokens(front);
        assert forall|i: int| 0 <= i < front.len() implies front[i] == #[trigger] tokens[i] by {}
        if invalid_tokens(tokens).len() == 0 {
            assert forall|i: int| 0 <= i < tokens.len() implies is_allowed(#[trigger] tokens[i]) by {
                if i < front.len() {
                    assert(is_allowed(front[i]));
                }
            }
        }
        if forall|i: int| 0 <= i < tokens.len() ==> is_allowed(#[trigger] tokens[i]) {
            assert forall|i: int| 0 <= i < front.len() implies is_allowed(#[trigger] front[i]) by {
                assert(front[i] == tokens[i]);
            }
            assert(is_allowed(tokens[tokens.len() - 1]));
        }
    }
}

/// Tokens are accepted exactly if there are some and a template may hold each
/// of them.
pub proof fn law_accepted_tokens(tokens: Seq<Seq<char>>)
    ensures
        token_error(tokens) is None <==> tokens.len() > 0 && (forall|i: int|
            0 <= i < tokens.len() ==> is_allowed(#[trigger] tokens[i])),
{
    lemma_invalid_tokens(tokens);
}

/// A template without double opening braces has no tokens.
pub proof fn law_no_braces_no_tokens(template: Seq<char>)
    requires
        !occurs(template, seq!['{', '{']),
    ensures
        template_tokens(template).len() == 0,
{
    lemma_no_braces(template, 0);
}

proof fn lemma_no_braces(template: Seq<char>, from: int)
    requires
        !occurs(template, seq!['{', '{']),
    ensures
        braced_from(template, from).len() == 0,
    decreases template.len() - from,
{
    if 0 <= from < template.len() {
        assert(!stands_at(template, seq!['{', '{'], from));
        lemma_no_braces(template, from + 1);
    }
}

/// Every token of a template stands in it between double braces, with nothing
/// but white space around it.
pub proof fn law_tokens_stand_in_template(template: Seq<char>, i: int)
    requires
        0 <= i < template_tokens(template).len(),
    ensures
        occurs(template, seq!['{', '{'] + braced(template)[i] + seq!['}', '}']),
        template_tokens(template)[i] == trimmed(braced(template)[i]),
{
    lemma_braced_stands(template, 0, i);
}

proof fn lemma_closing_stands(text: Seq<char>, from: int)
    ensures
        closing_braces(text, from) matches Some(end) ==> stands_at(text, seq!['}', '}'], end),
    decreases text.len() - from,
{
    if 0 <= from < text.len() {
        lemma_closing_stands(text, from + 1);
    }
}

proof fn lemma_braced_stands(text: Seq<char>, from: int, i: int)
    requires
        0 <= i < braced_from(text, from).len(),
    ensures
        occurs(text, seq!['{', '{'] + braced_from(text, from)[i] + seq!['}', '}']),
    decreases text.len() - from,
{
    let end = closing_braces(text, from + 2);
    lemma_closing_braces(text, from + 2);
    lemma_closing_stands(text, from + 2);
    if stands_at(text, seq!['{', '{'], from) && end is Some {
        let inner = text.subrange(from + 2, end->0);
        if i == 0 {
            let whole = seq!['{', '{'] + inner + seq!['}', '}'];
            let found = text.subrange(from, from + whole.len());
            assert(text.subrange(from, from + 2) == seq!['{', '{']);
            assert(text.subrange(end->0, end->0 + 2) == seq!['}', '}']);
            assert forall|k: int| 0 <= k < whole.len() implies whole[k] == #[trigger] found[k] by {
                if k < 2 {
                    assert(text.subrange(from, from + 2)[k] == text[from + k]);
                } else if k < 2 + inner.len() {
                    assert(inner[k - 2] == text[from + k]);
                } else {
                    assert(text.subrange(end->0, end->0 + 2)[k - 2 - inner.len()] == text[from + k]);
                }
            }
            assert(found =~= whole);
            assert(stands_at(text, whole, from));
        } else {
            lemma_braced_stands(text, end->0 + 2, i - 1);
            assert(braced_from(text, from)[i] == braced_from(text, end->0 + 2)[i - 1]);
        }
    } else {
        lemma_braced_stands(text, from + 1, i);
    }
}

impl RoomImport {
    /// The tokens of a template, where it has some and may hold all of them.
    pub fn get_template_tokens(template_content: &str) -> (result: Result<
        Vec<String>,
        DcCmdError,
    >)
        ensures
            texts_outcome(result) == unless(
                token_error(template_tokens(template_content@)),
                template_tokens(template_content@),
            ),
    {
        let groups = first_groups(r"\{\{(.*?)\}\}", template_content);
        let mut tokens: Vec<String> = Vec::new();
        let mut i: usize = 0;
        while i < groups.len()
            invariant
                i <= groups.len(),
                texts(groups@) == braced(template_content@),
                texts(tokens@) == template_tokens(template_content@).take(i as int),
            decreases groups.len() - i,
        {
            let ghost before = tokens@;
            let ghost all = template_tokens(template_content@);
            tokens.push(trim(groups[i].as_str()));
            proof {
                assert(texts(groups@).len() == groups@.len());
                assert(texts(groups@)[i as int] == groups@[i as int]@);
                assert(all[i as int] == trimmed(braced(template_content@)[i as int]));
                assert(texts(tokens@) =~= texts(before).push(all[i as int]));
                assert(all.take(i + 1) =~= all.take(i as int).push(all[i as int]));
            }
            i += 1;
        }
        assert(groups@.len() == texts(groups@).len());
        assert(template_tokens(template_content@).take(i as int) =~= template_tokens(
            template_content@,
        ));
        match Self::check_tokens(&tokens) {
            Ok(_) => Ok(tokens),
            Err(error) => Err(error),
        }
    }

    /// Refuses tokens that a template may not hold, and no tokens at all.
    pub fn check_tokens(tokens: &Vec<String>) -> (result: Result<(), DcCmdError>)
        ensures
            outcome(result) == verdict(token_error(texts(tokens@))),
    {
        if tokens.is_empty() {
            return Err(
                DcCmdError::NoTemplateTokensFound(
                    "No template tokens found in template content.".to_owned(),
                ),
            );
        }
        let ghost all = texts(tokens@);
        let mut invalid: Vec<String> = Vec::new();
        let mut i: usize = 0;
        assert(texts(invalid@) =~= invalid_tokens(all.take(0)));
        while i < tokens.len()
            invariant
                i <= tokens.len(),
                all == texts(tokens@),
                texts(invalid@) == invalid_tokens(all.take(i as int)),
            decreases tokens.len() - i,
        {
            let token = tokens[i].as_str();
            let ghost before = invalid@;
            assert(all.take(i + 1).drop_last() =~= all.take(i as int));
            if !(same_text(token, "name") || same_text(token, "userPermissions") || same_text(
                token,
                "groupPermissions",
            )) {
                invalid.push(tokens[i].clone());
                assert(texts(invalid@) =~= texts(before).push(all[i as int]));
            }
            i += 1;
        }
        assert(all.take(i as int) =~= all);
        assert(texts(invalid@).len() == invalid@.len());
        if !invalid.is_empty() {
            return Err(
                DcCmdError::InvalidTemplateTokens(
                    join3(
                        "Invalid template tokens found in template content: ",
                        debug_texts(&invalid).as_str(),
                        ". Only '{ name }', '{ userPermissions }' and '{ groupPermissions }' are allowed.",
                    ),
                ),
            );
        }
        Ok(())
    }
}

// ---------------------------------------------------------------- headers

/// In which columns of a CSV file the values of a room stand.
#[derive(Debug, Clone, Copy, PartialEq, Eq, Structural)]
pub struct HeaderIndexes {
    pub name_index: Option<usize>,
    pub user_id_index: Option<usize>,
    pub user_permissions_index: Option<usize>,
    pub group_id_index: Option<usize>,
    pub new_group_member_acceptance_index: Option<usize>,
    pub group_permissions_index: Option<usize>,
}

/// The first column with a title.
pub open spec fn column(headers: Seq<Seq<char>>, title: Seq<char>) -> Option<usize> {
    match first_position(headers, title) {
        Some(i) => Some(i as usize),
        None => None,
    }
}

/// The columns of a CSV file with these titles.
pub open spec fn columns(headers: Seq<Seq<char>>) -> HeaderIndexes {
    HeaderIndexes {
        name_index: column(headers, "name"@),
        user_id_index: column(headers, "userId"@),
        user_permissions_index: column(headers, "userPermissions"@),
        group_id_index: column(headers, "groupId"@),
        new_group_member_acceptance_index: column(headers, "newGroupMemberAcceptance"@),
        group_permissions_index: column(headers, "groupPermissions"@),
    }
}

/// What is wrong with the columns of a CSV file.
pub open spec fn columns_error(found: HeaderIndexes) -> Option<ErrorView> {
    if found.name_index is None {
        Some(ErrorView::CsvReadHeaders("No 'name' column found in CSV file."@))
    } else if found.user_id_index is Some && found.user_permissions_index is None {
        Some(
            ErrorView::CsvReadHeaders(
                "'userId' column found but no 'userPermissions' column found in CSV file."@,
            ),
        )
    } else if found.group_id_index is Some && found.group_permissions_index is None {
        Some(
            ErrorView::CsvReadHeaders(
                "'groupId' column found but no 'groupPermissions' column found in CSV file."@,
            ),
        )
    } else {
        None
    }
}

/// The columns of a CSV file, from what reading its first row gave.
pub open spec fn read_columns(fields: Result<Seq<Seq<char>>, Seq<char>>) -> Result<
    HeaderIndexes,
    ErrorView,
> {
    match fields {
        Ok(headers) => unless(columns_error(columns(headers)), columns(headers)),
        Err(message) => Err(
            ErrorView::CsvReadHeaders("Failed to read CSV headers: "@ + message),
        ),
    }
}

/// What is wrong with using tokens where these columns are there.
pub open spec fn token_column_error(found: HeaderIndexes, tokens: Seq<Seq<char>>) -> Option<
    ErrorView,
> {
    if tokens.contains("userPermissions"@) && (found.user_id_index is None
        || found.user_permissions_index is None) {
        Some(
            ErrorView::TemplateTokenConflict(
                "'userPermissions' token found but no 'userId' or 'userPermissions' column found in CSV file."@,
            ),
        )
    } else if tokens.contains("groupPermissions"@) && (found.group_id_index is None
        || found.group_permissions_index is None) {
        Some(
            ErrorView::TemplateTokenConflict(
                "'groupPermissions' token found in template but no 'groupId' or 'groupPermissions' column found in CSV file."@,
            ),
        )
    } else {
        None
    }
}

/// The first column with a title.
fn find_column(headers: &Vec<String>, title: &str) -> (index: Option<usize>)
    ensures
        index == column(texts(headers@), title@),
{
    position_of(headers, title)
}

impl RoomImport {
    /// The columns of a CSV file.
    pub fn get_header_indexes(data: &Vec<u8>) -> (result: Result<HeaderIndexes, DcCmdError>)
        ensures
            outcome(result) == read_columns(csv_header_fields(data@)),
    {
        Self::find_header_indexes(csv_headers(data))
    }

    /// The columns of a CSV file, from what reading its first row gave.
    pub fn find_header_indexes(fields: Result<Vec<String>, String>) -> (result: Result<
        HeaderIndexes,
        DcCmdError,
    >)
        ensures
            outcome(result) == read_columns(fields_view(fields)),
    {
        let headers = match fields {
            Ok(headers) => headers,
            Err(message) => {
                return Err(
                    DcCmdError::CsvReadHeaders(
                        join2("Failed to read CSV headers: ", message.as_str()),
                    ),
                );
            },
        };
        let found = HeaderIndexes {
            name_index: find_column(&headers, "name"),
            user_id_index: find_column(&headers, "userId"),
            user_permissions_index: find_column(&headers, "userPermissions"),
            group_id_index: find_column(&headers, "groupId"),
            new_group_member_acceptance_index: find_column(&headers, "newGroupMemberAcceptance"),
            group_permissions_index: find_column(&headers, "groupPermissions"),
        };
        if found.name_index.is_none() {
            return Err(
                DcCmdError::CsvReadHeaders("No 'name' column found in CSV file.".to_owned()),
            );
        }
        if found.user_id_index.is_some() && found.user_permissions_index.is_none() {
            return Err(
                DcCmdError::CsvReadHeaders(
                    "'userId' column found but no 'userPermissions' column found in CSV file.".to_owned(),
                ),
            );
        }
        if found.group_id_index.is_some() && found.group_permissions_index.is_none() {
            return Err(
                DcCmdError::CsvReadHeaders(
                    "'groupId' column found but no 'groupPermissions' column found in CSV file.".to_owned(),
                ),
            );
        }
        Ok(found)
    }

    /// Refuses tokens whose values have no column.
    pub fn validate_tokens_against_headers(
        header_indexes: &HeaderIndexes,
        tokens: &Vec<String>,
    ) -> (result: Result<(), DcCmdError>)
        ensures
            outcome(result) == verdict(token_column_error(*header_indexes, texts(tokens@))),
    {
        if contains_text(tokens, "userPermissions") && (header_indexes.user_id_index.is_none()
            || header_indexes.user_permissions_index.is_none()) {
            return Err(
                DcCmdError::TemplateTokenConflict(
                    "'userPermissions' token found but no 'userId' or 'userPermissions' column found in CSV file.".to_owned(),
                ),
            );
        }
        if contains_text(tokens, "groupPermissions") && (header_indexes.group_id_index.is_none()
            || header_indexes.group_permissions_index.is_none()) {
            return Err(
                DcCmdError::TemplateTokenConflict(
                    "'groupPermissions' token found in template but no 'groupId' or 'groupPermissions' column found in CSV file.".to_owned(),
                ),
            );
        }
        Ok(())
    }
}

// ---------------------------------------------------------------- laws

proof fn lemma_invalid_filter(tokens: Seq<Seq<char>>)
    ensures
        invalid_tokens(tokens) == tokens.filter(
            |token: Seq<char>|
                token != "name"@ && token != "userPermissions"@ && token != "groupPermissions"@,
        ),
    decreases tokens.len(),
{
    reveal(Seq::filter);
    if tokens.len() > 0 {
        lemma_invalid_filter(tokens.drop_last());
    } else {
        assert(invalid_tokens(tokens) =~= tokens);
    }
}

/// A template may hold the tokens `name`, `userPermissions` and
/// `groupPermissions`, and has to hold one at least. The message on other tokens
/// lists all of these, in their order.
pub proof fn law_three_tokens_are_known(tokens: Seq<Seq<char>>)
    ensures
        ({
            let unknown = tokens.filter(
                |token: Seq<char>|
                    token != "name"@ && token != "userPermissions"@ && token != "groupPermissions"@,
            );
            token_error(tokens) == (if tokens.len() == 0 {
                Some(
                    ErrorView::NoTemplateTokensFound(
                        "No template tokens found in template content."@,
                    ),
                )
            } else if unknown.len() > 0 {
                Some(
                    ErrorView::InvalidTemplateTokens(
                        "Invalid template tokens found in template content: "@ + debug_list(unknown)
                            + ". Only '{ name }', '{ userPermissions }' and '{ groupPermissions }' are allowed."@,
                    ),
                )
            } else {
                None
            })
        }),
        token_error(tokens) is None <==> tokens.len() > 0 && (forall|i: int|
            0 <= i < tokens.len() ==> ((#[trigger] tokens[i]) == "name"@ || tokens[i]
                == "userPermissions"@ || tokens[i] == "groupPermissions"@)),
{
    lemma_invalid_filter(tokens);
    law_accepted_tokens(tokens);
}

/// The tokens of a template are what stands in its double braces, one for one and
/// in order, without the white space around each.
pub proof fn law_tokens_are_trimmed(
    template: Seq<char>,
    i: int,
    before: Seq<char>,
    token: Seq<char>,
    after: Seq<char>,
)
    requires
        0 <= i < braced(template).len(),
        braced(template)[i] == before + token + after,
        is_blank_text(before),
        is_blank_text(after),
        token.len() > 0 ==> !is_white_space(token[0]) && !is_white_space(token.last()),
    ensures
        template_tokens(template).len() == braced(template).len(),
        template_tokens(template)[i] == token,
{
    law_trim(before, token, after);
}

/// Whether a column is the first one with a title.
pub open spec fn is_first_column(headers: Seq<Seq<char>>, title: Seq<char>, i: int) -> bool {
    &&& 0 <= i < headers.len()
    &&& headers[i] == title
    &&& forall|j: int| 0 <= j < i ==> headers[j] != title
}

proof fn lemma_column(headers: Seq<Seq<char>>, title: Seq<char>, i: int)
    requires
        headers.len() <= usize::MAX,
    ensures
        is_first_column(headers, title, i) ==> column(headers, title) == Some(i as usize),
        !headers.contains(title) ==> column(headers, title) is None,
{
    lemma_first_position(headers, title);
    if is_first_column(headers, title, i) {
        lemma_first_position_is(headers, title, i);
    }
    if !headers.contains(title) && first_position(headers, title) is Some {
        assert(headers.contains(headers[first_position(headers, title)->0]));
    }
}

/// Each value of a room is looked for in the first column that has exactly its
/// title; without such a column it has none.
pub proof fn law_columns_are_found_by_title(headers: Seq<Seq<char>>, i: int)
    requires
        headers.len() <= usize::MAX,
    ensures
        is_first_column(headers, "name"@, i) ==> columns(headers).name_index == Some(i as usize),
        is_first_column(headers, "userId"@, i) ==> columns(headers).user_id_index == Some(
            i as usize,
        ),
        is_first_column(headers, "userPermissions"@, i) ==> columns(headers).user_permissions_index
            == Some(i as usize),
        is_first_column(headers, "groupId"@, i) ==> columns(headers).group_id_index == Some(
            i as usize,
        ),
        is_first_column(headers, "newGroupMemberAcceptance"@, i) ==> columns(
            headers,
        ).new_group_member_acceptance_index == Some(i as usize),
        is_first_column(headers, "groupPermissions"@, i) ==> columns(
            headers,
        ).group_permissions_index == Some(i as usize),
        !headers.contains("name"@) ==> columns(headers).name_index is None,
        !headers.contains("userId"@) ==> columns(headers).user_id_index is None,
        !headers.contains("userPermissions"@) ==> columns(headers).user_permissions_index is None,
        !headers.contains("groupId"@) ==> columns(headers).group_id_index is None,
        !headers.contains("newGroupMemberAcceptance"@) ==> columns(
            headers,
        ).new_group_member_acceptance_index is None,
        !headers.contains("groupPermissions"@) ==> columns(headers).group_permissions_index is None,
{
    lemma_column(headers, "name"@, i);
    lemma_column(headers, "userId"@, i);
    lemma_column(headers, "userPermissions"@, i);
    lemma_column(headers, "groupId"@, i);
    lemma_column(headers, "newGroupMemberAcceptance"@, i);
    lemma_column(headers, "groupPermissions"@, i);
}

/// A CSV file needs a column with names, and one with permissions for each column
/// with ids. Where its first row cannot be read, the message says why.
pub proof fn law_columns_are_needed(headers: Seq<Seq<char>>, message: Seq<char>)
    requires
        headers.len() <= usize::MAX,
    ensures
        read_columns(Ok(headers)) == (if !headers.contains("name"@) {
            Err(ErrorView::CsvReadHeaders("No 'name' column found in CSV file."@))
        } else if headers.contains("userId"@) && !headers.contains("userPermissions"@) {
            Err(
                ErrorView::CsvReadHeaders(
                    "'userId' column found but no 'userPermissions' column found in CSV file."@,
                ),
            )
        } else if headers.contains("groupId"@) && !headers.contains("groupPermissions"@) {
            Err(
                ErrorView::CsvReadHeaders(
                    "'groupId' column found but no 'groupPermissions' column found in CSV file."@,
                ),
            )
        } else {
            Ok(columns(headers))
        }),
        read_columns(Err(message)) == Err::<HeaderIndexes, ErrorView>(
            ErrorView::CsvReadHeaders("Failed to read CSV headers: "@ + message),
        ),
{
    lemma_column_is_there(headers, "name"@);
    lemma_column_is_there(headers, "userId"@);
    lemma_column_is_there(headers, "userPermissions"@);
    lemma_column_is_there(headers, "groupId"@);
    lemma_column_is_there(headers, "groupPermissions"@);
}

proof fn lemma_column_is_there(headers: Seq<Seq<char>>, title: Seq<char>)
    ensures
        column(headers, title) is Some <==> headers.contains(title),
{
    lemma_first_position(headers, title);
}

/// A token for permissions needs both the column with ids and the one with
/// permissions; the token for names needs neither. Users are looked at first.
pub proof fn law_tokens_need_columns(found: HeaderIndexes, tokens: Seq<Seq<char>>)
    ensures
        token_column_error(found, tokens) is None <==> (tokens.contains("userPermissions"@)
            ==> found.user_id_index is Some && found.user_permissions_index is Some) && (
        tokens.contains("groupPermissions"@) ==> found.group_id_index is Some
            && found.group_permissions_index is Some),
        tokens.contains("userPermissions"@) && (found.user_id_index is None
            || found.user_permissions_index is None) ==> token_column_error(found, tokens) == Some(
            ErrorView::TemplateTokenConflict(
                "'userPermissions' token found but no 'userId' or 'userPermissions' column found in CSV file."@,
            ),
        ),
        !(tokens.contains("userPermissions"@) && (found.user_id_index is None
            || found.user_permissions_index is None)) && tokens.contains("groupPermissions"@) && (
        found.group_id_index is None || found.group_permissions_index is None)
            ==> token_column_error(found, tokens) == Some(
            ErrorView::TemplateTokenConflict(
                "'groupPermissions' token found in template but no 'groupId' or 'groupPermissions' column found in CSV file."@,
            ),
        ),
{
}

/// An outcome without an error is the value itself.
pub proof fn law_unless(error: ErrorView, value: HeaderIndexes, list: Seq<Seq<char>>)
    ensures
        unless(None, value) == Ok::<HeaderIndexes, ErrorView>(value),
        unless(Some(error), value) == Err::<HeaderIndexes, ErrorView>(error),
        unless(None, list) == Ok::<Seq<Seq<char>>, ErrorView>(list),
        unless(Some(error), list) == Err::<Seq<Seq<char>>, ErrorView>(error),
{
}

/// An outcome shows all texts, or the error.
pub proof fn law_texts_outcome_shows_all(result: Result<Vec<String>, DcCmdError>, i: int)
    ensures
        result is Ok <==> texts_outcome(result) is Ok,
        result matches Ok(list) ==> texts_outcome(result)->Ok_0.len() == list@.len(),
        result matches Ok(list) ==> 0 <= i < list@.len() ==> texts_outcome(result)->Ok_0[i]
            == list@[i]@,
        result matches Err(error) ==> texts_outcome(result)->Err_0 == error@,
{
}

}
