//! Filling a template with the rooms of a CSV file.
use vstd::prelude::*;
use crate::crates::{
    csv_header_fields, csv_headers, csv_records, csv_rows, groups_to_json, insert_text, json_groups,
    json_text, json_users, new_context, no_texts, render_once, rendered_template, table,
    text_to_json, text_view, users_to_json, TextContext,
};
use crate::models::{DcCmdError, ErrorView};
use crate::nodes::import::plain::is_plain_template;
use crate::nodes::import::room_map::{rooms_of_file, RoomMap};
use crate::nodes::import::template::{template_tokens, texts_outcome, token_error};
use crate::nodes::models::{rooms_view, Room, RoomImport, RoomView};
use crate::text::{
    are_split_at, join2, joined_by, law_replace_absent, law_replace_all, occurs, replace_all,
    replaced, texts,
};

verus! {

// ---------------------------------------------------------------- tokens

/// A template with the name and, where they are there, the permissions of a
/// room in place of its tokens. A token is replaced together with the quotes
/// around it.
pub open spec fn filled(template: Seq<char>, room: RoomView) -> Seq<char> {
    let named = replaced(template, "\"{{ name }}\""@, json_text(room.name));
    let with_users = match room.user_permissions {
        Some(users) => replaced(named, "\"{{ userPermissions }}\""@, json_users(users)),
        None => named,
    };
    match room.group_permissions {
        Some(groups) => replaced(with_users, "\"{{ groupPermissions }}\""@, json_groups(groups)),
        None => with_users,
    }
}

/// The filled templates of rooms.
pub open spec fn all_filled(template: Seq<char>, rooms: Seq<RoomView>) -> Seq<Seq<char>> {
    rooms.map_values(|room: RoomView| filled(template, room))
}

/// A template without quoted tokens stays as it is for every room.
pub proof fn law_fill_without_tokens(template: Seq<char>, room: RoomView)
    requires
        !occurs(template, "\"{{ name }}\""@),
        !occurs(template, "\"{{ userPermissions }}\""@),
        !occurs(template, "\"{{ groupPermissions }}\""@),
    ensures
        filled(template, room) == template,
{
    law_replace_absent(template, "\"{{ name }}\""@, json_text(room.name));
    if room.user_permissions is Some {
        law_replace_absent(
            template,
            "\"{{ userPermissions }}\""@,
            json_users(room.user_permissions->0),
        );
    }
    if room.group_permissions is Some {
        law_replace_absent(
            template,
            "\"{{ groupPermissions }}\""@,
            json_groups(room.group_permissions->0),
        );
    }
}

/// A text, or an error.
pub open spec fn text_outcome(result: Result<String, DcCmdError>) -> Result<Seq<char>, ErrorView> {
    match result {
        Ok(text) => Ok(text@),
        Err(error) => Err(error@),
    }
}

/// Rooms, or an error.
pub open spec fn rooms_outcome(result: Result<Vec<Room>, DcCmdError>) -> Result<
    Seq<RoomView>,
    ErrorView,
> {
    match result {
        Ok(rooms) => Ok(rooms_view(rooms@)),
        Err(error) => Err(error@),
    }
}

/// What parsing a filled template gave, with the room as its view.
pub open spec fn parsed_view(parsed: Result<Room, String>) -> Result<RoomView, Seq<char>> {
    match parsed {
        Ok(room) => Ok(room@),
        Err(message) => Err(message@),
    }
}

/// The rooms that parsing filled templates gave, or the first error.
pub open spec fn collected(parsed: Seq<Result<Room, String>>) -> Result<Seq<RoomView>, ErrorView>
    decreases parsed.len(),
{
    if parsed.len() == 0 {
        Ok(Seq::empty())
    } else {
        match (collected(parsed.drop_last()), parsed_view(parsed.last())) {
            (Err(error), _) => Err(error),
            (Ok(rooms), Ok(room)) => Ok(rooms.push(room)),
            (Ok(_), Err(message)) => Err(
                ErrorView::JsonParseTemplate("Failed to deserialize JSON template: "@ + message),
            ),
        }
    }
}

proof fn lemma_collected_error(parsed: Seq<Result<Room, String>>, n: int)
    requires
        0 <= n <= parsed.len(),
        collected(parsed.take(n)) is Err,
    ensures
        collected(parsed) == collected(parsed.take(n)),
    decreases parsed.len() - n,
{
    if n == parsed.len() {
        assert(parsed.take(n) =~= parsed);
    } else {
        assert(parsed.take(n + 1).drop_last() =~= parsed.take(n));
        lemma_collected_error(parsed, n + 1);
    }
}

/// A text, or a message that says what could not be serialised.
fn serialised(json: Result<String, String>, failure: &str) -> (result: Result<String, DcCmdError>)
    ensures
        text_outcome(result) == (match json {
            Ok(text) => Ok::<Seq<char>, ErrorView>(text@),
            Err(message) => Err(ErrorView::SerdeSerializeToString(failure@ + message@)),
        }),
{
    match json {
        Ok(text) => Ok(text),
        Err(message) => Err(DcCmdError::SerdeSerializeToString(join2(failure, message.as_str()))),
    }
}

/// Fills a template with a room.
fn fill_room(room: &Room, template: &str) -> (result: Result<String, DcCmdError>)
    ensures
        text_outcome(result) == Ok::<Seq<char>, ErrorView>(filled(template@, room@)),
{
    proof {
        reveal_strlit("\"{{ name }}\"");
        reveal_strlit("\"{{ userPermissions }}\"");
        reveal_strlit("\"{{ groupPermissions }}\"");
    }
    let name = serialised(
        text_to_json(room.name.as_str()),
        "Failed to serialize room name: ",
    )?;
    let mut content = replace_all(template, "\"{{ name }}\"", name.as_str());
    if let Some(users) = &room.user_permissions {
        let json = serialised(users_to_json(users), "Failed to serialize user permissions: ")?;
        content = replace_all(content.as_str(), "\"{{ userPermissions }}\"", json.as_str());
    }
    if let Some(groups) = &room.group_permissions {
        let json = serialised(groups_to_json(groups), "Failed to serialize group permissions: ")?;
        content = replace_all(content.as_str(), "\"{{ groupPermissions }}\"", json.as_str());
    }
    Ok(content)
}

impl RoomImport {
    /// The template filled with each of the rooms, in their order.
    pub fn fill_template_with_data(
        rooms_map: RoomMap,
        template_content: String,
    ) -> (result: Result<Vec<String>, DcCmdError>)
        ensures
            texts_outcome(result) == Ok::<Seq<Seq<char>>, ErrorView>(
                all_filled(template_content@, rooms_map@),
            ),
    {
        let rooms = rooms_map.rooms();
        let ghost all = all_filled(template_content@, rooms_map@);
        let mut contents: Vec<String> = Vec::new();
        let mut i: usize = 0;
        while i < rooms.len()
            invariant
                i <= rooms.len(),
                all == all_filled(template_content@, rooms_map@),
                rooms_view(rooms@) == rooms_map@,
                texts(contents@) == all.take(i as int),
            decreases rooms.len() - i,
        {
            let ghost before = contents@;
            let content = fill_room(&rooms[i], template_content.as_str())?;
            contents.push(content);
            proof {
                assert(rooms_map@.len() == rooms@.len());
                assert(rooms_map@[i as int] == rooms@[i as int]@);
                assert(texts(contents@) =~= texts(before).push(all[i as int]));
                assert(all.take(i + 1) =~= all.take(i as int).push(all[i as int]));
            }
            i += 1;
        }
        assert(rooms_map@.len() == rooms@.len());
        assert(all.take(i as int) =~= all);
        Ok(contents)
    }

    /// The template filled with each room that a CSV file describes.
    pub fn construct_rooms_from_template_files(
        data: &Vec<u8>,
        template_content: String,
    ) -> (result: Result<Vec<String>, DcCmdError>)
        ensures
            texts_outcome(result) == (match token_error(template_tokens(template_content@)) {
                Some(error) => Err(error),
                None => match rooms_of_file(
                    csv_header_fields(data@),
                    csv_rows(data@),
                    template_tokens(template_content@),
                ) {
                    Ok(rooms) => Ok(all_filled(template_content@, rooms)),
                    Err(error) => Err(error),
                },
            }),
    {
        match Self::get_template_tokens(template_content.as_str()) {
            Ok(tokens) => match Self::read_file_and_construct_room_map(data, tokens) {
                Ok(rooms_map) => Self::fill_template_with_data(rooms_map, template_content),
                Err(error) => Err(error),
            },
            Err(error) => Err(error),
        }
    }

    /// The rooms that parsing filled templates gave, or the first error.
    pub fn collect_filled_rooms(parsed: Vec<Result<Room, String>>) -> (result: Result<
        Vec<Room>,
        DcCmdError,
    >)
        ensures
            rooms_outcome(result) == collected(parsed@),
    {
        let mut rooms: Vec<Room> = Vec::new();
        let mut i: usize = 0;
        assert(rooms_view(rooms@) =~= Seq::<RoomView>::empty());
        while i < parsed.len()
            invariant
                i <= parsed.len(),
                collected(parsed@.take(i as int)) == Ok::<Seq<RoomView>, ErrorView>(
                    rooms_view(rooms@),
                ),
            decreases parsed.len() - i,
        {
            let ghost before = rooms@;
            assert(parsed@.take(i + 1).drop_last() =~= parsed@.take(i as int));
            match &parsed[i] {
                Ok(room) => {
                    rooms.push(room.clone());
                    assert(rooms_view(rooms@) =~= rooms_view(before).push(room@));
                },
                Err(message) => {
                    proof {
                        lemma_collected_error(parsed@, i + 1);
                    }
                    return Err(
                        DcCmdError::JsonParseTemplate(
                            join2("Failed to deserialize JSON template: ", message.as_str()),
                        ),
                    );
                },
            }
            i += 1;
        }
        assert(parsed@.take(i as int) =~= parsed@);
        Ok(rooms)
    }
}

// ---------------------------------------------------------------- contexts

/// The values of a record by the titles of their columns, those of the first
/// `n` columns. Where two columns have the same title, the later one counts.
pub open spec fn record_texts(headers: Seq<Seq<char>>, record: Seq<Seq<char>>, n: int) -> Map<
    Seq<char>,
    Seq<char>,
>
    decreases n,
{
    if n <= 0 {
        no_texts()
    } else if n <= record.len() {
        record_texts(headers, record, n - 1).insert(headers[n - 1], record[n - 1])
    } else {
        record_texts(headers, record, n - 1)
    }
}

/// The context of a record: its values by the titles of their columns.
pub fn record_context(headers: &Vec<String>, record: &Vec<String>) -> (context: TextContext)
    ensures
        context@ == record_texts(
            texts(headers@),
            texts(record@),
            headers@.len() as int,
        ),
{
    let mut context = new_context();
    let mut i: usize = 0;
    while i < headers.len()
        invariant
            i <= headers.len(),
            context@ == record_texts(texts(headers@), texts(record@), i as int),
        decreases headers.len() - i,
    {
        assert(texts(headers@)[i as int] == headers@[i as int]@);
        assert(texts(record@).len() == record@.len());
        if i < record.len() {
            assert(texts(record@)[i as int] == record@[i as int]@);
            insert_text(&mut context, headers[i].as_str(), record[i].as_str());
        }
        i += 1;
    }
    context
}

/// The values of all rows by the titles of their columns, where a file could be
/// read as CSV.
pub open spec fn file_texts(
    fields: Result<Seq<Seq<char>>, Seq<char>>,
    records: Result<Seq<Seq<Seq<char>>>, Seq<char>>,
) -> Option<Seq<Map<Seq<char>, Seq<char>>>> {
    match (fields, records) {
        (Ok(headers), Ok(rows)) => Some(
            rows.map_values(
                |record: Seq<Seq<char>>| record_texts(headers, record, headers.len() as int),
            ),
        ),
        _ => None,
    }
}

/// The texts that rendering gave, where all of them could be rendered.
pub open spec fn all_rendered(rendered: Seq<Result<Seq<char>, Seq<char>>>) -> Option<
    Seq<Seq<char>>,
> {
    if forall|i: int| 0 <= i < rendered.len() ==> (#[trigger] rendered[i]) is Ok {
        Some(rendered.map_values(|one: Result<Seq<char>, Seq<char>>| one->Ok_0))
    } else {
        None
    }
}

/// What rendering gave, as sequences.
pub open spec fn rendered_views(rendered: Seq<Result<String, String>>) -> Seq<
    Result<Seq<char>, Seq<char>>,
> {
    rendered.map_values(|one: Result<String, String>| text_view(one))
}

/// A template rendered with the values of each row.
pub open spec fn renderings(
    template: Seq<char>,
    rows: Seq<Map<Seq<char>, Seq<char>>>,
) -> Seq<Result<Seq<char>, Seq<char>>> {
    rows.map_values(
        |values: Map<Seq<char>, Seq<char>>| rendered_template(template, values, true),
    )
}

/// Optional texts.
pub open spec fn optional_texts(list: Option<Vec<String>>) -> Option<Seq<Seq<char>>> {
    match list {
        Some(list) => Some(texts(list@)),
        None => None,
    }
}

/// The values in optional contexts.
pub open spec fn contexts_view(contexts: Option<Vec<TextContext>>) -> Option<
    Seq<Map<Seq<char>, Seq<char>>>,
> {
    match contexts {
        Some(list) => Some(list@.map_values(|context: TextContext| context@)),
        None => None,
    }
}

impl RoomImport {
    /// The contexts of all rows of a CSV file. `None` where the file cannot be
    /// read as CSV.
    pub fn template_contexts(data: &Vec<u8>) -> (contexts: Option<Vec<TextContext>>)
        ensures
            contexts_view(contexts) == file_texts(csv_header_fields(data@), csv_rows(data@)),
    {
        let headers = match csv_headers(data) {
            Ok(headers) => headers,
            Err(_) => {
                return None;
            },
        };
        let records = match csv_records(data) {
            Ok(records) => records,
            Err(_) => {
                return None;
            },
        };
        let ghost all = file_texts(csv_header_fields(data@), csv_rows(data@))->0;
        let mut contexts: Vec<TextContext> = Vec::new();
        let mut i: usize = 0;
        assert(texts(headers@).len() == headers@.len());
        assert(table(records@).len() == records@.len());
        while i < records.len()
            invariant
                i <= records.len(),
                table(records@).len() == records@.len(),
                texts(headers@).len() == headers@.len(),
                all == table(records@).map_values(
                    |record: Seq<Seq<char>>|
                        record_texts(texts(headers@), record, texts(headers@).len() as int),
                ),
                contexts@.map_values(|context: TextContext| context@) == all.take(
                    i as int,
                ),
            decreases records.len() - i,
        {
            let ghost before = contexts@;
            contexts.push(record_context(&headers, &records[i]));
            proof {
                assert(table(records@)[i as int] == texts(records@[i as int]@));
                assert(contexts@.map_values(|context: TextContext| context@)
                    =~= before.map_values(|context: TextContext| context@).push(
                    all[i as int],
                ));
                assert(all.take(i + 1) =~= all.take(i as int).push(all[i as int]));
            }
            i += 1;
        }
        assert(all.take(i as int) =~= all);
        Some(contexts)
    }

    /// The texts that rendering gave, where all of them could be rendered.
    pub fn collect_rendered(rendered: Vec<Result<String, String>>) -> (contents: Option<
        Vec<String>,
    >)
        ensures
            optional_texts(contents) == all_rendered(rendered_views(rendered@)),
    {
        let mut contents: Vec<String> = Vec::new();
        let ghost views = rendered_views(rendered@);
        let ghost all = views.map_values(|one: Result<Seq<char>, Seq<char>>| one->Ok_0);
        let mut i: usize = 0;
        while i < rendered.len()
            invariant
                i <= rendered.len(),
                views == rendered_views(rendered@),
                all == views.map_values(|one: Result<Seq<char>, Seq<char>>| one->Ok_0),
                forall|j: int| 0 <= j < i ==> (#[trigger] views[j]) is Ok,
                texts(contents@) == all.take(i as int),
            decreases rendered.len() - i,
        {
            let ghost before = contents@;
            assert(views[i as int] == text_view(rendered@[i as int]));
            match &rendered[i] {
                Ok(content) => {
                    contents.push(content.clone());
                    assert(texts(contents@) =~= texts(before).push(all[i as int]));
                    assert(all.take(i + 1) =~= all.take(i as int).push(all[i as int]));
                },
                Err(_) => {
                    assert(views[i as int] is Err);
                    return None;
                },
            }
            i += 1;
        }
        assert(all.take(i as int) =~= all);
        Some(contents)
    }

    /// The template rendered with each row of a CSV file, in order. `None` where
    /// the file cannot be read as CSV, or the template cannot be rendered with
    /// one of the rows.
    pub fn fill_template(data: &Vec<u8>, template_content: &str) -> (contents: Option<Vec<String>>)
        requires
            is_plain_template(template_content@),
        ensures
            optional_texts(contents) == (match file_texts(
                csv_header_fields(data@),
                csv_rows(data@),
            ) {
                Some(rows) => all_rendered(renderings(template_content@, rows)),
                None => None,
            }),
    {
        let contexts = match Self::template_contexts(data) {
            Some(contexts) => contexts,
            None => {
                return None;
            },
        };
        let ghost rows = contexts@.map_values(|context: TextContext| context@);
        let ghost all = renderings(template_content@, rows);
        let mut rendered: Vec<Result<String, String>> = Vec::new();
        let mut i: usize = 0;
        while i < contexts.len()
            invariant
                i <= contexts.len(),
                is_plain_template(template_content@),
                rows == contexts@.map_values(|context: TextContext| context@),
                all == renderings(template_content@, rows),
                rendered_views(rendered@) == all.take(i as int),
            decreases contexts.len() - i,
        {
            let ghost before = rendered@;
            rendered.push(render_once(template_content, &contexts[i], true));
            proof {
                assert(rows[i as int] == contexts@[i as int]@);
                assert(rendered_views(rendered@) =~= rendered_views(before).push(all[i as int]));
                assert(all.take(i + 1) =~= all.take(i as int).push(all[i as int]));
            }
            i += 1;
        }
        assert(all.take(i as int) =~= all);
        Self::collect_rendered(rendered)
    }
}

// ---------------------------------------------------------------- laws

/// Filling puts the name of a room, as JSON, in place of every quoted token for
/// it, then the users in place of every quoted token for them, and then the
/// groups. Everything between the tokens stays as it is. Tokens for users or
/// groups stay where the room has none.
pub proof fn law_every_token_is_filled(
    around_names: Seq<Seq<char>>,
    around_users: Seq<Seq<char>>,
    around_groups: Seq<Seq<char>>,
    room: RoomView,
)
    requires
        are_split_at(around_names, "\"{{ name }}\""@),
        room.user_permissions is Some ==> are_split_at(
            around_users,
            "\"{{ userPermissions }}\""@,
        ) && joined_by(around_names, json_text(room.name)) == joined_by(
            around_users,
            "\"{{ userPermissions }}\""@,
        ),
        room.group_permissions is Some ==> are_split_at(
            around_groups,
            "\"{{ groupPermissions }}\""@,
        ) && joined_by(around_groups, "\"{{ groupPermissions }}\""@) == (
        if room.user_permissions is Some {
            joined_by(around_users, json_users(room.user_permissions->0))
        } else {
            joined_by(around_names, json_text(room.name))
        }),
    ensures
        filled(joined_by(around_names, "\"{{ name }}\""@), room) == (
        if room.group_permissions is Some {
            joined_by(around_groups, json_groups(room.group_permissions->0))
        } else if room.user_permissions is Some {
            joined_by(around_users, json_users(room.user_permissions->0))
        } else {
            joined_by(around_names, json_text(room.name))
        }),
{
    reveal_strlit("\"{{ name }}\"");
    reveal_strlit("\"{{ userPermissions }}\"");
    reveal_strlit("\"{{ groupPermissions }}\"");
    law_replace_all(around_names, "\"{{ name }}\""@, json_text(room.name));
    if room.user_permissions is Some {
        law_replace_all(
            around_users,
            "\"{{ userPermissions }}\""@,
            json_users(room.user_permissions->0),
        );
    }
    if room.group_permissions is Some {
        law_replace_all(
            around_groups,
            "\"{{ groupPermissions }}\""@,
            json_groups(room.group_permissions->0),
        );
    }
}

/// A template with tokens for names only is filled at each of them, for a room
/// that has no permissions to fill in.
pub proof fn law_every_name_is_filled(pieces: Seq<Seq<char>>, room: RoomView)
    requires
        are_split_at(pieces, "\"{{ name }}\""@),
        room.user_permissions is None,
        room.group_permissions is None,
    ensures
        filled(joined_by(pieces, "\"{{ name }}\""@), room) == joined_by(
            pieces,
            json_text(room.name),
        ),
{
    law_every_token_is_filled(pieces, pieces, pieces, room);
}

/// Two rooms with the same name, users and groups fill a template in the same
/// way, whatever else they say.
pub proof fn law_only_tokens_count(template: Seq<char>, a: RoomView, b: RoomView)
    requires
        a.name == b.name,
        a.user_permissions == b.user_permissions,
        a.group_permissions == b.group_permissions,
    ensures
        filled(template, a) == filled(template, b),
{
}

/// There is one filled template for each room, in the order of the rooms.
pub proof fn law_one_text_per_room(template: Seq<char>, rooms: Seq<RoomView>, i: int)
    requires
        0 <= i < rooms.len(),
    ensures
        all_filled(template, rooms).len() == rooms.len(),
        all_filled(template, rooms)[i] == filled(template, rooms[i]),
{
}

/// Filled templates give all their rooms, in order, where each could be read.
/// Otherwise the first one that could not be read gives its error.
pub proof fn law_first_unread_text_decides(parsed: Seq<Result<Room, String>>, n: int)
    ensures
        (forall|i: int| 0 <= i < parsed.len() ==> (#[trigger] parsed[i]) is Ok) ==> {
            &&& collected(parsed) is Ok
            &&& collected(parsed)->Ok_0.len() == parsed.len()
            &&& 0 <= n < parsed.len() ==> collected(parsed)->Ok_0[n] == parsed[n]->Ok_0@
        },
        0 <= n < parsed.len() && parsed[n] is Err && (forall|i: int|
            0 <= i < n ==> (#[trigger] parsed[i]) is Ok) ==> collected(parsed) == Err::<
            Seq<RoomView>,
            ErrorView,
        >(
            ErrorView::JsonParseTemplate(
                "Failed to deserialize JSON template: "@ + parsed[n]->Err_0@,
            ),
        ),
    decreases parsed.len(),
{
    if parsed.len() > 0 {
        let front = parsed.drop_last();
        law_first_unread_text_decides(front, n);
        if forall|i: int| 0 <= i < parsed.len() ==> (#[trigger] parsed[i]) is Ok {
            assert forall|i: int| 0 <= i < front.len() implies (#[trigger] front[i]) is Ok by {
                assert(front[i] == parsed[i]);
            }
            assert(parsed[parsed.len() - 1] is Ok);
        }
        if 0 <= n < parsed.len() && parsed[n] is Err && (forall|i: int|
            0 <= i < n ==> (#[trigger] parsed[i]) is Ok) {
            assert forall|i: int| 0 <= i < n implies (#[trigger] front[i]) is Ok by {
                assert(front[i] == parsed[i]);
            }
            if n < front.len() {
                assert(front[n] == parsed[n]);
            } else {
                assert forall|i: int| 0 <= i < front.len() implies (#[trigger] front[i]) is Ok by {
                    assert(front[i] == parsed[i]);
                }
            }
        }
    }
}

/// The values of a record are known by the titles of their columns. Of columns
/// with the same title the last one counts that the record has a value in.
pub proof fn law_values_by_title(
    headers: Seq<Seq<char>>,
    record: Seq<Seq<char>>,
    title: Seq<char>,
    k: int,
)
    ensures
        ({
            let values = record_texts(headers, record, headers.len() as int);
            &&& is_last_value(headers, record, title, k) ==> values.contains_key(title)
                && values[title] == record[k]
            &&& (forall|j: int| !is_value_at(headers, record, title, j)) ==> !values.contains_key(
                title,
            )
        }),
{
    if is_last_value(headers, record, title, k) {
        lemma_last_value(headers, record, title, k, headers.len() as int);
    }
    if forall|j: int| !is_value_at(headers, record, title, j) {
        lemma_no_value(headers, record, title, headers.len() as int);
    }
}

/// Whether a record has a value in a column with a title.
pub open spec fn is_value_at(
    headers: Seq<Seq<char>>,
    record: Seq<Seq<char>>,
    title: Seq<char>,
    j: int,
) -> bool {
    0 <= j < headers.len() && j < record.len() && headers[j] == title
}

/// Whether a column is the last one with a title that a record has a value in.
pub open spec fn is_last_value(
    headers: Seq<Seq<char>>,
    record: Seq<Seq<char>>,
    title: Seq<char>,
    k: int,
) -> bool {
    is_value_at(headers, record, title, k) && forall|j: int|
        k < j ==> !is_value_at(headers, record, title, j)
}

proof fn lemma_last_value(
    headers: Seq<Seq<char>>,
    record: Seq<Seq<char>>,
    title: Seq<char>,
    k: int,
    n: int,
)
    requires
        is_last_value(headers, record, title, k),
        k < n <= headers.len(),
    ensures
        record_texts(headers, record, n).contains_key(title),
        record_texts(headers, record, n)[title] == record[k],
    decreases n,
{
    if n - 1 > k {
        lemma_last_value(headers, record, title, k, n - 1);
        assert(!is_value_at(headers, record, title, n - 1));
    }
}

proof fn lemma_no_value(
    headers: Seq<Seq<char>>,
    record: Seq<Seq<char>>,
    title: Seq<char>,
    n: int,
)
    requires
        n <= headers.len(),
        forall|j: int| !is_value_at(headers, record, title, j),
    ensures
        !record_texts(headers, record, n).contains_key(title),
    decreases n,
{
    if n > 0 {
        lemma_no_value(headers, record, title, n - 1);
        assert(!is_value_at(headers, record, title, n - 1));
    }
}

/// A template is rendered once with each row of a file, in the order of the rows
/// and with escaped values. All texts are there, or none where one row could not
/// be rendered.
pub proof fn law_one_rendering_per_row(
    template: Seq<char>,
    headers: Seq<Seq<char>>,
    rows: Seq<Seq<Seq<char>>>,
    i: int,
)
    requires
        0 <= i < rows.len(),
    ensures
        ({
            let values = file_texts(Ok(headers), Ok(rows))->0;
            let rendered = renderings(template, values);
            &&& file_texts(Ok(headers), Ok(rows)) is Some
            &&& values.len() == rows.len()
            &&& values[i] == record_texts(headers, rows[i], headers.len() as int)
            &&& rendered.len() == rows.len()
            &&& rendered[i] == rendered_template(template, values[i], true)
            &&& all_rendered(rendered) is Some <==> (forall|j: int|
                0 <= j < rows.len() ==> (#[trigger] rendered[j]) is Ok)
            &&& all_rendered(rendered) matches Some(texts) ==> texts.len() == rows.len()
                && texts[i] == rendered[i]->Ok_0
        }),
{
}

/// A file whose first row or another row cannot be read gives no values.
pub proof fn law_unread_file_gives_nothing(
    fields: Result<Seq<Seq<char>>, Seq<char>>,
    records: Result<Seq<Seq<Seq<char>>>, Seq<char>>,
)
    ensures
        fields is Err || records is Err <==> file_texts(fields, records) is None,
{
}

/// An outcome shows a text, or the error.
pub proof fn law_text_outcome_shows_all(result: Result<String, DcCmdError>)
    ensures
        result is Ok <==> text_outcome(result) is Ok,
        result matches Ok(text) ==> text_outcome(result)->Ok_0 == text@,
        result matches Err(error) ==> text_outcome(result)->Err_0 == error@,
{
}

/// An outcome shows all rooms, or the error.
pub proof fn law_rooms_outcome_shows_all(result: Result<Vec<Room>, DcCmdError>, i: int)
    ensures
        result is Ok <==> rooms_outcome(result) is Ok,
        result matches Ok(rooms) ==> rooms_outcome(result)->Ok_0.len() == rooms@.len(),
        result matches Ok(rooms) ==> 0 <= i < rooms@.len() ==> rooms_outcome(result)->Ok_0[i]
            == rooms@[i]@,
        result matches Err(error) ==> rooms_outcome(result)->Err_0 == error@,
{
}

/// Optional texts are seen one by one, in their order, and so are rendered ones
/// and the values to render with.
pub proof fn law_lists_keep_order(
    list: Vec<String>,
    rendered: Seq<Result<String, String>>,
    contexts: Vec<TextContext>,
    i: int,
)
    ensures
        optional_texts(None) is None,
        optional_texts(Some(list)) is Some,
        optional_texts(Some(list))->0.len() == list@.len(),
        0 <= i < list@.len() ==> optional_texts(Some(list))->0[i] == list@[i]@,
        rendered_views(rendered).len() == rendered.len(),
        0 <= i < rendered.len() ==> (match rendered[i] {
            Ok(text) => rendered_views(rendered)[i] == Ok::<Seq<char>, Seq<char>>(text@),
            Err(message) => rendered_views(rendered)[i] == Err::<Seq<char>, Seq<char>>(message@),
        }),
        contexts_view(None) is None,
        contexts_view(Some(contexts)) is Some,
        contexts_view(Some(contexts))->0.len() == contexts@.len(),
        0 <= i < contexts@.len() ==> contexts_view(Some(contexts))->0[i] == contexts@[i]@,
{
}

}
