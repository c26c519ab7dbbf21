//! The rooms that the rows of a CSV file describe.
use vstd::prelude::*;
use crate::crates::{
    csv_header_fields, csv_headers, csv_records, csv_rows, fields_view, json_permissions,
    parsed_permissions, permissions_from_json, rows_view, table,
};
use crate::models::{DcCmdError, ErrorView};
use crate::nodes::ids::elements;
use crate::nodes::import::template::{read_columns, token_column_error, HeaderIndexes};
use crate::nodes::models::{
    distinct_names, lemma_sub_rooms_view, named_room, names, position_by_name, rooms_view,
    GroupMemberAcceptance, GroupRoomPermission, NodePermissions, Room, RoomImport, RoomView,
    UserRoomPermission,
};
use crate::text::{
    first_position, join2, lemma_first_position, lemma_first_position_is, parse_u64, parsed_u64,
    same_text, texts,
};

verus! {

// ---------------------------------------------------------------- rows

/// What a row of a CSV file says: the name of a room, and a user and a group
/// with permissions in it.
pub struct CsvRow {
    pub name: String,
    pub user: Option<UserRoomPermission>,
    pub group: Option<GroupRoomPermission>,
}

/// A row with its name as a sequence of characters.
pub struct RowView {
    pub name: Seq<char>,
    pub user: Option<UserRoomPermission>,
    pub group: Option<GroupRoomPermission>,
}

impl View for CsvRow {
    type V = RowView;

    open spec fn view(&self) -> RowView {
        RowView { name: self.name@, user: self.user, group: self.group }
    }
}

/// The field of a record in a column, where both are there.
pub open spec fn field(record: Seq<Seq<char>>, index: Option<usize>) -> Option<Seq<char>> {
    match index {
        Some(i) => if i < record.len() {
            Some(record[i as int])
        } else {
            None
        },
        None => None,
    }
}

/// What becomes of new members of a group, as a CSV file says it.
pub open spec fn parsed_acceptance(text: Seq<char>) -> Option<GroupMemberAcceptance> {
    if text == "autoallow"@ {
        Some(GroupMemberAcceptance::AutoAllow)
    } else if text == "pending"@ {
        Some(GroupMemberAcceptance::Pending)
    } else {
        None
    }
}

/// The number in a column.
pub open spec fn number_field(record: Seq<Seq<char>>, index: Option<usize>) -> Option<u64> {
    match field(record, index) {
        Some(text) => parsed_u64(text),
        None => None,
    }
}

/// The permissions in a column.
pub open spec fn permissions_field(record: Seq<Seq<char>>, index: Option<usize>) -> Option<
    NodePermissions,
> {
    match field(record, index) {
        Some(text) => parsed_permissions(text),
        None => None,
    }
}

/// What becomes of new members, in a column.
pub open spec fn acceptance_field(record: Seq<Seq<char>>, index: Option<usize>) -> Option<
    GroupMemberAcceptance,
> {
    match field(record, index) {
        Some(text) => parsed_acceptance(text),
        None => None,
    }
}

/// What a record says of a user: nothing unless both the id and the
/// permissions can be read.
pub open spec fn user_of(id: Option<u64>, permissions: Option<NodePermissions>) -> Option<
    UserRoomPermission,
> {
    match (id, permissions) {
        (Some(id), Some(permissions)) => Some(UserRoomPermission { id, permissions }),
        _ => None,
    }
}

/// What a record says of a group: nothing unless both the id and the
/// permissions can be read.
pub open spec fn group_of(
    id: Option<u64>,
    new_group_member_acceptance: Option<GroupMemberAcceptance>,
    permissions: Option<NodePermissions>,
) -> Option<GroupRoomPermission> {
    match (id, permissions) {
        (Some(id), Some(permissions)) => Some(
            GroupRoomPermission { id, new_group_member_acceptance, permissions },
        ),
        _ => None,
    }
}

/// What a record says.
pub open spec fn row_of(record: Seq<Seq<char>>, columns: HeaderIndexes) -> RowView {
    RowView {
        name: match field(record, columns.name_index) {
            Some(name) => name,
            None => Seq::empty(),
        },
        user: user_of(
            number_field(record, columns.user_id_index),
            permissions_field(record, columns.user_permissions_index),
        ),
        group: group_of(
            number_field(record, columns.group_id_index),
            acceptance_field(record, columns.new_group_member_acceptance_index),
            permissions_field(record, columns.group_permissions_index),
        ),
    }
}

/// What all records of a table say.
pub open spec fn rows_of(records: Seq<Seq<Seq<char>>>, columns: HeaderIndexes) -> Seq<RowView> {
    records.map_values(|record: Seq<Seq<char>>| row_of(record, columns))
}

/// The field of a record in a column.
fn get_field(record: &Vec<String>, index: Option<usize>) -> (text: Option<&String>)
    ensures
        match text {
            Some(s) => field(texts(record@), index) == Some(s@),
            None => field(texts(record@), index) is None,
        },
{
    match index {
        Some(i) => if i < record.len() {
            assert(texts(record@)[i as int] == record@[i as int]@);
            Some(&record[i])
        } else {
            None
        },
        None => None,
    }
}

fn get_number(record: &Vec<String>, index: Option<usize>) -> (number: Option<u64>)
    ensures
        number == number_field(texts(record@), index),
{
    match get_field(record, index) {
        Some(text) => parse_u64(text.as_str()),
        None => None,
    }
}

fn get_permissions(record: &Vec<String>, index: Option<usize>) -> (permissions: Option<
    NodePermissions,
>)
    ensures
        permissions == permissions_field(texts(record@), index),
        forall|p: NodePermissions|
            field(texts(record@), index) == Some(#[trigger] json_permissions(p)) ==> permissions
                == Some(p),
{
    match get_field(record, index) {
        Some(text) => permissions_from_json(text.as_str()),
        None => None,
    }
}

impl CsvRow {
    /// The row with a name, and with a user and a group where all of theirs
    /// could be read.
    pub fn new(
        name: String,
        user_id: Option<u64>,
        user_permissions: Option<NodePermissions>,
        group_id: Option<u64>,
        new_group_member_acceptance: Option<GroupMemberAcceptance>,
        group_permissions: Option<NodePermissions>,
    ) -> (row: CsvRow)
        ensures
            row@ == (RowView {
                name: name@,
                user: user_of(user_id, user_permissions),
                group: group_of(group_id, new_group_member_acceptance, group_permissions),
            }),
    {
        let user = match (user_id, user_permissions) {
            (Some(id), Some(permissions)) => Some(UserRoomPermission { id, permissions }),
            _ => None,
        };
        let group = match (group_id, group_permissions) {
            (Some(id), Some(permissions)) => Some(
                GroupRoomPermission { id, new_group_member_acceptance, permissions },
            ),
            _ => None,
        };
        CsvRow { name, user, group }
    }

    /// What a record says. Permissions that were written as JSON are read back.
    pub fn from_record(record: &Vec<String>, columns: &HeaderIndexes) -> (row: CsvRow)
        ensures
            row@ == row_of(texts(record@), *columns),
            forall|p: NodePermissions|
                field(texts(record@), columns.user_permissions_index) == Some(
                    #[trigger] json_permissions(p),
                ) ==> row@.user == user_of(
                    number_field(texts(record@), columns.user_id_index),
                    Some(p),
                ),
            forall|p: NodePermissions|
                field(texts(record@), columns.group_permissions_index) == Some(
                    #[trigger] json_permissions(p),
                ) ==> row@.group == group_of(
                    number_field(texts(record@), columns.group_id_index),
                    acceptance_field(texts(record@), columns.new_group_member_acceptance_index),
                    Some(p),
                ),
    {
        let name = match get_field(record, columns.name_index) {
            Some(text) => text.clone(),
            None => String::new(),
        };
        let acceptance = match get_field(record, columns.new_group_member_acceptance_index) {
            Some(text) => RoomImport::parse_group_member_acceptance(text.as_str()),
            None => None,
        };
        CsvRow::new(
            name,
            get_number(record, columns.user_id_index),
            get_permissions(record, columns.user_permissions_index),
            get_number(record, columns.group_id_index),
            acceptance,
            get_permissions(record, columns.group_permissions_index),
        )
    }
}

impl RoomImport {
    /// What becomes of new members of a group, as a CSV file says it.
    pub fn parse_group_member_acceptance(field: &str) -> (acceptance: Option<
        GroupMemberAcceptance,
    >)
        ensures
            acceptance == parsed_acceptance(field@),
    {
        if same_text(field, "autoallow") {
            Some(GroupMemberAcceptance::AutoAllow)
        } else if same_text(field, "pending") {
            Some(GroupMemberAcceptance::Pending)
        } else {
            None
        }
    }
}

// ---------------------------------------------------------------- rooms

/// A list with one more element at its end, where there is one.
pub open spec fn with_element<T>(list: Option<Seq<T>>, element: Option<T>) -> Option<Seq<T>> {
    match element {
        Some(e) => Some(elements(list).push(e)),
        None => list,
    }
}

/// A room with the user and the group of a row.
pub open spec fn room_with_row(room: RoomView, row: RowView) -> RoomView {
    RoomView {
        user_permissions: with_element(room.user_permissions, row.user),
        group_permissions: with_element(room.group_permissions, row.group),
        ..room
    }
}

/// Rooms with one more row: it goes to the room with its name, which is made
/// where there is none yet.
pub open spec fn with_row(rooms: Seq<RoomView>, row: RowView) -> Seq<RoomView> {
    match first_position(names(rooms), row.name) {
        Some(i) => rooms.update(i, room_with_row(rooms[i], row)),
        None => rooms.push(room_with_row(named_room(row.name), row)),
    }
}

/// The rooms that rows describe, in the order in which they are first named.
pub open spec fn described_rooms(rows: Seq<RowView>) -> Seq<RoomView>
    decreases rows.len(),
{
    if rows.len() == 0 {
        Seq::empty()
    } else {
        with_row(described_rooms(rows.drop_last()), rows.last())
    }
}

/// The users in the rows with a name, in order.
pub open spec fn users_named(rows: Seq<RowView>, name: Seq<char>) -> Option<Seq<UserRoomPermission>>
    decreases rows.len(),
{
    if rows.len() == 0 {
        None
    } else if rows.last().name == name {
        with_element(users_named(rows.drop_last(), name), rows.last().user)
    } else {
        users_named(rows.drop_last(), name)
    }
}

/// The groups in the rows with a name, in order.
pub open spec fn groups_named(rows: Seq<RowView>, name: Seq<char>) -> Option<
    Seq<GroupRoomPermission>,
>
    decreases rows.len(),
{
    if rows.len() == 0 {
        None
    } else if rows.last().name == name {
        with_element(groups_named(rows.drop_last(), name), rows.last().group)
    } else {
        groups_named(rows.drop_last(), name)
    }
}

/// Whether a row has a name.
pub open spec fn is_named(rows: Seq<RowView>, name: Seq<char>) -> bool {
    exists|i: int| 0 <= i < rows.len() && (#[trigger] rows[i]).name == name
}

/// The room with a name that rows describe.
pub open spec fn room_of_name(rows: Seq<RowView>, name: Seq<char>) -> RoomView {
    RoomView {
        user_permissions: users_named(rows, name),
        group_permissions: groups_named(rows, name),
        ..named_room(name)
    }
}

/// Rows describe one room for each name in them. It holds the users and the
/// groups of exactly the rows with that name, in the order of the rows, and
/// nothing else.
pub proof fn law_one_room_per_name(rows: Seq<RowView>)
    ensures
        distinct_names(described_rooms(rows)),
        forall|i: int|
            0 <= i < described_rooms(rows).len() ==> #[trigger] described_rooms(rows)[i]
                == room_of_name(rows, described_rooms(rows)[i].name),
        forall|name: Seq<char>|
            names(described_rooms(rows)).contains(name) <==> #[trigger] is_named(rows, name),
    decreases rows.len(),
{
    let rooms = described_rooms(rows);
    if rows.len() == 0 {
        assert forall|name: Seq<char>| names(rooms).contains(name) <==> #[trigger] is_named(
            rows,
            name,
        ) by {}
    } else {
        let front = rows.drop_last();
        let row = rows.last();
        let before = described_rooms(front);
        law_one_room_per_name(front);
        lemma_first_position(names(before), row.name);
        let place = first_position(names(before), row.name);
        assert forall|i: int| 0 <= i < before.len() implies names(before)[i] == (
        #[trigger] before[i]).name by {}
        if place is None {
            lemma_unnamed(front, row.name);
            assert(!is_named(front, row.name));
            assert forall|i: int| 0 <= i < before.len() implies (#[trigger] before[i]).name
                != row.name by {
                assert(names(before)[i] == before[i].name);
                assert(names(before).contains(before[i].name));
            }
        }
        assert forall|i: int| 0 <= i < rooms.len() implies #[trigger] rooms[i] == room_of_name(
            rows,
            rooms[i].name,
        ) by {
            if i < before.len() {
                assert(before[i] == room_of_name(front, before[i].name));
                assert(rooms[i].name == before[i].name);
            }
        }
        assert forall|name: Seq<char>| names(rooms).contains(name) <==> #[trigger] is_named(
            rows,
            name,
        ) by {
            assert(is_named(front, name) <==> names(before).contains(name));
            if is_named(rows, name) {
                let k = choose|k: int| 0 <= k < rows.len() && (#[trigger] rows[k]).name == name;
                if k < front.len() {
                    assert(front[k].name == name);
                    let i = choose|i: int| 0 <= i < names(before).len() && names(before)[i] == name;
                    assert(names(rooms)[i] == name);
                } else if place is Some {
                    assert(names(rooms)[place->0] == name);
                } else {
                    assert(names(rooms)[before.len() as int] == name);
                }
            }
            if names(rooms).contains(name) {
                let i = choose|i: int| 0 <= i < names(rooms).len() && names(rooms)[i] == name;
                if i < before.len() {
                    assert(names(before)[i] == name);
                    let k = choose|k: int|
                        0 <= k < front.len() && (#[trigger] front[k]).name == name;
                    assert(rows[k].name == name);
                } else {
                    assert(rows[rows.len() - 1].name == name);
                }
            }
        }
    }
}

proof fn lemma_unnamed(rows: Seq<RowView>, name: Seq<char>)
    ensures
        !is_named(rows, name) ==> users_named(rows, name) is None && groups_named(
            rows,
            name,
        ) is None,
    decreases rows.len(),
{
    if rows.len() > 0 {
        let front = rows.drop_last();
        lemma_unnamed(front, name);
        if is_named(front, name) {
            let k = choose|k: int| 0 <= k < front.len() && (#[trigger] front[k]).name == name;
            assert(rows[k].name == name);
        }
        if rows.last().name == name {
            assert(rows[rows.len() - 1].name == name);
        }
    }
}

/// Rooms by their names, in the order in which they came in.
#[derive(Debug)]
pub struct RoomMap {
    rooms: Vec<Room>,
}

impl View for RoomMap {
    type V = Seq<RoomView>;

    closed spec fn view(&self) -> Seq<RoomView> {
        rooms_view(self.rooms@)
    }
}

/// Adds the user and the group of a row to a room.
fn extend_room(room: &mut Room, row: &CsvRow)
    ensures
        final(room)@ == room_with_row(old(room)@, row@),
{
    broadcast use lemma_sub_rooms_view;

    let ghost before = room@;
    if let Some(user) = row.user {
        let mut users = match room.user_permissions.take() {
            Some(users) => users,
            None => Vec::new(),
        };
        users.push(user);
        room.user_permissions = Some(users);
    }
    if let Some(group) = row.group {
        let mut groups = match room.group_permissions.take() {
            Some(groups) => groups,
            None => Vec::new(),
        };
        groups.push(group);
        room.group_permissions = Some(groups);
    }
    assert(room@.sub_rooms == before.sub_rooms);
    assert(room@.user_permissions == with_element(before.user_permissions, row@.user));
    assert(room@.group_permissions == with_element(before.group_permissions, row@.group));
}

impl RoomMap {
    /// Whether no two rooms have the same name.
    pub open spec fn well_formed(&self) -> bool {
        distinct_names(self@)
    }

    /// No rooms.
    pub fn new() -> (map: RoomMap)
        ensures
            map@ == Seq::<RoomView>::empty(),
            map.well_formed(),
    {
        let map = RoomMap { rooms: Vec::new() };
        assert(map@ =~= Seq::<RoomView>::empty());
        map
    }

    /// The room with a name.
    pub fn get(&self, name: &str) -> (room: Option<&Room>)
        ensures
            match room {
                Some(room) => self@.contains(room@) && room@.name == name@,
                None => !names(self@).contains(name@),
            },
    {
        proof {
            lemma_first_position(names(self@), name@);
        }
        match position_by_name(&self.rooms, name) {
            Some(i) => {
                assert(self@[i as int] == self.rooms@[i as int]@);
                assert(names(self@)[i as int] == self@[i as int].name);
                Some(&self.rooms[i])
            },
            None => None,
        }
    }

    /// All rooms.
    pub fn rooms(&self) -> (rooms: &Vec<Room>)
        ensures
            rooms_view(rooms@) == self@,
    {
        &self.rooms
    }

    /// Adds a row: its user and its group go to the room with its name, which
    /// is made where there is none yet.
    pub fn add_row(&mut self, row: CsvRow)
        requires
            old(self).well_formed(),
        ensures
            final(self)@ == with_row(old(self)@, row@),
            final(self).well_formed(),
    {
        let ghost before = self@;
        proof {
            lemma_first_position(names(before), row@.name);
            assert forall|i: int| 0 <= i < before.len() implies names(before)[i] == (
            #[trigger] before[i]).name by {}
        }
        match position_by_name(&self.rooms, row.name.as_str()) {
            Some(i) => {
                extend_room(&mut self.rooms[i], &row);
                assert(self@ =~= before.update(i as int, room_with_row(before[i as int], row@)));
            },
            None => {
                let mut room = Room::default();
                room.name = row.name.clone();
                assert(room@ == named_room(row@.name));
                extend_room(&mut room, &row);
                self.rooms.push(room);
                assert(self@ =~= before.push(room_with_row(named_room(row@.name), row@)));
                assert forall|i: int| 0 <= i < before.len() implies (#[trigger] before[i]).name
                    != row@.name by {
                    assert(names(before)[i] == before[i].name);
                    assert(names(before).contains(before[i].name));
                }
            },
        }
    }
}

// ---------------------------------------------------------------- files

/// Rooms, or an error.
pub open spec fn map_outcome(result: Result<RoomMap, DcCmdError>) -> Result<
    Seq<RoomView>,
    ErrorView,
> {
    match result {
        Ok(map) => Ok(map@),
        Err(error) => Err(error@),
    }
}

/// The rooms that a CSV file describes, from what reading its first row and its
/// other rows gave, for a template with these tokens.
pub open spec fn rooms_of_file(
    fields: Result<Seq<Seq<char>>, Seq<char>>,
    records: Result<Seq<Seq<Seq<char>>>, Seq<char>>,
    tokens: Seq<Seq<char>>,
) -> Result<Seq<RoomView>, ErrorView> {
    match read_columns(fields) {
        Err(error) => Err(error),
        Ok(columns) => match token_column_error(columns, tokens) {
            Some(error) => Err(error),
            None => match records {
                Err(message) => Err(
                    ErrorView::CsvReadRecord("Failed to read CSV record: "@ + message),
                ),
                Ok(table) => Ok(described_rooms(rows_of(table, columns))),
            },
        },
    }
}

impl RoomImport {
    /// The rooms that a CSV file describes, for a template with these tokens.
    pub fn read_file_and_construct_room_map(
        data: &Vec<u8>,
        tokens: Vec<String>,
    ) -> (result: Result<RoomMap, DcCmdError>)
        ensures
            map_outcome(result) == rooms_of_file(
                csv_header_fields(data@),
                csv_rows(data@),
                texts(tokens@),
            ),
            result matches Ok(map) ==> map.well_formed(),
    {
        Self::construct_room_map(csv_headers(data), csv_records(data), tokens)
    }

    /// The rooms that a CSV file describes, from what reading its first row and
    /// its other rows gave.
    pub fn construct_room_map(
        fields: Result<Vec<String>, String>,
        records: Result<Vec<Vec<String>>, String>,
        tokens: Vec<String>,
    ) -> (result: Result<RoomMap, DcCmdError>)
        ensures
            map_outcome(result) == rooms_of_file(
                fields_view(fields),
                rows_view(records),
                texts(tokens@),
            ),
            result matches Ok(map) ==> map.well_formed(),
    {
        let columns = match Self::find_header_indexes(fields) {
            Ok(columns) => columns,
            Err(error) => {
                return Err(error);
            },
        };
        match Self::validate_tokens_against_headers(&columns, &tokens) {
            Ok(_) => {},
            Err(error) => {
                return Err(error);
            },
        }
        let rows = match records {
            Ok(rows) => rows,
            Err(message) => {
                return Err(
                    DcCmdError::CsvReadRecord(
                        join2("Failed to read CSV record: ", message.as_str()),
                    ),
                );
            },
        };
        let ghost said = rows_of(table(rows@), columns);
        let mut map = RoomMap::new();
        let mut i: usize = 0;
        assert(described_rooms(said.take(0)) =~= Seq::<RoomView>::empty());
        while i < rows.len()
            invariant
                i <= rows.len(),
                said == rows_of(table(rows@), columns),
                map.well_formed(),
                map@ == described_rooms(said.take(i as int)),
            decreases rows.len() - i,
        {
            let row = CsvRow::from_record(&rows[i], &columns);
            proof {
                assert(table(rows@)[i as int] == texts(rows@[i as int]@));
                assert(said[i as int] == row@);
                assert(said.take(i + 1).drop_last() =~= said.take(i as int));
            }
            map.add_row(row);
            i += 1;
        }
        assert(said.len() == rows@.len());
        assert(said.take(i as int) =~= said);
        Ok(map)
    }
}

// ---------------------------------------------------------------- laws

/// The field of a record in a column is the one at that position; where the
/// record is shorter, or there is no such column, there is no field.
pub proof fn law_fields_by_position(record: Seq<Seq<char>>, i: usize)
    ensures
        i < record.len() ==> field(record, Some(i)) == Some(record[i as int]),
        i >= record.len() ==> field(record, Some(i)) is None,
        field(record, None) is None,
{
}

/// Two words say what becomes of new group members; all other texts say nothing.
pub proof fn law_words_of_acceptance(text: Seq<char>)
    ensures
        parsed_acceptance("autoallow"@) == Some(GroupMemberAcceptance::AutoAllow),
        parsed_acceptance("pending"@) == Some(GroupMemberAcceptance::Pending),
        text != "autoallow"@ && text != "pending"@ ==> parsed_acceptance(text) is None,
{
    reveal_strlit("autoallow");
    reveal_strlit("pending");
    assert("autoallow"@.len() != "pending"@.len());
}

/// A row names the room in the column for names. It has a user exactly if the
/// column for user ids holds a number and that for user permissions holds
/// permissions; the user then has that id and all of these permissions.
pub proof fn law_user_of_row(record: Seq<Seq<char>>, columns: HeaderIndexes)
    ensures
        ({
            let row = row_of(record, columns);
            let id = field(record, columns.user_id_index);
            let permissions = field(record, columns.user_permissions_index);
            &&& field(record, columns.name_index) matches Some(name) ==> row.name == name
            &&& field(record, columns.name_index) is None ==> row.name.len() == 0
            &&& row.user is Some <==> id is Some && parsed_u64(id->0) is Some && permissions is Some
                && parsed_permissions(permissions->0) is Some
            &&& row.user is Some ==> row.user->0.id == parsed_u64(id->0)->0
                && row.user->0.permissions == parsed_permissions(permissions->0)->0
        }),
{
}

/// A row has a group exactly if the column for group ids holds a number and that
/// for group permissions holds permissions; the group then has that id, all of
/// these permissions, and the acceptance in its column, or none where that column
/// says nothing.
pub proof fn law_group_of_row(record: Seq<Seq<char>>, columns: HeaderIndexes)
    ensures
        ({
            let row = row_of(record, columns);
            let id = field(record, columns.group_id_index);
            let acceptance = field(record, columns.new_group_member_acceptance_index);
            let permissions = field(record, columns.group_permissions_index);
            &&& row.group is Some <==> id is Some && parsed_u64(id->0) is Some
                && permissions is Some && parsed_permissions(permissions->0) is Some
            &&& row.group is Some ==> row.group->0.id == parsed_u64(id->0)->0
                && row.group->0.permissions == parsed_permissions(permissions->0)->0
            &&& row.group is Some && acceptance is Some
                ==> row.group->0.new_group_member_acceptance == parsed_acceptance(acceptance->0)
            &&& row.group is Some && acceptance is None
                ==> row.group->0.new_group_member_acceptance is None
        }),
{
}

/// Records say one row each, in their order.
pub proof fn law_one_row_per_record(
    records: Seq<Seq<Seq<char>>>,
    columns: HeaderIndexes,
    i: int,
)
    requires
        0 <= i < records.len(),
    ensures
        rows_of(records, columns).len() == records.len(),
        rows_of(records, columns)[i] == row_of(records[i], columns),
{
}

/// One more row adds its user and its group to the room with its name, each
/// behind those that are there. A room that is named for the first time comes
/// behind all others. Nothing else changes.
pub proof fn law_one_more_row(rows: Seq<RowView>, row: RowView, i: int)
    ensures
        described_rooms(Seq::empty()).len() == 0,
        ({
            let before = described_rooms(rows);
            let after = described_rooms(rows.push(row));
            &&& 0 <= i < before.len() && before[i].name == row.name ==> after == before.update(
                i,
                RoomView {
                    user_permissions: one_more(before[i].user_permissions, row.user),
                    group_permissions: one_more(before[i].group_permissions, row.group),
                    ..before[i]
                },
            )
            &&& (forall|j: int| 0 <= j < before.len() ==> (#[trigger] before[j]).name != row.name)
                ==> after == before.push(
                RoomView {
                    user_permissions: one_more(None, row.user),
                    group_permissions: one_more(None, row.group),
                    ..named_room(row.name)
                },
            )
        }),
{
    let before = described_rooms(rows);
    assert(rows.push(row).drop_last() =~= rows);
    assert(rows.push(row).last() == row);
    law_one_room_per_name(rows);
    lemma_first_position(names(before), row.name);
    assert forall|j: int| 0 <= j < before.len() implies names(before)[j] == (
    #[trigger] before[j]).name by {}
    match first_position(names(before), row.name) {
        Some(k) => {
            assert(before[k].name == row.name);
            if 0 <= i < before.len() && before[i].name == row.name {
                if i < k {
                    assert(before[i].name != before[k].name);
                } else if k < i {
                    assert(before[k].name != before[i].name);
                }
            }
        },
        None => {
            if 0 <= i < before.len() && before[i].name == row.name {
                assert(names(before)[i] == row.name);
                assert(names(before).contains(row.name));
            }
        },
    }
}

/// An optional list with one more element, if there is one.
pub open spec fn one_more<T>(list: Option<Seq<T>>, element: Option<T>) -> Option<Seq<T>> {
    match (list, element) {
        (Some(list), Some(element)) => Some(list.push(element)),
        (None, Some(element)) => Some(seq![element]),
        (list, None) => list,
    }
}

proof fn lemma_named_entries(rows: Seq<RowView>, name: Seq<char>)
    ensures
        elements(users_named(rows, name)) == rows.filter(
            |row: RowView| row.name == name && row.user is Some,
        ).map_values(|row: RowView| row.user->0),
        users_named(rows, name) is Some <==> elements(users_named(rows, name)).len() > 0,
        elements(groups_named(rows, name)) == rows.filter(
            |row: RowView| row.name == name && row.group is Some,
        ).map_values(|row: RowView| row.group->0),
        groups_named(rows, name) is Some <==> elements(groups_named(rows, name)).len() > 0,
    decreases rows.len(),
{
    reveal(Seq::filter);
    let has_user = |row: RowView| row.name == name && row.user is Some;
    let has_group = |row: RowView| row.name == name && row.group is Some;
    let user = |row: RowView| row.user->0;
    let group = |row: RowView| row.group->0;
    if rows.len() > 0 {
        lemma_named_entries(rows.drop_last(), name);
    }
    assert(elements(users_named(rows, name)) =~= rows.filter(has_user).map_values(user));
    assert(elements(groups_named(rows, name)) =~= rows.filter(has_group).map_values(group));
}

/// A room that rows describe has the users of all rows with its name, and the
/// groups of all these rows, in the order of the rows. It has no list where there
/// is none of these, and it says nothing else.
pub proof fn law_rooms_hold_their_rows(rows: Seq<RowView>, i: int)
    requires
        0 <= i < described_rooms(rows).len(),
    ensures
        ({
            let room = described_rooms(rows)[i];
            let users = rows.filter(
                |row: RowView| row.name == room.name && row.user is Some,
            ).map_values(|row: RowView| row.user->0);
            let groups = rows.filter(
                |row: RowView| row.name == room.name && row.group is Some,
            ).map_values(|row: RowView| row.group->0);
            room == (RoomView {
                user_permissions: if users.len() > 0 {
                    Some(users)
                } else {
                    None
                },
                group_permissions: if groups.len() > 0 {
                    Some(groups)
                } else {
                    None
                },
                ..named_room(room.name)
            })
        }),
{
    let room = described_rooms(rows)[i];
    law_one_room_per_name(rows);
    assert(room == room_of_name(rows, room.name));
    lemma_named_entries(rows, room.name);
}

/// A file is refused for its columns before it is for the tokens of the template,
/// and for these before it is for a row that cannot be read. Otherwise all of its
/// rows count.
pub proof fn law_file_is_checked_first(
    fields: Result<Seq<Seq<char>>, Seq<char>>,
    records: Result<Seq<Seq<Seq<char>>>, Seq<char>>,
    tokens: Seq<Seq<char>>,
)
    ensures
        read_columns(fields) matches Err(error) ==> rooms_of_file(fields, records, tokens) == Err::<
            Seq<RoomView>,
            ErrorView,
        >(error),
        read_columns(fields) is Ok ==> {
            let columns = read_columns(fields)->Ok_0;
            let wrong = token_column_error(columns, tokens);
            &&& wrong is Some ==> rooms_of_file(fields, records, tokens) == Err::<
                Seq<RoomView>,
                ErrorView,
            >(wrong->0)
            &&& wrong is None && records is Err ==> rooms_of_file(fields, records, tokens) == Err::<
                Seq<RoomView>,
                ErrorView,
            >(ErrorView::CsvReadRecord("Failed to read CSV record: "@ + records->Err_0))
            &&& wrong is None && records is Ok ==> rooms_of_file(fields, records, tokens) == Ok::<
                Seq<RoomView>,
                ErrorView,
            >(described_rooms(rows_of(records->Ok_0, columns)))
        },
{
}

/// The view of a row shows all of it.
pub proof fn law_row_view_shows_all(row: CsvRow)
    ensures
        row@.name == row.name@,
        row@.user == row.user,
        row@.group == row.group,
{
}

/// An outcome shows the rooms of a map, or the error.
pub proof fn law_map_outcome_shows_all(result: Result<RoomMap, DcCmdError>)
    ensures
        result is Ok <==> map_outcome(result) is Ok,
        result matches Ok(map) ==> map_outcome(result)->Ok_0 == map@,
        result matches Err(error) ==> map_outcome(result)->Err_0 == error@,
{
}

/// A row adds its user and its group to the first room with its name, behind
/// those that are there, and changes nothing else of it and no other room. Where
/// no room has the name, one that has nothing else comes last.
pub proof fn law_row_goes_to_its_room(rooms: Seq<RoomView>, row: RowView, i: int)
    ensures
        0 <= i < rooms.len() && rooms[i].name == row.name && (forall|j: int|
            0 <= j < i ==> (#[trigger] rooms[j]).name != row.name) ==> with_row(rooms, row)
            == rooms.update(
            i,
            RoomView {
                user_permissions: one_more(rooms[i].user_permissions, row.user),
                group_permissions: one_more(rooms[i].group_permissions, row.group),
                ..rooms[i]
            },
        ),
        (forall|j: int| 0 <= j < rooms.len() ==> (#[trigger] rooms[j]).name != row.name)
            ==> with_row(rooms, row) == rooms.push(
            RoomView {
                user_permissions: one_more(None, row.user),
                group_permissions: one_more(None, row.group),
                ..named_room(row.name)
            },
        ),
{
    lemma_first_position(names(rooms), row.name);
    assert forall|j: int| 0 <= j < rooms.len() implies names(rooms)[j] == (
    #[trigger] rooms[j]).name by {}
    if 0 <= i < rooms.len() && rooms[i].name == row.name && (forall|j: int|
        0 <= j < i ==> (#[trigger] rooms[j]).name != row.name) {
        lemma_first_position_is(names(rooms), row.name, i);
        law_row_is_added(rooms[i], row);
    }
    law_row_is_added(named_room(row.name), row);
}

/// A room with a row has its user and its group, each behind those that are
/// there, and is otherwise the same.
pub proof fn law_row_is_added(room: RoomView, row: RowView)
    ensures
        room_with_row(room, row) == (RoomView {
            user_permissions: one_more(room.user_permissions, row.user),
            group_permissions: one_more(room.group_permissions, row.group),
            ..room
        }),
{
    match (room.user_permissions, row.user) {
        (None, Some(user)) => {
            assert(Seq::<UserRoomPermission>::empty().push(user) =~= seq![user]);
        },
        _ => {},
    }
    match (room.group_permissions, row.group) {
        (None, Some(group)) => {
            assert(Seq::<GroupRoomPermission>::empty().push(group) =~= seq![group]);
        },
        _ => {},
    }
}

}
