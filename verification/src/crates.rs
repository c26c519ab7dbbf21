//! Calls into other crates, and what the library relies on of each.
use itertools::Itertools;
use vstd::prelude::*;
use crate::nodes::import::plain::is_plain_template;
use crate::nodes::models::{
    GroupMemberAcceptance, GroupRoomPermission, NodePermissions, UserRoomPermission,
};
use crate::text::{decimal_text, stands_at, texts};

verus! {

// ---------------------------------------------------------------- regular expressions

/// Where the next `}}` stands, at a position or behind it, with no line break
/// before it.
pub open spec fn closing_braces(text: Seq<char>, from: int) -> Option<int>
    decreases text.len() - from,
{
    if from < 0 || from >= text.len() {
        None
    } else if stands_at(text, seq!['}', '}'], from) {
        Some(from)
    } else if text[from] == '\n' {
        None
    } else {
        closing_braces(text, from + 1)
    }
}

/// What stands between `{{` and the next `}}` on the same line, from left to
/// right, from a position on.
pub open spec fn braced_from(text: Seq<char>, from: int) -> Seq<Seq<char>>
    decreases text.len() - from,
{
    if from < 0 || from >= text.len() {
        Seq::empty()
    } else {
        proof {
            lemma_closing_braces(text, from + 2);
        }
        let end = closing_braces(text, from + 2);
        if stands_at(text, seq!['{', '{'], from) && end is Some {
            seq![text.subrange(from + 2, end->0)] + braced_from(text, end->0 + 2)
        } else {
            braced_from(text, from + 1)
        }
    }
}

/// Closing braces stand inside the text.
pub proof fn lemma_closing_braces(text: Seq<char>, from: int)
    ensures
        closing_braces(text, from) matches Some(end) ==> from <= end && end + 2 <= text.len(),
    decreases text.len() - from,
{
    if 0 <= from < text.len() {
        lemma_closing_braces(text, from + 1);
    }
}

/// What stands in double braces in a text.
pub open spec fn braced(text: Seq<char>) -> Seq<Seq<char>> {
    braced_from(text, 0)
}

/// The first groups of all matches that `Regex::captures_iter` of the crate
/// `regex` finds, from left to right. Stated for the one pattern in use, two
/// opening braces, as few characters as possible without a line break, and two
/// closing braces: each search starts behind the match before, and takes the
/// leftmost match there is.
#[verifier::external_body]
pub(crate) fn first_groups(pattern: &str, text: &str) -> (groups: Vec<String>)
    requires
        pattern@ == r"\{\{(.*?)\}\}"@,
    ensures
        texts(groups@) == braced(text@),
{
    let expression = regex::Regex::new(pattern).unwrap();
    expression.captures_iter(text).map(|found| found[1].to_string()).collect()
}

// ---------------------------------------------------------------- CSV

/// The fields of the first row of a CSV file, or the message of the error.
pub uninterp spec fn csv_header_fields(data: Seq<u8>) -> Result<Seq<Seq<char>>, Seq<char>>;

/// The rows of a CSV file behind the first, or the message of the first error.
pub uninterp spec fn csv_rows(data: Seq<u8>) -> Result<Seq<Seq<Seq<char>>>, Seq<char>>;

/// Fields or an error message, as sequences.
pub open spec fn fields_view(fields: Result<Vec<String>, String>) -> Result<
    Seq<Seq<char>>,
    Seq<char>,
> {
    match fields {
        Ok(list) => Ok(texts(list@)),
        Err(message) => Err(message@),
    }
}

/// The rows of a table, as sequences.
pub open spec fn table(rows: Seq<Vec<String>>) -> Seq<Seq<Seq<char>>> {
    rows.map_values(|row: Vec<String>| texts(row@))
}

/// Rows or an error message, as sequences.
pub open spec fn rows_view(rows: Result<Vec<Vec<String>>, String>) -> Result<
    Seq<Seq<Seq<char>>>,
    Seq<char>,
> {
    match rows {
        Ok(list) => Ok(table(list@)),
        Err(message) => Err(message@),
    }
}

/// `Reader::headers` of the crate `csv`, on a reader with the crate's default
/// settings: the result depends on the bytes alone.
#[verifier::external_body]
pub(crate) fn csv_headers(data: &Vec<u8>) -> (fields: Result<Vec<String>, String>)
    ensures
        fields_view(fields) == csv_header_fields(data@),
{
    let mut reader = csv::Reader::from_reader(data.as_slice());
    match reader.headers() {
        Ok(record) => Ok(record.iter().map(str::to_string).collect()),
        Err(error) => Err(error.to_string()),
    }
}

/// `Reader::records` of the crate `csv`, on a reader with the crate's default
/// settings that has read its headers, up to the first error: the result depends
/// on the bytes alone.
#[verifier::external_body]
pub(crate) fn csv_records(data: &Vec<u8>) -> (rows: Result<Vec<Vec<String>>, String>)
    ensures
        rows_view(rows) == csv_rows(data@),
{
    let mut reader = csv::Reader::from_reader(data.as_slice());
    let _ = reader.headers();
    reader.records().map(|record| match record {
        Ok(fields) => Ok(fields.iter().map(str::to_string).collect()),
        Err(error) => Err(error.to_string()),
    }).collect()
}

// ---------------------------------------------------------------- JSON

/// A digit of a hexadecimal number.
pub open spec fn hex_digit(n: int) -> char {
    if n < 10 {
        (48 + n) as char
    } else {
        (87 + n) as char
    }
}

/// How a character is written in a JSON string.
pub open spec fn json_char(c: char) -> Seq<char> {
    if c == '"' || c == '\\' {
        seq!['\\', c]
    } else if c == '\u{8}' {
        seq!['\\', 'b']
    } else if c == '\t' {
        seq!['\\', 't']
    } else if c == '\n' {
        seq!['\\', 'n']
    } else if c == '\u{c}' {
        seq!['\\', 'f']
    } else if c == '\r' {
        seq!['\\', 'r']
    } else if (c as int) < 32 {
        seq!['\\', 'u', '0', '0', hex_digit(c as int / 16), hex_digit(c as int % 16)]
    } else {
        seq![c]
    }
}

/// How characters are written in a JSON string.
pub open spec fn json_chars(text: Seq<char>) -> Seq<char>
    decreases text.len(),
{
    if text.len() == 0 {
        Seq::empty()
    } else {
        json_chars(text.drop_last()) + json_char(text.last())
    }
}

/// A text as a JSON string.
pub open spec fn json_text(text: Seq<char>) -> Seq<char> {
    seq!['"'] + json_chars(text) + seq!['"']
}

/// A JSON boolean.
pub open spec fn json_bool(value: bool) -> Seq<char> {
    if value {
        "true"@
    } else {
        "false"@
    }
}

/// Permissions as a JSON object.
pub open spec fn json_permissions(p: NodePermissions) -> Seq<char> {
    "{\"manage\":"@ + json_bool(p.manage) + ",\"read\":"@ + json_bool(p.read) + ",\"create\":"@
        + json_bool(p.create) + ",\"change\":"@ + json_bool(p.change) + ",\"delete\":"@ + json_bool(
        p.delete,
    ) + ",\"manageDownloadShare\":"@ + json_bool(p.manage_download_share)
        + ",\"manageUploadShare\":"@ + json_bool(p.manage_upload_share) + ",\"readRecycleBin\":"@
        + json_bool(p.read_recycle_bin) + ",\"restoreRecycleBin\":"@ + json_bool(
        p.restore_recycle_bin,
    ) + ",\"deleteRecycleBin\":"@ + json_bool(p.delete_recycle_bin) + "}"@
}

/// What becomes of new members of a group, in JSON.
pub open spec fn json_acceptance(acceptance: Option<GroupMemberAcceptance>) -> Seq<char> {
    match acceptance {
        Some(GroupMemberAcceptance::AutoAllow) => "\"autoallow\""@,
        Some(GroupMemberAcceptance::Pending) => "\"pending\""@,
        None => "null"@,
    }
}

/// The permissions of a user as a JSON object.
pub open spec fn json_user(user: UserRoomPermission) -> Seq<char> {
    "{\"id\":"@ + decimal_text(user.id as nat) + ",\"permissions\":"@ + json_permissions(
        user.permissions,
    ) + "}"@
}

/// The permissions of a group as a JSON object.
pub open spec fn json_group(group: GroupRoomPermission) -> Seq<char> {
    "{\"id\":"@ + decimal_text(group.id as nat) + ",\"newGroupMemberAcceptance\":"@
        + json_acceptance(group.new_group_member_acceptance) + ",\"permissions\":"@
        + json_permissions(group.permissions) + "}"@
}

/// Texts with commas between them.
pub open spec fn comma_separated(items: Seq<Seq<char>>) -> Seq<char>
    decreases items.len(),
{
    if items.len() == 0 {
        Seq::empty()
    } else if items.len() == 1 {
        items[0]
    } else {
        comma_separated(items.drop_last()) + seq![','] + items.last()
    }
}

/// The permissions of users as a JSON array.
pub open spec fn json_users(users: Seq<UserRoomPermission>) -> Seq<char> {
    seq!['['] + comma_separated(users.map_values(|user: UserRoomPermission| json_user(user)))
        + seq![']']
}

/// The permissions of groups as a JSON array.
pub open spec fn json_groups(groups: Seq<GroupRoomPermission>) -> Seq<char> {
    seq!['['] + comma_separated(groups.map_values(|group: GroupRoomPermission| json_group(group)))
        + seq![']']
}

/// `serde_json::to_string` on a text: quotes, backslashes and control
/// characters are escaped, nothing else is. It does not fail on a text.
#[verifier::external_body]
pub(crate) fn text_to_json(text: &str) -> (json: Result<String, String>)
    ensures
        json is Ok,
        json->Ok_0@ == json_text(text@),
{
    serde_json::to_string(text).map_err(|error| error.to_string())
}

/// `serde_json::to_string` on a list of `RoomUsersAddBatchRequestItem` of the
/// crate `dco3`, which hold an id and permissions each: an array of objects
/// with their fields in this order, without white space. It does not fail on
/// such a list.
#[verifier::external_body]
pub(crate) fn users_to_json(users: &Vec<UserRoomPermission>) -> (json: Result<String, String>)
    ensures
        json is Ok,
        json->Ok_0@ == json_users(users@),
{
    let items: Vec<dco3::nodes::RoomUsersAddBatchRequestItem> = users.iter().map(|user| {
        let p = user.permissions;
        dco3::nodes::RoomUsersAddBatchRequestItem::new(user.id, dco3::nodes::NodePermissions {
            manage: p.manage, read: p.read, create: p.create, change: p.change, delete: p.delete,
            manage_download_share: p.manage_download_share,
            manage_upload_share: p.manage_upload_share, read_recycle_bin: p.read_recycle_bin,
            restore_recycle_bin: p.restore_recycle_bin, delete_recycle_bin: p.delete_recycle_bin,
        })
    }).collect();
    serde_json::to_string(&items).map_err(|error| error.to_string())
}

/// `serde_json::to_string` on a list of `RoomGroupsAddBatchRequestItem` of the
/// crate `dco3`, which hold an id, what becomes of new members and permissions
/// each: an array of objects with their fields in this order, without white
/// space. It does not fail on such a list.
#[verifier::external_body]
pub(crate) fn groups_to_json(groups: &Vec<GroupRoomPermission>) -> (json: Result<String, String>)
    ensures
        json is Ok,
        json->Ok_0@ == json_groups(groups@),
{
    let items: Vec<dco3::nodes::RoomGroupsAddBatchRequestItem> = groups.iter().map(|group| {
        let p = group.permissions;
        dco3::nodes::RoomGroupsAddBatchRequestItem::new(group.id, dco3::nodes::NodePermissions {
            manage: p.manage, read: p.read, create: p.create, change: p.change, delete: p.delete,
            manage_download_share: p.manage_download_share,
            manage_upload_share: p.manage_upload_share, read_recycle_bin: p.read_recycle_bin,
            restore_recycle_bin: p.restore_recycle_bin, delete_recycle_bin: p.delete_recycle_bin,
        }, group.new_group_member_acceptance.map(|acceptance| match acceptance {
            GroupMemberAcceptance::AutoAllow => dco3::nodes::GroupMemberAcceptance::AutoAllow,
            GroupMemberAcceptance::Pending => dco3::nodes::GroupMemberAcceptance::Pending,
        }))
    }).collect();
    serde_json::to_string(&items).map_err(|error| error.to_string())
}

/// The permissions that a JSON text holds, none where it holds no permissions.
pub uninterp spec fn parsed_permissions(text: Seq<char>) -> Option<NodePermissions>;

/// `serde_json::from_str` into the `NodePermissions` of the crate `dco3`. The
/// result depends on the text alone, and what `serde_json::to_string` writes is
/// read back; which other texts are read is left to the crates.
#[verifier::external_body]
pub(crate) fn permissions_from_json(text: &str) -> (permissions: Option<NodePermissions>)
    ensures
        permissions == parsed_permissions(text@),
        forall|p: NodePermissions| text@ == #[trigger] json_permissions(p) ==> permissions == Some(p),
{
    serde_json::from_str(text).ok().map(|p: dco3::nodes::NodePermissions| NodePermissions {
        manage: p.manage, read: p.read, create: p.create, change: p.change, delete: p.delete,
        manage_download_share: p.manage_download_share, manage_upload_share: p.manage_upload_share,
        read_recycle_bin: p.read_recycle_bin, restore_recycle_bin: p.restore_recycle_bin,
        delete_recycle_bin: p.delete_recycle_bin,
    })
}

// ---------------------------------------------------------------- lists

/// A list of texts as it is shown for debugging.
pub uninterp spec fn debug_list(list: Seq<Seq<char>>) -> Seq<char>;

/// The `Debug` form of a list of texts: it depends on the texts alone.
#[verifier::external_body]
pub(crate) fn debug_texts(list: &Vec<String>) -> (shown: String)
    ensures
        shown@ == debug_list(texts(list@)),
{
    format!("{:?}", list)
}

/// The elements of a list without those that occur before.
pub open spec fn first_occurrences(list: Seq<u64>) -> Seq<u64>
    decreases list.len(),
{
    if list.len() == 0 {
        Seq::empty()
    } else if list.drop_last().contains(list.last()) {
        first_occurrences(list.drop_last())
    } else {
        first_occurrences(list.drop_last()).push(list.last())
    }
}

/// `Itertools::unique` of the crate `itertools`: keeps the first of equal
/// numbers, and the order.
#[verifier::external_body]
pub(crate) fn unique_numbers(list: Vec<u64>) -> (unique: Vec<u64>)
    ensures
        unique@ == first_occurrences(list@),
{
    list.into_iter().unique().collect()
}

// ---------------------------------------------------------------- templates

/// The values that a template is rendered with.
#[verifier::external_type_specification]
#[verifier::external_body]
pub struct ExContext(tera::Context);

/// The texts in a context, by their names.
pub uninterp spec fn context_texts(context: tera::Context) -> Map<Seq<char>, Seq<char>>;

/// A context that holds nothing but texts.
pub struct TextContext {
    context: tera::Context,
}

impl TextContext {
    /// The context itself.
    pub closed spec fn inner(self) -> tera::Context {
        self.context
    }

    /// The context itself.
    pub fn context(&self) -> (context: &tera::Context)
        ensures
            *context == self.inner(),
    {
        &self.context
    }
}

impl View for TextContext {
    type V = Map<Seq<char>, Seq<char>>;

    open spec fn view(&self) -> Map<Seq<char>, Seq<char>> {
        context_texts(self.inner())
    }
}

/// No texts at all.
pub open spec fn no_texts() -> Map<Seq<char>, Seq<char>> {
    Map::empty()
}

/// `Context::new` of the crate `tera`: a context without values.
#[verifier::external_body]
pub(crate) fn new_context() -> (values: TextContext)
    ensures
        context_texts(values.inner()) == no_texts(),
{
    TextContext { context: tera::Context::new() }
}

/// `Context::insert` of the crate `tera` with a text: gives a name this value,
/// in place of the one it had.
#[verifier::external_body]
pub(crate) fn insert_text(values: &mut TextContext, name: &str, value: &str)
    ensures
        context_texts(final(values).inner()) == context_texts(old(values).inner()).insert(
            name@,
            value@,
        ),
{
    values.context.insert(name, value);
}

/// A plain template that is rendered with texts, or the message of the error.
pub uninterp spec fn rendered_template(
    template: Seq<char>,
    values: Map<Seq<char>, Seq<char>>,
    autoescape: bool,
) -> Result<Seq<char>, Seq<char>>;

/// A text or an error message, as sequences.
pub open spec fn text_view(text: Result<String, String>) -> Result<Seq<char>, Seq<char>> {
    match text {
        Ok(text) => Ok(text@),
        Err(message) => Err(message@),
    }
}

/// `Tera::one_off` of the crate `tera` on a plain template and a context with
/// nothing but texts: the result depends on the template, the texts and whether
/// they are escaped.
#[verifier::external_body]
pub(crate) fn render_once(
    template: &str,
    values: &TextContext,
    autoescape: bool,
) -> (rendered: Result<String, String>)
    requires
        is_plain_template(template@),
    ensures
        text_view(rendered) == rendered_template(
            template@,
            context_texts(values.inner()),
            autoescape,
        ),
{
    tera::Tera::one_off(template, &values.context, autoescape).map_err(|error| error.to_string())
}

}
