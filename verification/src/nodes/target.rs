//! Where rooms are imported to and exported from, and who may do so.
use vstd::prelude::*;
use crate::models::{outcome, DcCmdError, ErrorView};
use crate::nodes::models::NodePermissions;
use crate::nodes::rules::error_if;
use crate::text::{contains_text, join2, texts};

verus! {

/// What a node is.
#[derive(Debug, Clone, Copy, PartialEq, Eq, Structural)]
pub enum NodeType {
    Room,
    Folder,
    File,
}

/// A node that was found under a path.
#[derive(Debug, Clone, Copy, PartialEq, Eq, Structural)]
pub struct FoundNode {
    pub id: u64,
    pub node_type: NodeType,
}

/// The path of a node: the path of its parent, which ends with a slash, and its
/// name.
pub fn node_path(parent_path: &str, node_name: &str) -> (path: String)
    ensures
        path@ == parent_path@ + node_name@,
{
    join2(parent_path, node_name)
}

/// Whether a node has to be looked up: the root has no name and no node.
pub fn needs_lookup(node_name: &str) -> (needed: bool)
    ensures
        needed == (node_name@.len() > 0),
{
    let empty = String::new();
    let name = node_name.to_owned();
    if name == empty {
        assert(node_name@ =~= Seq::<char>::empty());
        false
    } else {
        assert(node_name@.len() == 0 ==> node_name@ =~= empty@);
        true
    }
}

/// The room that was found for a source.
pub open spec fn found_room(source: Seq<char>, found: Option<FoundNode>) -> Result<u64, ErrorView> {
    match found {
        None => Err(ErrorView::InvalidPathOrNoPermission(source)),
        Some(node) => if node.node_type == NodeType::Room {
            Ok(node.id)
        } else {
            Err(ErrorView::InvalidPath(source))
        },
    }
}

/// The id of the room that was found for a source; an error where there is no
/// node, or where it is no room.
pub fn parent_room(source: &str, found: Option<FoundNode>) -> (result: Result<u64, DcCmdError>)
    ensures
        outcome(result) == found_room(source@, found),
{
    match found {
        None => Err(DcCmdError::InvalidPathOrNoPermission(source.to_owned())),
        Some(node) => if node.node_type == NodeType::Room {
            Ok(node.id)
        } else {
            Err(DcCmdError::InvalidPath(source.to_owned()))
        },
    }
}

/// Refuses users without the role that it takes to create rooms at the root.
pub fn check_root_permission(roles: &Vec<String>, path: &str) -> (result: Result<(), DcCmdError>)
    ensures
        outcome(result) == error_if(
            !texts(roles@).contains("ROOM_MANAGER"@),
            ErrorView::InsufficentPermissions(path@),
        ),
{
    if contains_text(roles, "ROOM_MANAGER") {
        Ok(())
    } else {
        Err(DcCmdError::InsufficentPermissions(path.to_owned()))
    }
}

/// A user of a room, as the DRACOON API shows it.
#[derive(Debug, Clone, Copy, PartialEq, Eq, Structural)]
pub struct RoomUser {
    pub id: i64,
    pub permissions: Option<NodePermissions>,
}

/// Whether an entry gives a user the right to manage the room.
pub open spec fn lets_manage(user: RoomUser, user_id: u64) -> bool {
    user.id == user_id && (user.permissions matches Some(permissions) && permissions.manage)
}

/// Whether one of the entries gives a user the right to manage the room.
pub open spec fn may_manage(users: Seq<RoomUser>, user_id: u64) -> bool {
    exists|i: int| 0 <= i < users.len() && lets_manage(#[trigger] users[i], user_id)
}

/// Whether the entries can be read up to the first that gives a user the right
/// to manage the room: ids are not negative, and the entries of the user have
/// permissions.
pub open spec fn are_readable(users: Seq<RoomUser>, user_id: u64) -> bool {
    forall|i: int|
        0 <= i < users.len() && !may_manage(users.take(i), user_id) ==> (
        #[trigger] users[i]).id >= 0 && (users[i].id == user_id ==> users[i].permissions is Some)
}

/// Refuses users who may not manage the room in which rooms are to be created.
pub fn check_room_permission(
    users: &Vec<RoomUser>,
    current_user_id: u64,
    path: &str,
) -> (result: Result<(), DcCmdError>)
    requires
        are_readable(users@, current_user_id),
    ensures
        outcome(result) == error_if(
            !may_manage(users@, current_user_id),
            ErrorView::InsufficentPermissions(path@),
        ),
{
    let mut i: usize = 0;
    while i < users.len()
        invariant
            i <= users.len(),
            forall|j: int| 0 <= j < i ==> !lets_manage(#[trigger] users@[j], current_user_id),
        decreases users.len() - i,
    {
        let user = &users[i];
        let manages = match user.permissions {
            Some(permissions) => permissions.manage,
            None => false,
        };
        if user.id >= 0 && user.id as u64 == current_user_id && manages {
            assert(lets_manage(users@[i as int], current_user_id));
            return Ok(());
        }
        i += 1;
    }
    Err(DcCmdError::InsufficentPermissions(path.to_owned()))
}

/// How many users come with one answer.
pub const PAGE_SIZE: u64 = 500;

/// Where the next page of a list starts behind one page, where there are this
/// many elements.
pub fn next_page(offset: u64, total: u64) -> (next: Option<u64>)
    ensures
        next == (if offset + PAGE_SIZE < total {
            Some((offset + PAGE_SIZE) as u64)
        } else {
            None
        }),
{
    if total > PAGE_SIZE && offset < total - PAGE_SIZE {
        Some(offset + PAGE_SIZE)
    } else {
        None
    }
}

/// How many pages are read from an offset on.
pub open spec fn pages_from(offset: int, total: int) -> nat
    decreases total - offset,
{
    if offset + PAGE_SIZE < total {
        1 + pages_from(offset + PAGE_SIZE, total)
    } else {
        1
    }
}

/// The first page starts at the first element, and each next one five hundred
/// elements behind the one before, as long as there are elements there.
pub proof fn law_pages_are_full(offset: int, total: int)
    ensures
        PAGE_SIZE == 500,
        pages_from(offset, total) == (if offset + 500 < total {
            1 + pages_from(offset + 500, total)
        } else {
            1
        }),
{
}

/// The pages that are read from the start on hold all elements, and the last
/// page is not read for nothing.
pub proof fn law_pages_cover_all(total: int)
    requires
        total > 0,
    ensures
        (pages_from(0, total) - 1) * PAGE_SIZE < total <= pages_from(0, total) * PAGE_SIZE,
{
    lemma_pages(0, total);
}

proof fn lemma_pages(offset: int, total: int)
    requires
        offset < total,
    ensures
        (pages_from(offset, total) - 1) * PAGE_SIZE < total - offset <= pages_from(offset, total)
            * PAGE_SIZE,
    decreases total - offset,
{
    if offset + PAGE_SIZE < total {
        lemma_pages(offset + PAGE_SIZE, total);
    }
}

/// The users of a room, which come page by page.
#[derive(Debug)]
pub struct RoomUserPages {
    users: Vec<RoomUser>,
    offset: u64,
    total: u64,
}

/// The users that have come so far, where the last page started, and how many
/// users there are.
pub struct PagesView {
    pub users: Seq<RoomUser>,
    pub offset: u64,
    pub total: u64,
}

impl View for RoomUserPages {
    type V = PagesView;

    closed spec fn view(&self) -> PagesView {
        PagesView { users: self.users@, offset: self.offset, total: self.total }
    }
}

impl RoomUserPages {
    /// The first page, with the number of all users.
    pub fn new(users: Vec<RoomUser>, total: u64) -> (pages: Self)
        ensures
            pages@ == (PagesView { users: users@, offset: 0, total }),
    {
        RoomUserPages { users, offset: 0, total }
    }

    /// Where the next page starts, if there is one.
    pub fn next_offset(&self) -> (next: Option<u64>)
        ensures
            next == (if self@.offset + PAGE_SIZE < self@.total {
                Some((self@.offset + PAGE_SIZE) as u64)
            } else {
                None
            }),
    {
        next_page(self.offset, self.total)
    }

    /// Takes the next page.
    pub fn add_page(&mut self, page: Vec<RoomUser>)
        requires
            old(self)@.offset + PAGE_SIZE < old(self)@.total,
        ensures
            final(self)@ == (PagesView {
                users: old(self)@.users + page@,
                offset: (old(self)@.offset + PAGE_SIZE) as u64,
                total: old(self)@.total,
            }),
    {
        let mut page = page;
        self.users.append(&mut page);
        self.offset = self.offset + PAGE_SIZE;
    }

    /// The users that have come so far.
    pub fn users(&self) -> (users: &Vec<RoomUser>)
        ensures
            users@ == self@.users,
    {
        &self.users
    }
}

// ---------------------------------------------------------------- laws

/// A source leads to the room that was found. A node that is no room makes the
/// path invalid; where nothing was found, the path is invalid or not open to the
/// user. Both errors name the source.
pub proof fn law_only_rooms_are_targets(source: Seq<char>, id: u64, node_type: NodeType)
    ensures
        found_room(source, Some(FoundNode { id, node_type })) == (match node_type {
            NodeType::Room => Ok::<u64, ErrorView>(id),
            NodeType::Folder => Err(ErrorView::InvalidPath(source)),
            NodeType::File => Err(ErrorView::InvalidPath(source)),
        }),
        found_room(source, None) == Err::<u64, ErrorView>(
            ErrorView::InvalidPathOrNoPermission(source),
        ),
{
}

/// A user may create rooms in a room exactly if one of the entries has the user's
/// id and the right to manage; no other permission counts.
pub proof fn law_managers_may_create(users: Seq<RoomUser>, user_id: u64)
    ensures
        may_manage(users, user_id) <==> exists|i: int|
            0 <= i < users.len() && (#[trigger] users[i]).id as int == user_id as int
                && users[i].permissions is Some && users[i].permissions->0.manage,
{
    if may_manage(users, user_id) {
        let i = choose|i: int| 0 <= i < users.len() && lets_manage(#[trigger] users[i], user_id);
        assert(users[i].permissions is Some);
    }
    if exists|i: int|
        0 <= i < users.len() && (#[trigger] users[i]).id as int == user_id as int
            && users[i].permissions is Some && users[i].permissions->0.manage {
        let i = choose|i: int|
            0 <= i < users.len() && (#[trigger] users[i]).id as int == user_id as int
                && users[i].permissions is Some && users[i].permissions->0.manage;
        assert(lets_manage(users[i], user_id));
    }
}

/// More entries take no right away from a user, and entries of other users give
/// none.
pub proof fn law_entries_only_add(users: Seq<RoomUser>, more: RoomUser, user_id: u64)
    ensures
        may_manage(users, user_id) ==> may_manage(users.push(more), user_id),
        more.id != user_id ==> (may_manage(users.push(more), user_id) <==> may_manage(
            users,
            user_id,
        )),
{
    let longer = users.push(more);
    if may_manage(users, user_id) {
        let i = choose|i: int| 0 <= i < users.len() && lets_manage(#[trigger] users[i], user_id);
        assert(longer[i] == users[i]);
    }
    if more.id != user_id && may_manage(longer, user_id) {
        let i = choose|i: int| 0 <= i < longer.len() && lets_manage(#[trigger] longer[i], user_id);
        assert(users[i] == longer[i]);
    }
}

/// Users can be read where all ids are natural numbers and all permissions are
/// there.
pub proof fn law_readable_users(users: Seq<RoomUser>, user_id: u64)
    requires
        forall|i: int|
            0 <= i < users.len() ==> (#[trigger] users[i]).id >= 0 && users[i].permissions is Some,
    ensures
        are_readable(users, user_id),
{
}

}
