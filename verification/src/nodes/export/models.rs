//! The rooms that an export collects.
use std::collections::{HashMap, VecDeque};
use vstd::prelude::*;
use crate::nodes::import::tasks::{capacity_beside, is_drained, CAPACITY};
use crate::nodes::models::{law_named_room_says_nothing, named_room, Room, RoomView};
use crate::text::{join2, optional_text};

verus! {

/// The id of a node.
#[derive(Debug, Clone, Copy, PartialEq, Eq, Structural, Hash)]
pub struct NodeId(pub u64);

/// A room as the DRACOON API shows it.
#[derive(Debug)]
pub struct RoomNode {
    pub id: NodeId,
    pub name: String,
    pub parent_path: Option<String>,
    pub recycle_bin_retention_period: Option<u32>,
    pub quota: Option<u64>,
    pub inherit_permissions: Option<bool>,
    pub classification: Option<u8>,
}

/// The path of a room: that of its parent, if it has one, and its name.
pub open spec fn complete_path(parent_path: Option<Seq<char>>, name: Seq<char>) -> Seq<char> {
    match parent_path {
        Some(parent) => parent + name,
        None => name,
    }
}

/// The exported room of a node.
pub open spec fn exported_room(node: RoomNode) -> RoomView {
    RoomView {
        recycle_bin_retention_period: node.recycle_bin_retention_period,
        quota: node.quota,
        inherit_permissions: node.inherit_permissions,
        classification: node.classification,
        complete_path: Some(complete_path(optional_text(node.parent_path), node.name@)),
        ..named_room(node.name@)
    }
}

/// The path of a room: that of its parent, if it has one, and its name.
pub fn room_path(parent_path: &Option<String>, name: &str) -> (path: String)
    ensures
        path@ == complete_path(optional_text(*parent_path), name@),
{
    match parent_path {
        Some(parent) => join2(parent.as_str(), name),
        None => name.to_owned(),
    }
}

impl Room {
    /// The exported room of a node.
    pub fn from_node(node: RoomNode) -> (room: Room)
        ensures
            room@ == exported_room(node),
    {
        let mut room = Room::default();
        room.complete_path = Some(room_path(&node.parent_path, node.name.as_str()));
        room.name = node.name;
        room.recycle_bin_retention_period = node.recycle_bin_retention_period;
        room.quota = node.quota;
        room.inherit_permissions = node.inherit_permissions;
        room.classification = node.classification;
        room
    }
}

/// The rooms that were collected, by their ids.
#[derive(Debug)]
pub struct RoomsChannel {
    pub collected_rooms: HashMap<u64, Room>,
}

/// The rooms of a map as their views.
pub open spec fn room_views(rooms: Map<u64, Room>) -> Map<u64, RoomView> {
    rooms.map_values(|room: Room| room@)
}

impl View for RoomsChannel {
    type V = Map<u64, RoomView>;

    open spec fn view(&self) -> Map<u64, RoomView> {
        room_views(self.collected_rooms@)
    }
}

/// Collected rooms with those of more nodes, one after the other: a later node
/// takes the place of an earlier one with the same id.
pub open spec fn with_nodes(rooms: Map<u64, RoomView>, nodes: Seq<RoomNode>) -> Map<u64, RoomView>
    decreases nodes.len(),
{
    if nodes.len() == 0 {
        rooms
    } else {
        with_nodes(rooms, nodes.drop_last()).insert(
            nodes.last().id.0,
            exported_room(nodes.last()),
        )
    }
}

/// Whether a node of a list is the last one with an id.
pub open spec fn is_last_with_id(nodes: Seq<RoomNode>, i: int, id: u64) -> bool {
    &&& 0 <= i < nodes.len()
    &&& nodes[i].id.0 == id
    &&& forall|j: int| i < j < nodes.len() ==> (#[trigger] nodes[j]).id.0 != id
}

/// Whether a list has a node with an id.
pub open spec fn has_node(nodes: Seq<RoomNode>, id: u64) -> bool {
    exists|i: int| 0 <= i < nodes.len() && (#[trigger] nodes[i]).id.0 == id
}

/// The rooms that were collected are those that were there and those of all
/// nodes. For each id it is the room of the last node with that id; where there
/// is no such node, it is the room that was there.
pub proof fn law_every_node_is_collected(
    rooms: Map<u64, RoomView>,
    nodes: Seq<RoomNode>,
    id: u64,
)
    ensures
        with_nodes(rooms, nodes).contains_key(id) <==> rooms.contains_key(id) || has_node(
            nodes,
            id,
        ),
        forall|i: int| #[trigger]
            is_last_with_id(nodes, i, id) ==> with_nodes(rooms, nodes)[id] == exported_room(
                nodes[i],
            ),
        !has_node(nodes, id) ==> with_nodes(rooms, nodes)[id] == rooms[id],
        has_node(nodes, id) ==> exists|i: int| #[trigger] is_last_with_id(nodes, i, id),
    decreases nodes.len(),
{
    if nodes.len() > 0 {
        let front = nodes.drop_last();
        let n = nodes.len() - 1;
        law_every_node_is_collected(rooms, front, id);
        if nodes[n].id.0 == id {
            assert(is_last_with_id(nodes, n, id));
        } else {
            if has_node(front, id) {
                let i = choose|i: int| #[trigger] is_last_with_id(front, i, id);
                assert(nodes[i] == front[i]);
                assert forall|j: int| i < j < nodes.len() implies (
                #[trigger] nodes[j]).id.0 != id by {
                    if j < n {
                        assert(front[j] == nodes[j]);
                    }
                }
                assert(is_last_with_id(nodes, i, id));
            }
            if has_node(nodes, id) {
                let i = choose|i: int| 0 <= i < nodes.len() && (#[trigger] nodes[i]).id.0 == id;
                assert(front[i].id.0 == id);
            }
        }
        assert forall|i: int| #[trigger] is_last_with_id(nodes, i, id) implies with_nodes(
            rooms,
            nodes,
        )[id] == exported_room(nodes[i]) by {
            if i < n {
                assert(nodes[n].id.0 != id);
                assert(front[i] == nodes[i]);
                assert forall|j: int| i < j < front.len() implies (
                #[trigger] front[j]).id.0 != id by {
                    assert(front[j] == nodes[j]);
                }
                assert(is_last_with_id(front, i, id));
            }
        }
    }
}

/// Collecting rooms in two goes is the same as collecting them in one; what is
/// collected from an empty queue changes nothing.
pub proof fn law_collecting_rooms_again(
    rooms: Map<u64, RoomView>,
    first: Seq<RoomNode>,
    second: Seq<RoomNode>,
)
    ensures
        with_nodes(with_nodes(rooms, first), second) == with_nodes(rooms, first + second),
        with_nodes(rooms, Seq::empty()) == rooms,
    decreases second.len(),
{
    if second.len() == 0 {
        assert(first + second =~= first);
    } else {
        law_collecting_rooms_again(rooms, first, second.drop_last());
        assert((first + second).drop_last() =~= first + second.drop_last());
        assert((first + second).last() == second.last());
    }
}

impl RoomsChannel {
    /// No rooms.
    pub fn new() -> (channel: Self)
        ensures
            channel@ == Map::<u64, RoomView>::empty(),
    {
        broadcast use vstd::std_specs::hash::group_hash_axioms;

        let channel = Self { collected_rooms: HashMap::new() };
        assert(channel@ =~= Map::<u64, RoomView>::empty());
        channel
    }

    /// Takes a room, where this much room is left behind it, and tells whether
    /// to go on waiting for more.
    pub fn collect(&mut self, node: RoomNode, capacity: usize) -> (go_on: bool)
        ensures
            final(self)@ == old(self)@.insert(node.id.0, exported_room(node)),
            go_on == (capacity != CAPACITY),
    {
        broadcast use vstd::std_specs::hash::group_hash_axioms;

        let ghost before = self@;
        let id = node.id.0;
        self.collected_rooms.insert(id, Room::from_node(node));
        assert(self@ =~= before.insert(id, exported_room(node)));
        !is_drained(capacity)
    }

    /// Collects the rooms of all nodes of a queue, and leaves it empty.
    pub fn collect_rooms(&mut self, queue: &mut VecDeque<RoomNode>)
        ensures
            final(self)@ == with_nodes(old(self)@, old(queue)@),
            final(queue)@ == Seq::<RoomNode>::empty(),
    {
        let ghost start = self@;
        let ghost all = queue@;
        let ghost mut taken: int = 0;
        let mut go_on = !is_drained(capacity_beside(queue.len()));
        assert(all.take(0) =~= Seq::<RoomNode>::empty());
        assert(all.subrange(0, all.len() as int) =~= all);
        while go_on
            invariant
                0 <= taken <= all.len(),
                queue@ == all.subrange(taken, all.len() as int),
                self@ == with_nodes(start, all.take(taken)),
                go_on == (queue@.len() > 0),
            decreases queue@.len(),
        {
            if let Some(node) = queue.pop_front() {
                proof {
                    assert(node == all[taken]);
                    assert(all.take(taken + 1).drop_last() =~= all.take(taken));
                    assert(all.take(taken + 1).last() == node);
                    taken = taken + 1;
                    assert(queue@ =~= all.subrange(taken, all.len() as int));
                }
                go_on = self.collect(node, capacity_beside(queue.len()));
            }
        }
        assert(all.take(taken) =~= all);
        assert(queue@ =~= Seq::<RoomNode>::empty());
    }

    /// The collected rooms by their ids.
    pub fn get_rooms_map(&self) -> (rooms: &HashMap<u64, Room>)
        ensures
            room_views(rooms@) == self@,
    {
        &self.collected_rooms
    }
}

// ---------------------------------------------------------------- walking

/// A room to walk through, with its path.
#[derive(Debug)]
pub struct RoomToVisit {
    pub id: NodeId,
    pub path: String,
}

/// A room to walk through, with its path as a sequence of characters.
pub struct VisitView {
    pub id: NodeId,
    pub path: Seq<char>,
}

impl View for RoomToVisit {
    type V = VisitView;

    open spec fn view(&self) -> VisitView {
        VisitView { id: self.id, path: self.path@ }
    }
}

impl RoomToVisit {
    /// The name of the rooms that are left out below this room: the room that
    /// holds the users' own rooms stands at the first level only.
    pub fn left_out_below(&self) -> (name: Option<String>)
        ensures
            name is None,
    {
        None
    }
}

/// A room in a list of rooms, as the DRACOON API shows it.
#[derive(Debug)]
pub struct ListedRoom {
    pub id: NodeId,
    pub name: String,
    pub parent_path: Option<String>,
}

/// The rooms of a list to walk through: all but those with the name of the room
/// that holds the users' own rooms. Without such a name, rooms without a name
/// are left out.
pub open spec fn visits(rooms: Seq<ListedRoom>, left_out: Option<Seq<char>>) -> Seq<VisitView>
    decreases rooms.len(),
{
    if rooms.len() == 0 {
        Seq::empty()
    } else {
        let room = rooms.last();
        let before = visits(rooms.drop_last(), left_out);
        let skipped = match left_out {
            Some(name) => name,
            None => Seq::empty(),
        };
        if room.name@ == skipped {
            before
        } else {
            before.push(
                VisitView {
                    id: room.id,
                    path: complete_path(optional_text(room.parent_path), room.name@),
                },
            )
        }
    }
}

/// The rooms of a list to walk through.
pub fn rooms_to_visit(
    rooms: &Vec<ListedRoom>,
    home_room_parent_name: &Option<String>,
) -> (list: Vec<RoomToVisit>)
    ensures
        list@.map_values(|visit: RoomToVisit| visit@) == visits(
            rooms@,
            optional_text(*home_room_parent_name),
        ),
{
    let skipped = match home_room_parent_name {
        Some(name) => name.clone(),
        None => String::new(),
    };
    let ghost left_out = optional_text(*home_room_parent_name);
    let mut list: Vec<RoomToVisit> = Vec::new();
    let mut i: usize = 0;
    assert(list@.map_values(|visit: RoomToVisit| visit@) =~= visits(rooms@.take(0), left_out));
    while i < rooms.len()
        invariant
            i <= rooms.len(),
            left_out == optional_text(*home_room_parent_name),
            skipped@ == (match left_out {
                Some(name) => name,
                None => Seq::empty(),
            }),
            list@.map_values(|visit: RoomToVisit| visit@) == visits(
                rooms@.take(i as int),
                left_out,
            ),
        decreases rooms.len() - i,
    {
        let ghost before = list@;
        let room = &rooms[i];
        assert(rooms@.take(i + 1).drop_last() =~= rooms@.take(i as int));
        if room.name != skipped {
            let visit = RoomToVisit {
                id: room.id,
                path: room_path(&room.parent_path, room.name.as_str()),
            };
            list.push(visit);
            assert(list@.map_values(|visit: RoomToVisit| visit@) =~= before.map_values(
                |visit: RoomToVisit| visit@,
            ).push(visit@));
        }
        i += 1;
    }
    assert(rooms@.take(i as int) =~= rooms@);
    list
}

// ---------------------------------------------------------------- laws

/// An exported room has what the node says, and the path of the node: that of its
/// parent, if it has one, directly before its name. It says nothing else.
pub proof fn law_export_says_what_the_node_says(node: RoomNode)
    ensures
        exported_room(node) == (RoomView {
            name: node.name@,
            recycle_bin_retention_period: node.recycle_bin_retention_period,
            quota: node.quota,
            inherit_permissions: node.inherit_permissions,
            admin_ids: None,
            admin_group_ids: None,
            user_permissions: None,
            group_permissions: None,
            new_group_member_acceptance: None,
            classification: node.classification,
            policies: None,
            sub_rooms: None,
            complete_path: if node.parent_path is Some {
                Some(node.parent_path->0@ + node.name@)
            } else {
                Some(node.name@)
            },
        }),
{
    law_named_room_says_nothing(node.name@);
}

/// The path of a room is that of its parent with its name behind it; without a
/// parent it is the name.
pub proof fn law_path_ends_with_name(parent: Seq<char>, name: Seq<char>)
    ensures
        complete_path(Some(parent), name) == parent + name,
        complete_path(None, name) == name,
{
}

/// One more node adds its room under its id, or puts it in the place of the room
/// with that id.
pub proof fn law_one_more_node(rooms: Map<u64, RoomView>, nodes: Seq<RoomNode>, node: RoomNode)
    ensures
        with_nodes(rooms, nodes.push(node)) == with_nodes(rooms, nodes).insert(
            node.id.0,
            exported_room(node),
        ),
{
    assert(nodes.push(node).drop_last() =~= nodes);
}

/// A map of rooms shows each room under its id, and no other.
pub proof fn law_room_views_show_all(rooms: Map<u64, Room>, id: u64)
    ensures
        room_views(rooms).contains_key(id) <==> rooms.contains_key(id),
        rooms.contains_key(id) ==> room_views(rooms)[id] == rooms[id]@,
{
}

/// The rooms that a channel has collected are seen under their ids.
pub proof fn law_channel_shows_all(channel: RoomsChannel, id: u64)
    ensures
        channel@.contains_key(id) <==> channel.collected_rooms@.contains_key(id),
        channel.collected_rooms@.contains_key(id) ==> channel@[id]
            == channel.collected_rooms@[id]@,
{
}

/// A room to visit is seen with its id and its path.
pub proof fn law_visit_view_shows_all(visit: RoomToVisit)
    ensures
        visit@.id == visit.id,
        visit@.path == visit.path@,
{
}

/// The rooms to visit are all rooms of a list that do not have the name to leave
/// out, in their order, each with its id and its path. Without such a name they
/// are all rooms that have a name.
pub proof fn law_rooms_to_visit(rooms: Seq<ListedRoom>, left_out: Seq<char>)
    ensures
        visits(rooms, Some(left_out)) == rooms.filter(
            |room: ListedRoom| room.name@ != left_out,
        ).map_values(
            |room: ListedRoom|
                VisitView {
                    id: room.id,
                    path: if room.parent_path is Some {
                        room.parent_path->0@ + room.name@
                    } else {
                        room.name@
                    },
                },
        ),
        visits(rooms, None) == rooms.filter(|room: ListedRoom| room.name@.len() > 0).map_values(
            |room: ListedRoom|
                VisitView {
                    id: room.id,
                    path: if room.parent_path is Some {
                        room.parent_path->0@ + room.name@
                    } else {
                        room.name@
                    },
                },
        ),
    decreases rooms.len(),
{
    reveal(Seq::filter);
    let is_kept = |room: ListedRoom| room.name@ != left_out;
    let has_name = |room: ListedRoom| room.name@.len() > 0;
    let visit = |room: ListedRoom|
        VisitView {
            id: room.id,
            path: if room.parent_path is Some {
                room.parent_path->0@ + room.name@
            } else {
                room.name@
            },
        };
    if rooms.len() > 0 {
        law_rooms_to_visit(rooms.drop_last(), left_out);
        assert(rooms.last().name@.len() == 0 <==> rooms.last().name@ =~= Seq::<char>::empty());
    }
    assert(visits(rooms, Some(left_out)) =~= rooms.filter(is_kept).map_values(visit));
    assert(visits(rooms, None) =~= rooms.filter(has_name).map_values(visit));
}

}
