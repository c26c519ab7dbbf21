//! Where rooms stand in the exported tree.
use vstd::prelude::*;
use crate::nodes::export::hierarchy::{insert_error, rest_of, tree_errors, tree_of, tree_with};
use crate::nodes::export::sorting::{
    is_stable_sort, lemma_one_with_path, lemma_sorted_contains, lemma_two_with_path, with_path,
};
use crate::nodes::models::{names, sub_rooms_of, RoomView};
use crate::nodes::tree::{
    lemma_preorder, lemma_preorder_all_split, lemma_preorder_all_take, preorder, preorder_all,
};
use crate::paths::{is_part, law_parts_of_child, law_prefix_first, parts_of, path_le};
use crate::text::{first_position, lemma_first_position};

verus! {

// ---------------------------------------------------------------- looking up

/// The room that a walk along the names of a path leads to.
pub open spec fn room_at(rooms: Seq<RoomView>, path: Seq<Seq<char>>) -> Option<RoomView>
    decreases path.len(),
{
    if path.len() == 0 {
        None
    } else {
        match first_position(names(rooms), path[0]) {
            Some(i) => if path.len() == 1 {
                Some(rooms[i])
            } else {
                room_at(sub_rooms_of(rooms[i]), rest_of(path))
            },
            None => None,
        }
    }
}

/// Whether two rooms are the same but for their sub rooms.
pub open spec fn same_but_sub_rooms(a: RoomView, b: RoomView) -> bool {
    a == (RoomView { sub_rooms: a.sub_rooms, ..b })
}

/// A room that is found by its name has that name.
pub proof fn lemma_names(rooms: Seq<RoomView>, name: Seq<char>)
    ensures
        names(rooms).len() == rooms.len(),
        forall|i: int| 0 <= i < rooms.len() ==> names(rooms)[i] == (#[trigger] rooms[i]).name,
        first_position(names(rooms), name) matches Some(i) ==> 0 <= i < rooms.len()
            && rooms[i].name == name,
{
    lemma_first_position(names(rooms), name);
}

/// No path leads anywhere in an empty tree.
pub proof fn lemma_none_in_empty(rooms: Seq<RoomView>, path: Seq<Seq<char>>)
    requires
        rooms.len() == 0,
    ensures
        room_at(rooms, path) is None,
{
    if path.len() > 0 {
        lemma_names(rooms, path[0]);
    }
}

/// A room can be inserted under a path of one part, and under a longer path
/// exactly if there is a room where the path without its last part leads to.
pub proof fn law_insert_needs_parent(rooms: Seq<RoomView>, path: Seq<Seq<char>>)
    ensures
        insert_error(rooms, path) is None <==> path.len() == 1 || (path.len() > 1 && room_at(
            rooms,
            path.drop_last(),
        ) is Some),
    decreases path.len(),
{
    if path.len() > 1 {
        let parent = path.drop_last();
        assert(parent[0] == path[0]);
        if let Some(i) = first_position(names(rooms), path[0]) {
            let below = rest_of(path);
            law_insert_needs_parent(sub_rooms_of(rooms[i]), below);
            if path.len() > 2 {
                assert(below.drop_last() =~= rest_of(parent));
            }
        }
    }
}

/// After a room without sub rooms was inserted under a path that led nowhere,
/// the path leads to the room. All other paths lead where they led before, to
/// the same rooms but for their sub rooms, or nowhere.
pub proof fn law_insert_then_look(
    rooms: Seq<RoomView>,
    path: Seq<Seq<char>>,
    room: RoomView,
    other: Seq<Seq<char>>,
)
    requires
        insert_error(rooms, path) is None,
        room_at(rooms, path) is None,
        path.last() == room.name,
        sub_rooms_of(room).len() == 0,
    ensures
        room_at(tree_with(rooms, path, room), path) == Some(room),
        other != path ==> (match room_at(rooms, other) {
            Some(there) => room_at(tree_with(rooms, path, room), other) matches Some(now)
                && same_but_sub_rooms(now, there),
            None => room_at(tree_with(rooms, path, room), other) is None,
        }),
    decreases path.len(),
{
    let after = tree_with(rooms, path, room);
    if path.len() == 1 {
        assert(names(after).drop_last() =~= names(rooms));
        assert(names(after).last() == room.name);
        lemma_names(rooms, path[0]);
        assert(room_at(after, path) == Some(room));
        if other != path && other.len() > 0 {
            lemma_names(rooms, other[0]);
            match first_position(names(rooms), other[0]) {
                Some(i) => {
                    assert(after[i] == rooms[i]);
                },
                None => {
                    if other[0] == room.name {
                        if other.len() == 1 {
                            assert(other =~= path);
                        }
                        lemma_none_in_empty(sub_rooms_of(room), rest_of(other));
                        assert(after[rooms.len() as int] == room);
                    }
                },
            }
        }
    } else {
        lemma_names(rooms, path[0]);
        let i = first_position(names(rooms), path[0])->0;
        let below = sub_rooms_of(rooms[i]);
        assert(names(after) =~= names(rooms));
        assert(rest_of(path).last() == path.last());
        law_insert_then_look(below, rest_of(path), room, rest_of(path));
        assert(sub_rooms_of(after[i]) == tree_with(below, rest_of(path), room));
        if other != path && other.len() > 0 {
            lemma_names(rooms, other[0]);
            match first_position(names(rooms), other[0]) {
                Some(j) => {
                    if j == i {
                        assert(other[0] == path[0]);
                        if other.len() > 1 {
                            if rest_of(other) == rest_of(path) {
                                assert(other =~= seq![other[0]] + rest_of(other));
                                assert(path =~= seq![path[0]] + rest_of(path));
                            }
                            law_insert_then_look(below, rest_of(path), room, rest_of(other));
                        }
                    } else {
                        assert(after[j] == rooms[j]);
                    }
                },
                None => {},
            }
        }
    }
}

/// Where a room cannot be inserted, all paths lead where they led before, to the
/// same rooms but for their sub rooms, or nowhere.
pub proof fn law_failed_insert(
    rooms: Seq<RoomView>,
    path: Seq<Seq<char>>,
    room: RoomView,
    other: Seq<Seq<char>>,
)
    requires
        insert_error(rooms, path) is Some,
    ensures
        match room_at(rooms, other) {
            Some(there) => room_at(tree_with(rooms, path, room), other) matches Some(now)
                && same_but_sub_rooms(now, there),
            None => room_at(tree_with(rooms, path, room), other) is None,
        },
    decreases path.len(),
{
    if path.len() > 1 {
        lemma_names(rooms, path[0]);
        if let Some(i) = first_position(names(rooms), path[0]) {
            let after = tree_with(rooms, path, room);
            let below = sub_rooms_of(rooms[i]);
            assert(names(after) =~= names(rooms));
            assert(sub_rooms_of(after[i]) == tree_with(below, rest_of(path), room));
            if other.len() > 0 {
                lemma_names(rooms, other[0]);
                if let Some(j) = first_position(names(rooms), other[0]) {
                    if j == i {
                        if other.len() > 1 {
                            law_failed_insert(below, rest_of(path), room, rest_of(other));
                        }
                    } else {
                        assert(after[j] == rooms[j]);
                    }
                }
            }
        }
    }
}

// ---------------------------------------------------------------- lists of rooms

/// The parts of the path of a room.
pub open spec fn room_parts(room: RoomView) -> Seq<Seq<char>> {
    match room.complete_path {
        Some(path) => parts_of(path),
        None => Seq::empty(),
    }
}

/// Whether a room can stand at its own path: the path ends with its name, and
/// it has no sub rooms yet.
pub open spec fn is_placeable(room: RoomView) -> bool {
    &&& room.complete_path is Some
    &&& room_parts(room).len() > 0
    &&& room_parts(room).last() == room.name
    &&& room.sub_rooms is None
}

/// Whether one of the first `n` rooms stands at a path.
pub open spec fn stands_among(rooms: Seq<RoomView>, n: int, path: Seq<Seq<char>>) -> bool {
    exists|j: int| 0 <= j < n && room_parts(#[trigger] rooms[j]) == path
}

/// Whether the room that a room of a list is to stand in comes before it.
pub open spec fn comes_behind_parent(rooms: Seq<RoomView>, i: int) -> bool {
    room_parts(rooms[i]).len() > 1 ==> stands_among(rooms, i, room_parts(rooms[i]).drop_last())
}

/// Whether rooms can be inserted one after the other: no two stand at the same
/// path, and each comes behind the room it is to stand in.
pub open spec fn is_insertable(rooms: Seq<RoomView>) -> bool {
    &&& forall|i: int| 0 <= i < rooms.len() ==> is_placeable(#[trigger] rooms[i])
    &&& forall|i: int, j: int|
        0 <= i < j < rooms.len() ==> room_parts(#[trigger] rooms[i]) != room_parts(
            #[trigger] rooms[j],
        )
    &&& forall|i: int| 0 <= i < rooms.len() ==> #[trigger] comes_behind_parent(rooms, i)
}

/// Whether the path of a room leads to it in a tree, but for its sub rooms.
pub open spec fn is_in_place(tree: Seq<RoomView>, room: RoomView) -> bool {
    room_at(tree, room_parts(room)) matches Some(there) && same_but_sub_rooms(there, room)
}

/// Whether a tree holds exactly these rooms, each at its path.
pub open spec fn holds_all(tree: Seq<RoomView>, rooms: Seq<RoomView>) -> bool {
    &&& forall|i: int| 0 <= i < rooms.len() ==> is_in_place(tree, #[trigger] rooms[i])
    &&& forall|path: Seq<Seq<char>>| #[trigger]
        room_at(tree, path) is Some ==> stands_among(rooms, rooms.len() as int, path)
}

/// The tree of rooms that can be inserted one after the other holds exactly
/// these rooms, each at its path, and no room is left out.
pub proof fn law_tree_holds_all(rooms: Seq<RoomView>)
    requires
        is_insertable(rooms),
    ensures
        holds_all(tree_of(rooms), rooms),
        tree_errors(rooms).len() == 0,
    decreases rooms.len(),
{
    if rooms.len() == 0 {
        assert forall|path: Seq<Seq<char>>| !(#[trigger] room_at(tree_of(rooms), path) is Some) by {
            lemma_none_in_empty(tree_of(rooms), path);
        }
    } else {
        let front = rooms.drop_last();
        let room = rooms.last();
        let n = rooms.len() - 1;
        let path = room_parts(room);
        let before = tree_of(front);
        let after = tree_of(rooms);
        assert(rooms[n] == room);
        lemma_front_insertable(rooms);
        law_tree_holds_all(front);
        if room_at(before, path) is Some {
            let j = choose|j: int| 0 <= j < front.len() && room_parts(#[trigger] front[j]) == path;
            assert(room_parts(rooms[j]) != room_parts(rooms[n]));
        }
        law_insert_needs_parent(before, path);
        if path.len() > 1 {
            let parent = path.drop_last();
            assert(comes_behind_parent(rooms, n));
            let j = choose|j: int| 0 <= j < n && room_parts(#[trigger] rooms[j]) == parent;
            assert(front[j] == rooms[j]);
            assert(is_in_place(before, front[j]));
        }
        assert(insert_error(before, path) is None);
        assert(after == tree_with(before, path, room));
        assert forall|i: int| 0 <= i < rooms.len() implies is_in_place(
            after,
            #[trigger] rooms[i],
        ) by {
            law_insert_then_look(before, path, room, room_parts(rooms[i]));
            if i < n {
                assert(front[i] == rooms[i]);
                assert(is_in_place(before, front[i]));
                assert(room_parts(rooms[i]) != room_parts(rooms[n]));
            }
        }
        assert forall|p: Seq<Seq<char>>| #[trigger] room_at(after, p) is Some implies stands_among(
            rooms,
            rooms.len() as int,
            p,
        ) by {
            law_insert_then_look(before, path, room, p);
            if p == path {
                assert(room_parts(rooms[n]) == p);
            } else {
                assert(room_at(before, p) is Some);
                let j = choose|j: int| 0 <= j < front.len() && room_parts(#[trigger] front[j]) == p;
                assert(rooms[j] == front[j]);
            }
        }
    }
}

proof fn lemma_front_insertable(rooms: Seq<RoomView>)
    requires
        rooms.len() > 0,
        is_insertable(rooms),
    ensures
        is_insertable(rooms.drop_last()),
{
    let front = rooms.drop_last();
    assert forall|i: int| 0 <= i < front.len() implies is_placeable(#[trigger] front[i]) by {
        assert(front[i] == rooms[i]);
    }
    assert forall|i: int, j: int| 0 <= i < j < front.len() implies room_parts(#[trigger] front[i])
        != room_parts(#[trigger] front[j]) by {
        assert(front[i] == rooms[i] && front[j] == rooms[j]);
    }
    assert forall|i: int| 0 <= i < front.len() implies #[trigger] comes_behind_parent(front, i) by {
        assert(front[i] == rooms[i]);
        assert(comes_behind_parent(rooms, i));
        if room_parts(rooms[i]).len() > 1 {
            let j = choose|j: int|
                0 <= j < i && room_parts(#[trigger] rooms[j]) == room_parts(rooms[i]).drop_last();
            assert(front[j] == rooms[j]);
        }
    }
}

// ---------------------------------------------------------------- complete exports

/// Whether a room stands directly in another one, or at the top.
pub open spec fn stands_in(rooms: Seq<RoomView>, room: RoomView, parent: Seq<char>) -> bool {
    &&& room.complete_path == Some(parent + seq!['/'] + room.name)
    &&& parent.len() == 0 || exists|j: int|
        0 <= j < rooms.len() && (#[trigger] rooms[j]).complete_path == Some(parent)
}

/// Whether a room of a list stands at the top or in another room of the list.
pub open spec fn has_place(rooms: Seq<RoomView>, i: int) -> bool {
    exists|parent: Seq<char>| #[trigger] stands_in(rooms, rooms[i], parent)
}

/// Whether an export is complete: each room has a legal name, its own path and
/// no sub rooms yet, and is at the top or in another room of the export.
pub open spec fn is_complete(rooms: Seq<RoomView>) -> bool {
    &&& forall|i: int|
        0 <= i < rooms.len() ==> is_part((#[trigger] rooms[i]).name) && rooms[i].sub_rooms is None
    &&& forall|i: int| 0 <= i < rooms.len() ==> #[trigger] has_place(rooms, i)
    &&& forall|i: int, j: int|
        0 <= i < j < rooms.len() ==> (#[trigger] rooms[i]).complete_path != (
        #[trigger] rooms[j]).complete_path
}

/// A path made of parts, each behind a slash.
pub open spec fn joined(parts: Seq<Seq<char>>) -> Seq<char>
    decreases parts.len(),
{
    if parts.len() == 0 {
        Seq::empty()
    } else {
        joined(parts.drop_last()) + seq!['/'] + parts.last()
    }
}

proof fn lemma_path_is_joined(rooms: Seq<RoomView>, i: int)
    requires
        is_complete(rooms),
        0 <= i < rooms.len(),
    ensures
        rooms[i].complete_path is Some,
        rooms[i].complete_path->0 == joined(room_parts(rooms[i])),
        is_placeable(rooms[i]),
    decreases rooms[i].complete_path->0.len(),
{
    let room = rooms[i];
    assert(has_place(rooms, i));
    let parent = choose|parent: Seq<char>| #[trigger] stands_in(rooms, rooms[i], parent);
    law_parts_of_child(parent, room.name);
    assert(room_parts(room) == parts_of(parent).push(room.name));
    assert(room_parts(room).drop_last() =~= parts_of(parent));
    if parent.len() == 0 {
        assert(parent =~= Seq::<char>::empty());
        assert(parts_of(parent) =~= Seq::<Seq<char>>::empty());
        assert(joined(parts_of(parent)) =~= parent);
    } else {
        let j = choose|j: int|
            0 <= j < rooms.len() && (#[trigger] rooms[j]).complete_path == Some(parent);
        lemma_path_is_joined(rooms, j);
    }
}

proof fn lemma_sorted_complete(before: Seq<RoomView>, after: Seq<RoomView>)
    requires
        is_complete(before),
        is_stable_sort(before, after),
    ensures
        is_complete(after),
        forall|room: RoomView| #[trigger] before.contains(room) <==> after.contains(room),
{
    assert forall|room: RoomView| #[trigger] before.contains(room) <==> after.contains(room) by {
        lemma_sorted_contains(before, after, room);
    }
    assert forall|i: int| 0 <= i < after.len() implies is_part((#[trigger] after[i]).name)
        && after[i].sub_rooms is None by {
        assert(after.contains(after[i]));
        assert(before.contains(after[i]));
        let k = choose|k: int| 0 <= k < before.len() && before[k] == after[i];
        assert(is_part(before[k].name));
    }
    assert forall|i: int| 0 <= i < after.len() implies #[trigger] has_place(after, i) by {
        assert(after.contains(after[i]));
        assert(before.contains(after[i]));
        let k = choose|k: int| 0 <= k < before.len() && before[k] == after[i];
        assert(has_place(before, k));
        let parent = choose|parent: Seq<char>| #[trigger] stands_in(before, before[k], parent);
        if parent.len() > 0 {
            let j = choose|j: int|
                0 <= j < before.len() && (#[trigger] before[j]).complete_path == Some(parent);
            assert(before.contains(before[j]));
            let m = choose|m: int| 0 <= m < after.len() && after[m] == before[j];
            assert(after[m].complete_path == Some(parent));
        }
        assert(stands_in(after, after[i], parent));
    }
    assert forall|i: int, j: int| 0 <= i < j < after.len() implies (
    #[trigger] after[i]).complete_path != (#[trigger] after[j]).complete_path by {
        if after[i].complete_path == after[j].complete_path {
            let path = after[i].complete_path;
            lemma_two_with_path(after, i, j);
            lemma_one_with_path(before, path);
            assert(with_path(after, path) == with_path(before, path));
        }
    }
}

proof fn lemma_complete_insertable(before: Seq<RoomView>, after: Seq<RoomView>)
    requires
        is_complete(before),
        is_stable_sort(before, after),
    ensures
        is_insertable(after),
{
    lemma_sorted_complete(before, after);
    assert forall|i: int| 0 <= i < after.len() implies is_placeable(#[trigger] after[i]) by {
        lemma_path_is_joined(after, i);
    }
    assert forall|i: int, j: int| 0 <= i < j < after.len() implies room_parts(#[trigger] after[i])
        != room_parts(#[trigger] after[j]) by {
        lemma_path_is_joined(after, i);
        lemma_path_is_joined(after, j);
        assert(after[i].complete_path != after[j].complete_path);
    }
    assert forall|i: int| 0 <= i < after.len() implies #[trigger] comes_behind_parent(after, i) by {
        let room = after[i];
        assert(has_place(after, i));
        let parent = choose|parent: Seq<char>| #[trigger] stands_in(after, after[i], parent);
        law_parts_of_child(parent, room.name);
        assert(room_parts(room).drop_last() =~= parts_of(parent));
        if parent.len() == 0 {
            assert(parent =~= Seq::<char>::empty());
            assert(parts_of(parent).len() == 0);
        } else {
            let j = choose|j: int|
                0 <= j < after.len() && (#[trigger] after[j]).complete_path == Some(parent);
            let more = seq!['/'] + room.name;
            assert(parent + seq!['/'] + room.name =~= parent + more);
            law_prefix_first(parent, more);
            if j >= i {
                assert(path_le(after[i].complete_path, after[j].complete_path));
            }
            assert(room_parts(after[j]) == room_parts(room).drop_last());
        }
    }
}

/// The tree of a complete export holds exactly the exported rooms, each at its
/// path, and no room is left out, in whatever order the rooms came in.
pub proof fn law_complete_export(rooms: Seq<RoomView>, sorted: Seq<RoomView>)
    requires
        is_complete(rooms),
        is_stable_sort(rooms, sorted),
    ensures
        holds_all(tree_of(sorted), rooms),
        tree_errors(sorted).len() == 0,
{
    lemma_sorted_complete(rooms, sorted);
    lemma_complete_insertable(rooms, sorted);
    law_tree_holds_all(sorted);
    let tree = tree_of(sorted);
    assert forall|i: int| 0 <= i < rooms.len() implies is_in_place(tree, #[trigger] rooms[i]) by {
        assert(rooms.contains(rooms[i]));
        let k = choose|k: int| 0 <= k < sorted.len() && sorted[k] == rooms[i];
        assert(is_in_place(tree, sorted[k]));
    }
    assert forall|path: Seq<Seq<char>>| #[trigger] room_at(tree, path) is Some implies stands_among(
        rooms,
        rooms.len() as int,
        path,
    ) by {
        let k = choose|k: int| 0 <= k < sorted.len() && room_parts(#[trigger] sorted[k]) == path;
        assert(sorted.contains(sorted[k]));
        assert(rooms.contains(sorted[k]));
        let i = choose|i: int| 0 <= i < rooms.len() && rooms[i] == sorted[k];
        assert(room_parts(rooms[i]) == path);
    }
}

// ---------------------------------------------------------------- counting

proof fn lemma_replaced_count(rooms: Seq<RoomView>, i: int, room: RoomView)
    requires
        0 <= i < rooms.len(),
    ensures
        preorder_all(rooms.update(i, room)).len() + preorder(rooms[i]).len() == preorder_all(
            rooms,
        ).len() + preorder(room).len(),
{
    let after = rooms.update(i, room);
    lemma_preorder_all_split(rooms, i + 1);
    lemma_preorder_all_split(after, i + 1);
    lemma_preorder_all_take(rooms, i);
    lemma_preorder_all_take(after, i);
    assert(after.take(i) =~= rooms.take(i));
    assert(after.subrange(i + 1, after.len() as int) =~= rooms.subrange(
        i + 1,
        rooms.len() as int,
    ));
}

proof fn lemma_inserted_count(rooms: Seq<RoomView>, path: Seq<Seq<char>>, room: RoomView)
    requires
        room.sub_rooms is None,
    ensures
        preorder_all(tree_with(rooms, path, room)).len() == preorder_all(rooms).len() + (
        if insert_error(rooms, path) is None {
            1nat
        } else {
            0nat
        }),
    decreases path.len(),
{
    if path.len() == 1 {
        let after = rooms.push(room);
        assert(after.drop_last() =~= rooms);
        assert(preorder(room).len() == 1);
    } else if path.len() > 1 {
        lemma_names(rooms, path[0]);
        if let Some(i) = first_position(names(rooms), path[0]) {
            let below = sub_rooms_of(rooms[i]);
            let parent = RoomView {
                sub_rooms: Some(tree_with(below, rest_of(path), room)),
                ..rooms[i]
            };
            lemma_inserted_count(below, rest_of(path), room);
            lemma_replaced_count(rooms, i, parent);
            lemma_preorder(rooms[i]);
            lemma_preorder(parent);
        }
    }
}

/// Every room with a path is either in the tree or has an error: none is left
/// out without a word.
pub proof fn law_no_room_is_lost(rooms: Seq<RoomView>)
    requires
        forall|i: int|
            0 <= i < rooms.len() ==> (#[trigger] rooms[i]).complete_path is Some
                && rooms[i].sub_rooms is None,
    ensures
        preorder_all(tree_of(rooms)).len() + tree_errors(rooms).len() == rooms.len(),
    decreases rooms.len(),
{
    if rooms.len() > 0 {
        let front = rooms.drop_last();
        assert forall|i: int| 0 <= i < front.len() implies (
        #[trigger] front[i]).complete_path is Some && front[i].sub_rooms is None by {
            assert(front[i] == rooms[i]);
        }
        law_no_room_is_lost(front);
        let room = rooms[rooms.len() - 1];
        lemma_inserted_count(tree_of(front), parts_of(room.complete_path->0), room);
    }
}

}
