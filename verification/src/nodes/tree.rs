//! Room trees: every room below a list of rooms, in the order in which a walk
//! meets them.
use vstd::prelude::*;
use crate::nodes::models::{lemma_sub_rooms_view, rooms_view, sub_rooms_of, Room, RoomView};

verus! {

/// A room and all rooms below it, each before its sub rooms.
pub open spec fn preorder(room: RoomView) -> Seq<RoomView>
    decreases room,
{
    match room.sub_rooms {
        Some(rooms) => seq![room] + preorder_all(rooms),
        None => seq![room],
    }
}

/// All rooms of a list and below it, in the order of the list.
pub open spec fn preorder_all(rooms: Seq<RoomView>) -> Seq<RoomView>
    decreases rooms,
{
    if rooms.len() == 0 {
        Seq::empty()
    } else {
        preorder_all(rooms.drop_last()) + preorder(rooms.last())
    }
}

/// The walk over a room is the room itself and the walk over its sub rooms.
pub proof fn lemma_preorder(room: RoomView)
    ensures
        preorder(room) == seq![room] + preorder_all(sub_rooms_of(room)),
{
    if room.sub_rooms is None {
        assert(preorder_all(Seq::<RoomView>::empty()) =~= Seq::<RoomView>::empty());
        assert(seq![room] + Seq::<RoomView>::empty() =~= seq![room]);
    }
}

/// The walk over two lists is the walk over one and then over the other.
pub proof fn lemma_preorder_all_concat(a: Seq<RoomView>, b: Seq<RoomView>)
    ensures
        preorder_all(a + b) == preorder_all(a) + preorder_all(b),
    decreases b.len(),
{
    if b.len() == 0 {
        assert(a + b =~= a);
        assert(preorder_all(a) + preorder_all(b) =~= preorder_all(a));
    } else {
        lemma_preorder_all_concat(a, b.drop_last());
        assert((a + b).drop_last() =~= a + b.drop_last());
        assert((a + b).last() == b.last());
        assert(preorder_all(a) + preorder_all(b) =~= (preorder_all(a) + preorder_all(b.drop_last()))
            + preorder(b.last()));
    }
}

/// One more room of a list adds its walk to the walk so far.
pub proof fn lemma_preorder_all_take(rooms: Seq<RoomView>, n: int)
    requires
        0 <= n < rooms.len(),
    ensures
        preorder_all(rooms.take(n + 1)) == preorder_all(rooms.take(n)) + preorder(rooms[n]),
{
    assert(rooms.take(n + 1).drop_last() =~= rooms.take(n));
}

/// The walk over a list starts with the walk over any front part of it.
pub proof fn lemma_preorder_all_split(rooms: Seq<RoomView>, n: int)
    requires
        0 <= n <= rooms.len(),
    ensures
        preorder_all(rooms) == preorder_all(rooms.take(n)) + preorder_all(
            rooms.subrange(n, rooms.len() as int),
        ),
{
    lemma_preorder_all_concat(rooms.take(n), rooms.subrange(n, rooms.len() as int));
    assert(rooms.take(n) + rooms.subrange(n, rooms.len() as int) =~= rooms);
}

/// Whether a room is met in the walk over one room of a list.
pub open spec fn is_met(rooms: Seq<RoomView>, i: int, room: RoomView) -> bool {
    0 <= i < rooms.len() && preorder(rooms[i]).contains(room)
}

/// The walk over a list meets what the walks over its rooms meet.
pub proof fn lemma_met_in_all(rooms: Seq<RoomView>, room: RoomView)
    ensures
        preorder_all(rooms).contains(room) <==> exists|i: int| #[trigger] is_met(rooms, i, room),
    decreases rooms.len(),
{
    if rooms.len() > 0 {
        let front = rooms.drop_last();
        let before = preorder_all(front);
        let last = preorder(rooms.last());
        let all = preorder_all(rooms);
        assert(all == before + last);
        lemma_met_in_all(front, room);
        if all.contains(room) {
            let k = choose|k: int| 0 <= k < all.len() && all[k] == room;
            if k < before.len() {
                assert(before[k] == room);
                let i = choose|i: int| #[trigger] is_met(front, i, room);
                assert(front[i] == rooms[i]);
                assert(is_met(rooms, i, room));
            } else {
                assert(last[k - before.len()] == room);
                assert(is_met(rooms, rooms.len() - 1, room));
            }
        }
        if exists|i: int| #[trigger] is_met(rooms, i, room) {
            let i = choose|i: int| #[trigger] is_met(rooms, i, room);
            if i < front.len() {
                assert(front[i] == rooms[i]);
                assert(is_met(front, i, room));
                let k = choose|k: int| 0 <= k < before.len() && before[k] == room;
                assert(all[k] == room);
            } else {
                let k = choose|k: int| 0 <= k < last.len() && last[k] == room;
                assert(all[before.len() + k] == room);
            }
        }
    }
}

/// The walk over a room meets the room and what the walk over its sub rooms
/// meets.
pub proof fn lemma_met(top: RoomView, room: RoomView)
    ensures
        preorder(top).contains(room) <==> room == top || preorder_all(sub_rooms_of(top)).contains(
            room,
        ),
{
    lemma_preorder(top);
    let below = preorder_all(sub_rooms_of(top));
    let all = preorder(top);
    assert(all == seq![top] + below);
    assert(all[0] == top);
    if below.contains(room) {
        let k = choose|k: int| 0 <= k < below.len() && below[k] == room;
        assert(all[k + 1] == room);
    }
    if all.contains(room) {
        let k = choose|k: int| 0 <= k < all.len() && all[k] == room;
        if k > 0 {
            assert(below[k - 1] == room);
        }
    }
}

/// How many rooms there are in a list of rooms and below it.
pub fn count_rooms(rooms: &Vec<Room>) -> (count: u64)
    requires
        preorder_all(rooms_view(rooms@)).len() <= u64::MAX,
    ensures
        count == preorder_all(rooms_view(rooms@)).len(),
    decreases rooms,
{
    broadcast use lemma_sub_rooms_view;

    let ghost all = rooms_view(rooms@);
    let mut count: u64 = 0;
    let mut i: usize = 0;
    assert(preorder_all(all.take(0)) =~= Seq::<RoomView>::empty());
    while i < rooms.len()
        invariant
            i <= rooms.len(),
            all == rooms_view(rooms@),
            preorder_all(all).len() <= u64::MAX,
            count == preorder_all(all.take(i as int)).len(),
        decreases rooms.len() - i,
    {
        assert(decreases_to!(rooms => rooms@));
        assert(decreases_to!(rooms@ => rooms@[i as int]));
        let room = &rooms[i];
        proof {
            lemma_preorder_all_take(all, i as int);
            lemma_preorder_all_split(all, i + 1);
            lemma_preorder(all[i as int]);
        }
        count = count + 1;
        if let Some(sub_rooms) = &room.sub_rooms {
            assert(room@.sub_rooms == Some(rooms_view(sub_rooms@)));
            count = count + count_rooms(sub_rooms);
        } else {
            assert(room@.sub_rooms is None);
            assert(preorder_all(sub_rooms_of(room@)) =~= Seq::<RoomView>::empty());
        }
        i += 1;
    }
    assert(all.take(i as int) =~= all);
    count
}

// ---------------------------------------------------------------- laws

/// A walk over rooms meets each room before the rooms in it, and these before the
/// next room of the list.
pub proof fn law_walk_order(rooms: Seq<RoomView>, room: RoomView)
    ensures
        preorder_all(Seq::<RoomView>::empty()) == Seq::<RoomView>::empty(),
        preorder_all(rooms.push(room)) == preorder_all(rooms) + seq![room] + (
        match room.sub_rooms {
            Some(below) => preorder_all(below),
            None => Seq::empty(),
        }),
{
    assert(rooms.push(room).drop_last() =~= rooms);
    assert(rooms.push(room).last() == room);
    lemma_preorder(room);
    let below = match room.sub_rooms {
        Some(below) => preorder_all(below),
        None => Seq::empty(),
    };
    assert(preorder(room) =~= seq![room] + below);
    assert(preorder_all(rooms.push(room)) =~= preorder_all(rooms) + seq![room] + below);
}

}
