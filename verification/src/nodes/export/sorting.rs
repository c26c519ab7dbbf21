//! Rooms in the order of their paths.
use vstd::prelude::*;
use crate::nodes::models::{rooms_view, Room, RoomView};
use crate::paths::{law_path_le_total, law_path_le_transitive, path_le, path_not_after};

verus! {

/// Whether rooms are in the order of their paths.
pub open spec fn is_sorted(rooms: Seq<RoomView>) -> bool {
    forall|i: int, j: int|
        0 <= i <= j < rooms.len() ==> path_le(
            #[trigger] rooms[i].complete_path,
            #[trigger] rooms[j].complete_path,
        )
}

/// The rooms with a path, in the order in which they are listed.
pub open spec fn with_path(rooms: Seq<RoomView>, path: Option<Seq<char>>) -> Seq<RoomView>
    decreases rooms.len(),
{
    if rooms.len() == 0 {
        Seq::empty()
    } else if rooms.last().complete_path == path {
        with_path(rooms.drop_last(), path).push(rooms.last())
    } else {
        with_path(rooms.drop_last(), path)
    }
}

/// Whether a list holds the rooms of another one in the order of their paths.
/// Rooms with the same path keep their order.
pub open spec fn is_stable_sort(before: Seq<RoomView>, after: Seq<RoomView>) -> bool {
    &&& is_sorted(after)
    &&& forall|path: Option<Seq<char>>| #[trigger]
        with_path(after, path) == with_path(before, path)
}

proof fn lemma_with_path_concat(a: Seq<RoomView>, b: Seq<RoomView>, path: Option<Seq<char>>)
    ensures
        with_path(a + b, path) == with_path(a, path) + with_path(b, path),
    decreases b.len(),
{
    if b.len() == 0 {
        assert(a + b =~= a);
        assert(with_path(a, path) + with_path(b, path) =~= with_path(a, path));
    } else {
        lemma_with_path_concat(a, b.drop_last(), path);
        assert((a + b).drop_last() =~= a + b.drop_last());
        assert((a + b).last() == b.last());
        assert(with_path(a + b, path) =~= with_path(a, path) + with_path(b, path));
    }
}

proof fn lemma_without_path(rooms: Seq<RoomView>, path: Option<Seq<char>>)
    requires
        forall|i: int| 0 <= i < rooms.len() ==> (#[trigger] rooms[i]).complete_path != path,
    ensures
        with_path(rooms, path) == Seq::<RoomView>::empty(),
    decreases rooms.len(),
{
    if rooms.len() > 0 {
        let front = rooms.drop_last();
        assert forall|i: int| 0 <= i < front.len() implies (#[trigger] front[i]).complete_path
            != path by {
            assert(front[i] == rooms[i]);
        }
        lemma_without_path(front, path);
        assert(rooms[rooms.len() - 1].complete_path != path);
    }
}

/// A room is among the rooms with its path exactly if it is listed.
pub proof fn lemma_with_path_contains(rooms: Seq<RoomView>, room: RoomView)
    ensures
        with_path(rooms, room.complete_path).contains(room) <==> rooms.contains(room),
    decreases rooms.len(),
{
    let found = with_path(rooms, room.complete_path);
    if rooms.len() > 0 {
        let front = rooms.drop_last();
        let before = with_path(front, room.complete_path);
        lemma_with_path_contains(front, room);
        if front.contains(room) {
            let i = choose|i: int| 0 <= i < front.len() && front[i] == room;
            assert(rooms[i] == room);
            let k = choose|k: int| 0 <= k < before.len() && before[k] == room;
            assert(found[k] == room);
        }
        if rooms.last() == room {
            assert(rooms[rooms.len() - 1] == room);
            assert(found[found.len() - 1] == room);
        }
        if rooms.contains(room) {
            let i = choose|i: int| 0 <= i < rooms.len() && rooms[i] == room;
            if i < front.len() {
                assert(front[i] == room);
            }
        }
        if found.contains(room) {
            let k = choose|k: int| 0 <= k < found.len() && found[k] == room;
            if k < before.len() {
                assert(before[k] == room);
            }
        }
    }
}

/// Two rooms of a list with the same path are both among the rooms with that
/// path.
pub proof fn lemma_two_with_path(rooms: Seq<RoomView>, i: int, j: int)
    requires
        0 <= i < j < rooms.len(),
        rooms[i].complete_path == rooms[j].complete_path,
    ensures
        with_path(rooms, rooms[i].complete_path).len() >= 2,
{
    let path = rooms[i].complete_path;
    let a = rooms.take(j);
    let b = rooms.subrange(j, rooms.len() as int);
    lemma_with_path_concat(a, b, path);
    assert(a + b =~= rooms);
    lemma_with_path_contains(a, rooms[i]);
    assert(a[i] == rooms[i]);
    lemma_with_path_contains(b, rooms[j]);
    assert(b[0] == rooms[j]);
    assert(with_path(a, path).len() > 0);
    assert(with_path(b, path).len() > 0);
}

/// Where no two rooms of a list have a path in common, at most one has it.
pub proof fn lemma_one_with_path(rooms: Seq<RoomView>, path: Option<Seq<char>>)
    requires
        forall|i: int, j: int|
            0 <= i < j < rooms.len() ==> (#[trigger] rooms[i]).complete_path != path || (
            #[trigger] rooms[j]).complete_path != path,
    ensures
        with_path(rooms, path).len() <= 1,
    decreases rooms.len(),
{
    if rooms.len() > 0 {
        let front = rooms.drop_last();
        assert forall|i: int, j: int| 0 <= i < j < front.len() implies (
        #[trigger] front[i]).complete_path != path || (#[trigger] front[j]).complete_path
            != path by {
            assert(front[i] == rooms[i] && front[j] == rooms[j]);
        }
        lemma_one_with_path(front, path);
        if rooms.last().complete_path == path {
            assert forall|i: int| 0 <= i < front.len() implies (#[trigger] front[i]).complete_path
                != path by {
                assert(front[i] == rooms[i]);
                assert(rooms[rooms.len() - 1].complete_path == path);
            }
            lemma_without_path(front, path);
        }
    }
}

/// The rooms with a path are listed, and have the path.
pub proof fn lemma_with_path_listed(rooms: Seq<RoomView>, path: Option<Seq<char>>, k: int)
    requires
        0 <= k < with_path(rooms, path).len(),
    ensures
        with_path(rooms, path)[k].complete_path == path,
        rooms.contains(with_path(rooms, path)[k]),
    decreases rooms.len(),
{
    let front = rooms.drop_last();
    let before = with_path(front, path);
    if k < before.len() {
        lemma_with_path_listed(front, path, k);
        let i = choose|i: int| 0 <= i < front.len() && front[i] == before[k];
        assert(rooms[i] == front[i]);
    } else {
        assert(rooms[rooms.len() - 1] == with_path(rooms, path)[k]);
    }
}

/// Sorting keeps the rooms of a list.
pub proof fn lemma_sorted_contains(before: Seq<RoomView>, after: Seq<RoomView>, room: RoomView)
    requires
        is_stable_sort(before, after),
    ensures
        before.contains(room) <==> after.contains(room),
{
    lemma_with_path_contains(before, room);
    lemma_with_path_contains(after, room);
    assert(with_path(after, room.complete_path) == with_path(before, room.complete_path));
}

/// There is only one such order.
pub proof fn law_one_stable_sort(before: Seq<RoomView>, a: Seq<RoomView>, b: Seq<RoomView>)
    requires
        is_stable_sort(before, a),
        is_stable_sort(before, b),
    ensures
        a == b,
{
    assert forall|path: Option<Seq<char>>| #[trigger] with_path(a, path) == with_path(b, path) by {
        assert(with_path(a, path) == with_path(before, path));
        assert(with_path(b, path) == with_path(before, path));
    }
    lemma_same_sorted(a, b);
}

/// Sorted lists with the same rooms for every path are the same.
pub proof fn lemma_same_sorted(a: Seq<RoomView>, b: Seq<RoomView>)
    requires
        is_sorted(a),
        is_sorted(b),
        forall|path: Option<Seq<char>>| #[trigger] with_path(a, path) == with_path(b, path),
    ensures
        a == b,
    decreases a.len(),
{
    if a.len() == 0 {
        if b.len() > 0 {
            assert(with_path(a, b.last().complete_path) == with_path(b, b.last().complete_path));
        }
        assert(a =~= b);
    } else {
        let p = a.last().complete_path;
        assert(with_path(a, p) == with_path(b, p));
        if b.len() == 0 {
            assert(false);
        }
        let q = b.last().complete_path;
        assert(with_path(a, q) == with_path(b, q));
        lemma_with_path_contains(a, a.last());
        assert(a[a.len() - 1] == a.last());
        assert(a.contains(a.last()));
        assert(with_path(b, p).contains(a.last()));
        lemma_with_path_contains(b, a.last());
        let i = choose|i: int| 0 <= i < b.len() && b[i] == a.last();
        assert(path_le(b[i].complete_path, b[b.len() - 1].complete_path));
        lemma_with_path_contains(b, b.last());
        assert(b[b.len() - 1] == b.last());
        assert(b.contains(b.last()));
        assert(with_path(a, q).contains(b.last()));
        lemma_with_path_contains(a, b.last());
        let j = choose|j: int| 0 <= j < a.len() && a[j] == b.last();
        assert(path_le(a[j].complete_path, a[a.len() - 1].complete_path));
        law_path_le_total(p, q);
        assert(p == q);
        assert(with_path(a, p).last() == a.last());
        assert(with_path(b, p).last() == b.last());
        assert(a.last() == b.last());
        let x = a.drop_last();
        let y = b.drop_last();
        assert forall|path: Option<Seq<char>>| #[trigger] with_path(x, path) == with_path(
            y,
            path,
        ) by {
            assert(with_path(a, path) == with_path(b, path));
            if path == p {
                assert(with_path(a, path).drop_last() =~= with_path(x, path));
                assert(with_path(b, path).drop_last() =~= with_path(y, path));
            }
        }
        lemma_same_sorted(x, y);
        assert(a =~= x.push(a.last()));
        assert(b =~= y.push(b.last()));
    }
}

/// Puts a room behind all rooms of a sorted list that do not come after it.
fn insert_sorted(rooms: &mut Vec<Room>, room: Room)
    requires
        is_sorted(rooms_view(old(rooms)@)),
    ensures
        is_sorted(rooms_view(final(rooms)@)),
        forall|path: Option<Seq<char>>| #[trigger]
            with_path(rooms_view(final(rooms)@), path) == with_path(
                rooms_view(old(rooms)@).push(room@),
                path,
            ),
{
    let ghost before = rooms_view(rooms@);
    let ghost new = room@;
    let mut at: usize = rooms.len();
    while at > 0 && !path_not_after(&rooms[at - 1].complete_path, &room.complete_path)
        invariant
            at <= rooms.len(),
            before == rooms_view(rooms@),
            new == room@,
            forall|j: int|
                at <= j < before.len() ==> !path_le(
                    (#[trigger] before[j]).complete_path,
                    new.complete_path,
                ),
        ensures
            at <= rooms.len(),
            forall|j: int|
                at <= j < before.len() ==> !path_le(
                    (#[trigger] before[j]).complete_path,
                    new.complete_path,
                ),
            at > 0 ==> path_le(before[at - 1].complete_path, new.complete_path),
        decreases at,
    {
        assert(before[at - 1] == rooms@[at - 1]@);
        at -= 1;
    }
    rooms.insert(at, room);
    proof {
        let after = rooms_view(rooms@);
        let low = before.take(at as int);
        let high = before.subrange(at as int, before.len() as int);
        assert(after =~= before.insert(at as int, new));
        assert(after =~= low + (seq![new] + high));
        assert(before =~= low + high);
        assert forall|path: Option<Seq<char>>| #[trigger] with_path(after, path) == with_path(
            before.push(new),
            path,
        ) by {
            lemma_with_path_concat(low, seq![new] + high, path);
            lemma_with_path_concat(seq![new], high, path);
            lemma_with_path_concat(low, high, path);
            assert(before.push(new).drop_last() =~= before);
            assert(seq![new].drop_last() =~= Seq::<RoomView>::empty());
            assert(with_path(seq![new].drop_last(), path) =~= Seq::<RoomView>::empty());
            if path == new.complete_path {
                assert forall|i: int| 0 <= i < high.len() implies (
                #[trigger] high[i]).complete_path != path by {
                    assert(high[i] == before[at + i]);
                    law_path_le_total(new.complete_path, new.complete_path);
                }
                lemma_without_path(high, path);
                assert(with_path(seq![new], path) =~= seq![new]);
                assert(with_path(after, path) =~= with_path(low, path).push(new));
                assert(with_path(before, path) =~= with_path(low, path));
            } else {
                assert(with_path(seq![new], path) =~= Seq::<RoomView>::empty());
                assert(with_path(after, path) =~= with_path(before, path));
            }
        }
        assert forall|i: int, j: int| 0 <= i <= j < after.len() implies path_le(
            #[trigger] after[i].complete_path,
            #[trigger] after[j].complete_path,
        ) by {
            let x = if i < at { i } else { i - 1 };
            let y = if j < at { j } else { j - 1 };
            if i == at && j == at {
                law_path_le_total(new.complete_path, new.complete_path);
            } else if i == at {
                assert(after[j] == before[y]);
                assert(!path_le(before[y].complete_path, new.complete_path));
                law_path_le_total(before[y].complete_path, new.complete_path);
            } else if j == at {
                assert(after[i] == before[x]);
                assert(path_le(before[x].complete_path, before[at - 1].complete_path));
                law_path_le_transitive(
                    before[x].complete_path,
                    before[at - 1].complete_path,
                    new.complete_path,
                );
            } else {
                assert(after[i] == before[x] && after[j] == before[y]);
                assert(path_le(before[x].complete_path, before[y].complete_path));
            }
        }
    }
}

/// The rooms of a list in the order of their paths. Rooms with the same path
/// keep their order.
pub fn sort_by_path(rooms: &Vec<Room>) -> (sorted: Vec<Room>)
    ensures
        is_stable_sort(rooms_view(rooms@), rooms_view(sorted@)),
{
    let ghost all = rooms_view(rooms@);
    let mut sorted: Vec<Room> = Vec::new();
    let mut i: usize = 0;
    while i < rooms.len()
        invariant
            i <= rooms.len(),
            all == rooms_view(rooms@),
            is_stable_sort(all.take(i as int), rooms_view(sorted@)),
        decreases rooms.len() - i,
    {
        let ghost before = rooms_view(sorted@);
        insert_sorted(&mut sorted, rooms[i].clone());
        proof {
            let new = all[i as int];
            assert(new == rooms@[i as int]@);
            assert(all.take(i + 1).drop_last() =~= all.take(i as int));
            assert forall|path: Option<Seq<char>>| #[trigger]
                with_path(rooms_view(sorted@), path) == with_path(all.take(i + 1), path) by {
                assert(with_path(rooms_view(sorted@), path) == with_path(before.push(new), path));
                assert(before.push(new).drop_last() =~= before);
                assert(with_path(before, path) == with_path(all.take(i as int), path));
            }
        }
        i += 1;
    }
    assert(all.take(i as int) =~= all);
    sorted
}

/// The rooms with a path are all those of a list that have it, in their order.
pub proof fn law_rooms_with_path(rooms: Seq<RoomView>, path: Option<Seq<char>>)
    ensures
        with_path(rooms, path) == rooms.filter(|room: RoomView| room.complete_path == path),
    decreases rooms.len(),
{
    reveal(Seq::filter);
    let has_path = |room: RoomView| room.complete_path == path;
    if rooms.len() > 0 {
        law_rooms_with_path(rooms.drop_last(), path);
    }
    assert(with_path(rooms, path) =~= rooms.filter(has_path));
}

/// Whether the rooms with a path are the same in two lists, in the same order.
pub open spec fn keeps_rooms_at(
    before: Seq<RoomView>,
    after: Seq<RoomView>,
    path: Option<Seq<char>>,
) -> bool {
    after.filter(|room: RoomView| room.complete_path == path) == before.filter(
        |room: RoomView| room.complete_path == path,
    )
}

/// A list is another one sorted exactly if it is in the order of the paths and
/// the rooms with each path are those of the other list, in the same order.
pub proof fn law_what_sorting_means(before: Seq<RoomView>, after: Seq<RoomView>)
    ensures
        is_stable_sort(before, after) <==> {
            &&& forall|i: int, j: int|
                0 <= i <= j < after.len() ==> path_le(
                    (#[trigger] after[i]).complete_path,
                    (#[trigger] after[j]).complete_path,
                )
            &&& forall|path: Option<Seq<char>>| #[trigger] keeps_rooms_at(before, after, path)
        },
{
    assert forall|path: Option<Seq<char>>| #[trigger]
        keeps_rooms_at(before, after, path) <==> with_path(after, path) == with_path(
            before,
            path,
        ) by {
        law_rooms_with_path(before, path);
        law_rooms_with_path(after, path);
    }
    if is_stable_sort(before, after) {
        assert forall|path: Option<Seq<char>>| #[trigger] keeps_rooms_at(before, after, path) by {
            assert(with_path(after, path) == with_path(before, path));
        }
    }
    if forall|path: Option<Seq<char>>| #[trigger] keeps_rooms_at(before, after, path) {
        assert forall|path: Option<Seq<char>>| #[trigger] with_path(after, path) == with_path(
            before,
            path,
        ) by {
            assert(keeps_rooms_at(before, after, path));
        }
    }
}

}
