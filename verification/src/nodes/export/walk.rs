//! Which rooms a walk through all rooms below a room visits.
use vstd::prelude::*;
use crate::nodes::export::models::{visits, ListedRoom, VisitView};

verus! {

// ---------------------------------------------------------------- the walk

/// The rooms that stand directly in a room, or at the top.
pub type Listing = spec_fn(Option<u64>) -> Seq<ListedRoom>;

/// The rooms that a listing has directly in a room, or at the top.
pub open spec fn rooms_in(listing: Listing, room: Option<u64>) -> Seq<ListedRoom> {
    listing(room)
}

/// The ids of the rooms that are visited below a room: each room to visit, and
/// then the rooms below it, down to a depth. A name is left out directly below
/// the room only.
pub open spec fn visited_below(
    listing: Listing,
    room: Option<u64>,
    left_out: Option<Seq<char>>,
    depth: nat,
) -> Seq<u64>
    decreases depth, 0nat,
{
    if depth == 0 {
        Seq::empty()
    } else {
        visited_through(listing, visits(rooms_in(listing, room), left_out), (depth - 1) as nat)
    }
}

/// The ids of rooms to visit, each with the rooms below it, down to a depth.
pub open spec fn visited_through(listing: Listing, list: Seq<VisitView>, depth: nat) -> Seq<u64>
    decreases depth, list.len() + 1,
{
    if list.len() == 0 {
        Seq::empty()
    } else {
        visited_through(listing, list.drop_last(), depth) + visited_at(listing, list.last(), depth)
    }
}

/// The id of a room to visit and those of the rooms below it, down to a depth.
pub open spec fn visited_at(listing: Listing, visit: VisitView, depth: nat) -> Seq<u64>
    decreases depth, 1nat,
{
    seq![visit.id.0] + visited_below(listing, Some(visit.id.0), None, depth)
}

/// The ids of all rooms that a walk visits: the room it starts at, if it starts
/// at one, and the rooms below.
pub open spec fn visited(
    listing: Listing,
    start: Option<u64>,
    left_out: Option<Seq<char>>,
    depth: nat,
) -> Seq<u64> {
    match start {
        Some(id) => seq![id] + visited_below(listing, start, left_out, depth),
        None => visited_below(listing, start, left_out, depth),
    }
}

// ---------------------------------------------------------------- ways

/// Where a room of a way stands: in the room before it or, at the beginning, in
/// the room that the way starts from.
pub open spec fn place(start: Option<u64>, way: Seq<ListedRoom>, k: int) -> Option<u64> {
    if k == 0 {
        start
    } else {
        Some(way[k - 1].id.0)
    }
}

/// Whether a room of a way is listed where it stands.
pub open spec fn is_step(
    listing: Listing,
    start: Option<u64>,
    way: Seq<ListedRoom>,
    k: int,
) -> bool {
    rooms_in(listing, place(start, way, k)).contains(way[k])
}

/// Whether a way leads down from a room, from one room to a room in it.
pub open spec fn is_way(listing: Listing, start: Option<u64>, way: Seq<ListedRoom>) -> bool {
    &&& way.len() > 0
    &&& forall|k: int| 0 <= k < way.len() ==> #[trigger] is_step(listing, start, way, k)
}

/// The name of the rooms that are left out. Without such a name, rooms without a
/// name are left out.
pub open spec fn skipped_name(left_out: Option<Seq<char>>) -> Seq<char> {
    match left_out {
        Some(name) => name,
        None => Seq::empty(),
    }
}

/// Whether no room of a way is left out: the first one does not have the name
/// that is left out, and the others have a name.
pub open spec fn is_open(way: Seq<ListedRoom>, left_out: Option<Seq<char>>) -> bool {
    forall|k: int|
        0 <= k < way.len() ==> (#[trigger] way[k]).name@ != skipped_name(
            if k == 0 {
                left_out
            } else {
                None
            },
        )
}

/// Whether a way on which no room is left out leads down to a room.
pub open spec fn leads_to(
    listing: Listing,
    start: Option<u64>,
    left_out: Option<Seq<char>>,
    way: Seq<ListedRoom>,
    id: u64,
) -> bool {
    is_way(listing, start, way) && is_open(way, left_out) && way.last().id.0 == id
}

/// Whether no way down from a room is longer than this.
pub open spec fn has_depth(listing: Listing, start: Option<u64>, depth: nat) -> bool {
    forall|way: Seq<ListedRoom>| #[trigger] is_way(listing, start, way) ==> way.len() <= depth
}

/// Whether each room is listed in one place only.
pub open spec fn lists_once(listing: Listing) -> bool {
    forall|a: Option<u64>, i: int, b: Option<u64>, j: int|
        0 <= i < rooms_in(listing, a).len() && 0 <= j < rooms_in(listing, b).len() && (
        #[trigger] rooms_in(listing, a)[i]).id == (#[trigger] rooms_in(listing, b)[j]).id ==> a == b
            && i == j
}

proof fn lemma_joined_ways(
    listing: Listing,
    start: Option<u64>,
    a: Seq<ListedRoom>,
    b: Seq<ListedRoom>,
)
    requires
        is_way(listing, start, a),
        is_way(listing, Some(a.last().id.0), b),
    ensures
        is_way(listing, start, a + b),
        (a + b).last() == b.last(),
{
    let way = a + b;
    assert forall|k: int| 0 <= k < way.len() implies #[trigger] is_step(
        listing,
        start,
        way,
        k,
    ) by {
        if k < a.len() {
            assert(is_step(listing, start, a, k));
            assert(way[k] == a[k]);
            assert(place(start, way, k) == place(start, a, k));
        } else {
            let from = Some(a.last().id.0);
            let m = k - a.len();
            assert(is_step(listing, from, b, m));
            assert(way[k] == b[m]);
            assert(place(start, way, k) == place(from, b, m));
        }
    }
}

proof fn lemma_one_step(listing: Listing, start: Option<u64>, i: int)
    requires
        0 <= i < rooms_in(listing, start).len(),
    ensures
        is_way(listing, start, seq![rooms_in(listing, start)[i]]),
{
    let way = seq![rooms_in(listing, start)[i]];
    assert forall|k: int| 0 <= k < way.len() implies #[trigger] is_step(
        listing,
        start,
        way,
        k,
    ) by {
        assert(rooms_in(listing, start).contains(way[k]));
    }
}

proof fn lemma_shorter_way(listing: Listing, start: Option<u64>, way: Seq<ListedRoom>)
    requires
        is_way(listing, start, way),
        way.len() > 1,
    ensures
        is_way(listing, start, way.drop_last()),
        is_way(listing, Some(way[0].id.0), way.drop_first()),
{
    let front = way.drop_last();
    let back = way.drop_first();
    let from = Some(way[0].id.0);
    assert forall|k: int| 0 <= k < front.len() implies #[trigger] is_step(
        listing,
        start,
        front,
        k,
    ) by {
        assert(is_step(listing, start, way, k));
        assert(place(start, way, k) == place(start, front, k));
    }
    assert forall|k: int| 0 <= k < back.len() implies #[trigger] is_step(
        listing,
        from,
        back,
        k,
    ) by {
        assert(is_step(listing, start, way, k + 1));
        assert(place(start, way, k + 1) == place(from, back, k));
    }
}

/// A way that is walked a number of times.
spec fn repeated(way: Seq<ListedRoom>, n: nat) -> Seq<ListedRoom>
    decreases n,
{
    if n <= 1 {
        way
    } else {
        repeated(way, (n - 1) as nat) + way
    }
}

proof fn lemma_repeated(listing: Listing, id: u64, way: Seq<ListedRoom>, n: nat)
    requires
        is_way(listing, Some(id), way),
        way.last().id.0 == id,
    ensures
        is_way(listing, Some(id), repeated(way, n)),
        repeated(way, n).last().id.0 == id,
        repeated(way, n).len() >= n,
    decreases n,
{
    if n > 1 {
        let before = repeated(way, (n - 1) as nat);
        lemma_repeated(listing, id, way, (n - 1) as nat);
        lemma_joined_ways(listing, Some(id), before, way);
    }
}

proof fn lemma_no_way_back(listing: Listing, id: u64, depth: nat, way: Seq<ListedRoom>)
    requires
        has_depth(listing, Some(id), depth),
        is_way(listing, Some(id), way),
    ensures
        way.last().id.0 != id,
{
    if way.last().id.0 == id {
        lemma_repeated(listing, id, way, depth + 1);
    }
}

proof fn lemma_one_way(
    listing: Listing,
    start: Option<u64>,
    depth: nat,
    a: Seq<ListedRoom>,
    b: Seq<ListedRoom>,
)
    requires
        lists_once(listing),
        has_depth(listing, start, depth),
        is_way(listing, start, a),
        is_way(listing, start, b),
        a.last().id == b.last().id,
    ensures
        a == b,
    decreases a.len(),
{
    let m = a.len() - 1;
    let n = b.len() - 1;
    let in_a = place(start, a, m);
    let in_b = place(start, b, n);
    assert(is_step(listing, start, a, m));
    assert(is_step(listing, start, b, n));
    let i = choose|i: int|
        0 <= i < rooms_in(listing, in_a).len() && rooms_in(listing, in_a)[i] == a[m];
    let j = choose|j: int|
        0 <= j < rooms_in(listing, in_b).len() && rooms_in(listing, in_b)[j] == b[n];
    assert(rooms_in(listing, in_a)[i].id == rooms_in(listing, in_b)[j].id);
    assert(in_a == in_b && a[m] == b[n]);
    if m == 0 && n == 0 {
        assert(a =~= b);
    } else if m == 0 {
        lemma_shorter_way(listing, start, b);
        lemma_no_way_back(listing, start->0, depth, b.drop_last());
    } else if n == 0 {
        lemma_shorter_way(listing, start, a);
        lemma_no_way_back(listing, start->0, depth, a.drop_last());
    } else {
        lemma_shorter_way(listing, start, a);
        lemma_shorter_way(listing, start, b);
        assert(a.drop_last().last() == a[m - 1] && b.drop_last().last() == b[n - 1]);
        lemma_one_way(listing, start, depth, a.drop_last(), b.drop_last());
        assert(a =~= a.drop_last().push(a[m]));
        assert(b =~= b.drop_last().push(b[n]));
    }
}

// ---------------------------------------------------------------- all rooms

proof fn lemma_visit_is_listed(rooms: Seq<ListedRoom>, left_out: Option<Seq<char>>, k: int) -> (i:
    int)
    requires
        0 <= k < visits(rooms, left_out).len(),
    ensures
        0 <= i < rooms.len(),
        rooms[i].id == visits(rooms, left_out)[k].id,
        rooms[i].name@ != skipped_name(left_out),
    decreases rooms.len(),
{
    let front = rooms.drop_last();
    if k < visits(front, left_out).len() {
        lemma_visit_is_listed(front, left_out, k)
    } else {
        rooms.len() - 1
    }
}

proof fn lemma_listed_is_visited(
    rooms: Seq<ListedRoom>,
    left_out: Option<Seq<char>>,
    i: int,
) -> (k: int)
    requires
        0 <= i < rooms.len(),
        rooms[i].name@ != skipped_name(left_out),
    ensures
        0 <= k < visits(rooms, left_out).len(),
        visits(rooms, left_out)[k].id == rooms[i].id,
    decreases rooms.len(),
{
    let front = rooms.drop_last();
    if i < front.len() {
        lemma_listed_is_visited(front, left_out, i)
    } else {
        visits(front, left_out).len() as int
    }
}

/// Whether a room is visited at or below a room of a list.
spec fn is_visited_at(
    listing: Listing,
    list: Seq<VisitView>,
    k: int,
    depth: nat,
    id: u64,
) -> bool {
    0 <= k < list.len() && visited_at(listing, list[k], depth).contains(id)
}

proof fn lemma_visited_through(listing: Listing, list: Seq<VisitView>, depth: nat, id: u64)
    ensures
        visited_through(listing, list, depth).contains(id) <==> exists|k: int| #[trigger]
            is_visited_at(listing, list, k, depth, id),
    decreases list.len(),
{
    if list.len() > 0 {
        let front = list.drop_last();
        let before = visited_through(listing, front, depth);
        let last = visited_at(listing, list.last(), depth);
        let all = visited_through(listing, list, depth);
        assert(all == before + last);
        lemma_visited_through(listing, front, depth, id);
        if all.contains(id) {
            let m = choose|m: int| 0 <= m < all.len() && all[m] == id;
            if m < before.len() {
                assert(before[m] == id);
                let k = choose|k: int| #[trigger] is_visited_at(listing, front, k, depth, id);
                assert(front[k] == list[k]);
                assert(is_visited_at(listing, list, k, depth, id));
            } else {
                assert(last[m - before.len()] == id);
                assert(is_visited_at(listing, list, list.len() - 1, depth, id));
            }
        }
        if exists|k: int| #[trigger] is_visited_at(listing, list, k, depth, id) {
            let k = choose|k: int| #[trigger] is_visited_at(listing, list, k, depth, id);
            if k < front.len() {
                assert(front[k] == list[k]);
                assert(is_visited_at(listing, front, k, depth, id));
                let m = choose|m: int| 0 <= m < before.len() && before[m] == id;
                assert(all[m] == id);
            } else {
                let m = choose|m: int| 0 <= m < last.len() && last[m] == id;
                assert(all[before.len() + m] == id);
            }
        }
    }
}

proof fn lemma_visited_at(listing: Listing, visit: VisitView, depth: nat, id: u64)
    ensures
        visited_at(listing, visit, depth).contains(id) <==> id == visit.id.0 || visited_below(
            listing,
            Some(visit.id.0),
            None,
            depth,
        ).contains(id),
{
    let below = visited_below(listing, Some(visit.id.0), None, depth);
    let all = visited_at(listing, visit, depth);
    assert(all == seq![visit.id.0] + below);
    assert(all[0] == visit.id.0);
    if below.contains(id) {
        let m = choose|m: int| 0 <= m < below.len() && below[m] == id;
        assert(all[m + 1] == id);
    }
    if all.contains(id) {
        let m = choose|m: int| 0 <= m < all.len() && all[m] == id;
        if m > 0 {
            assert(below[m - 1] == id);
        }
    }
}

/// A room that is visited at or below a listed room is reached by a way through
/// that room.
proof fn lemma_way_through(
    listing: Listing,
    start: Option<u64>,
    left_out: Option<Seq<char>>,
    i: int,
    visit: VisitView,
    depth: nat,
    id: u64,
) -> (way: Seq<ListedRoom>)
    requires
        0 <= i < rooms_in(listing, start).len(),
        rooms_in(listing, start)[i].id == visit.id,
        rooms_in(listing, start)[i].name@ != skipped_name(left_out),
        visited_at(listing, visit, depth).contains(id),
    ensures
        leads_to(listing, start, left_out, way, id),
        way.len() <= depth + 1,
        way[0] == rooms_in(listing, start)[i],
    decreases depth, 1nat,
{
    let room = rooms_in(listing, start)[i];
    let first = seq![room];
    lemma_one_step(listing, start, i);
    lemma_visited_at(listing, visit, depth, id);
    if id == visit.id.0 {
        first
    } else {
        let rest = lemma_visited_has_way(listing, Some(visit.id.0), None, depth, id);
        let way = first + rest;
        lemma_joined_ways(listing, start, first, rest);
        assert forall|k: int| 0 <= k < way.len() implies (
        #[trigger] way[k]).name@ != skipped_name(
            if k == 0 {
                left_out
            } else {
                None
            },
        ) by {
            if k > 0 {
                assert(way[k] == rest[k - 1]);
            }
        }
        way
    }
}

proof fn lemma_visited_has_way(
    listing: Listing,
    start: Option<u64>,
    left_out: Option<Seq<char>>,
    depth: nat,
    id: u64,
) -> (way: Seq<ListedRoom>)
    requires
        visited_below(listing, start, left_out, depth).contains(id),
    ensures
        leads_to(listing, start, left_out, way, id),
        way.len() <= depth,
    decreases depth, 0nat,
{
    let list = visits(rooms_in(listing, start), left_out);
    let below = (depth - 1) as nat;
    lemma_visited_through(listing, list, below, id);
    let k = choose|k: int| #[trigger] is_visited_at(listing, list, k, below, id);
    let i = lemma_visit_is_listed(rooms_in(listing, start), left_out, k);
    lemma_way_through(listing, start, left_out, i, list[k], below, id)
}

proof fn lemma_way_is_visited(
    listing: Listing,
    start: Option<u64>,
    left_out: Option<Seq<char>>,
    depth: nat,
    way: Seq<ListedRoom>,
    id: u64,
)
    requires
        leads_to(listing, start, left_out, way, id),
        way.len() <= depth,
    ensures
        visited_below(listing, start, left_out, depth).contains(id),
    decreases way.len(),
{
    let list = visits(rooms_in(listing, start), left_out);
    let below = (depth - 1) as nat;
    assert(is_step(listing, start, way, 0));
    let i = choose|i: int|
        0 <= i < rooms_in(listing, start).len() && rooms_in(listing, start)[i] == way[0];
    let k = lemma_listed_is_visited(rooms_in(listing, start), left_out, i);
    lemma_visited_at(listing, list[k], below, id);
    if way.len() > 1 {
        let rest = way.drop_first();
        lemma_shorter_way(listing, start, way);
        assert forall|m: int| 0 <= m < rest.len() implies (
        #[trigger] rest[m]).name@ != skipped_name(None) by {
            assert(rest[m] == way[m + 1]);
        }
        assert(rest.last() == way.last());
        lemma_way_is_visited(listing, Some(way[0].id.0), None, below, rest, id);
    }
    assert(is_visited_at(listing, list, k, below, id));
    lemma_visited_through(listing, list, below, id);
}

/// A walk visits exactly the rooms that a way leads down to on which no room is
/// left out.
pub proof fn law_walk_visits_all(
    listing: Listing,
    start: Option<u64>,
    left_out: Option<Seq<char>>,
    depth: nat,
    id: u64,
)
    requires
        has_depth(listing, start, depth),
    ensures
        visited_below(listing, start, left_out, depth).contains(id) <==> exists|
            way: Seq<ListedRoom>,
        | #[trigger]
            leads_to(listing, start, left_out, way, id),
{
    if visited_below(listing, start, left_out, depth).contains(id) {
        let way = lemma_visited_has_way(listing, start, left_out, depth, id);
        assert(leads_to(listing, start, left_out, way, id));
    }
    if exists|way: Seq<ListedRoom>| #[trigger] leads_to(listing, start, left_out, way, id) {
        let way = choose|way: Seq<ListedRoom>| #[trigger]
            leads_to(listing, start, left_out, way, id);
        lemma_way_is_visited(listing, start, left_out, depth, way, id);
    }
}

/// A walk visits neither the rooms directly below its start that have the name to
/// leave out, nor any room below these.
pub proof fn law_walk_leaves_out(
    listing: Listing,
    start: Option<u64>,
    left_out: Option<Seq<char>>,
    depth: nat,
    way: Seq<ListedRoom>,
)
    requires
        lists_once(listing),
        has_depth(listing, start, depth),
        is_way(listing, start, way),
        way[0].name@ == skipped_name(left_out),
    ensures
        !visited_below(listing, start, left_out, depth).contains(way.last().id.0),
{
    let id = way.last().id.0;
    if visited_below(listing, start, left_out, depth).contains(id) {
        let other = lemma_visited_has_way(listing, start, left_out, depth, id);
        assert(other.last().id == way.last().id);
        lemma_one_way(listing, start, depth, way, other);
    }
}

// ---------------------------------------------------------------- each once

proof fn lemma_depth_below(listing: Listing, start: Option<u64>, depth: nat, i: int)
    requires
        has_depth(listing, start, depth),
        0 <= i < rooms_in(listing, start).len(),
    ensures
        depth > 0,
        has_depth(listing, Some(rooms_in(listing, start)[i].id.0), (depth - 1) as nat),
{
    let room = rooms_in(listing, start)[i];
    let first = seq![room];
    lemma_one_step(listing, start, i);
    assert forall|way: Seq<ListedRoom>| #[trigger]
        is_way(listing, Some(room.id.0), way) implies way.len() <= depth - 1 by {
        lemma_joined_ways(listing, start, first, way);
        assert((first + way).len() <= depth);
    }
}

proof fn lemma_visited_through_once(
    listing: Listing,
    start: Option<u64>,
    left_out: Option<Seq<char>>,
    depth: nat,
    n: nat,
)
    requires
        lists_once(listing),
        has_depth(listing, start, depth + 1),
        n <= rooms_in(listing, start).len(),
    ensures
        visited_through(
            listing,
            visits(rooms_in(listing, start).take(n as int), left_out),
            depth,
        ).no_duplicates(),
    decreases depth, n,
{
    if n > 0 {
        let all = rooms_in(listing, start);
        let m = n - 1;
        let front = all.take(m);
        let room = all[m];
        let list = visits(front, left_out);
        let before = visited_through(listing, list, depth);
        assert(all.take(n as int).drop_last() =~= front);
        assert(all.take(n as int).last() == room);
        lemma_visited_through_once(listing, start, left_out, depth, m as nat);
        if room.name@ != skipped_name(left_out) {
            let more = visits(all.take(n as int), left_out);
            let visit = more.last();
            let last = visited_at(listing, visit, depth);
            let below = visited_below(listing, Some(room.id.0), None, depth);
            assert(more.drop_last() =~= list);
            assert(visit.id == room.id);
            lemma_depth_below(listing, start, depth + 1, m);
            lemma_visited_below_once(listing, Some(room.id.0), None, depth);
            if below.contains(room.id.0) {
                let way = lemma_visited_has_way(
                    listing,
                    Some(room.id.0),
                    None,
                    depth,
                    room.id.0,
                );
                lemma_no_way_back(listing, room.id.0, depth, way);
            }
            assert(last == seq![room.id.0] + below);
            assert(last.no_duplicates()) by {
                assert forall|x: int, y: int| 0 <= x < y < last.len() implies last[x]
                    != last[y] by {
                    if x > 0 {
                        assert(last[x] == below[x - 1] && last[y] == below[y - 1]);
                    } else {
                        assert(last[y] == below[y - 1]);
                        assert(below.contains(below[y - 1]));
                    }
                }
            }
            assert forall|x: int, y: int|
                0 <= x < before.len() && 0 <= y < last.len() implies before[x] != last[y] by {
                if before[x] == last[y] {
                    let id = before[x];
                    assert(before.contains(id));
                    assert(last.contains(id));
                    lemma_visited_through(listing, list, depth, id);
                    let k = choose|k: int| #[trigger] is_visited_at(listing, list, k, depth, id);
                    let i = lemma_visit_is_listed(front, left_out, k);
                    assert(front[i] == all[i]);
                    let a = lemma_way_through(listing, start, left_out, i, list[k], depth, id);
                    let b = lemma_way_through(listing, start, left_out, m, visit, depth, id);
                    assert(a.last().id == b.last().id);
                    lemma_one_way(listing, start, depth + 1, a, b);
                    assert(rooms_in(listing, start)[i].id == rooms_in(listing, start)[m].id);
                }
            }
            let both = before + last;
            assert forall|x: int, y: int| 0 <= x < y < both.len() implies both[x] != both[y] by {
                if y < before.len() {
                    assert(both[x] == before[x] && both[y] == before[y]);
                } else if x < before.len() {
                    assert(both[x] == before[x] && both[y] == last[y - before.len()]);
                } else {
                    assert(both[x] == last[x - before.len()]);
                    assert(both[y] == last[y - before.len()]);
                }
            }
            assert(visited_through(listing, more, depth) == both);
        }
    }
}

proof fn lemma_visited_below_once(
    listing: Listing,
    start: Option<u64>,
    left_out: Option<Seq<char>>,
    depth: nat,
)
    requires
        lists_once(listing),
        has_depth(listing, start, depth),
    ensures
        visited_below(listing, start, left_out, depth).no_duplicates(),
    decreases depth, 0nat,
{
    if depth > 0 {
        let all = rooms_in(listing, start);
        lemma_visited_through_once(listing, start, left_out, (depth - 1) as nat, all.len());
        assert(all.take(all.len() as int) =~= all);
    }
}

/// A walk visits no room twice, where each room is listed in one place only.
pub proof fn law_walk_visits_once(
    listing: Listing,
    start: Option<u64>,
    left_out: Option<Seq<char>>,
    depth: nat,
)
    requires
        lists_once(listing),
        has_depth(listing, start, depth),
    ensures
        visited(listing, start, left_out, depth).no_duplicates(),
{
    let below = visited_below(listing, start, left_out, depth);
    lemma_visited_below_once(listing, start, left_out, depth);
    if let Some(id) = start {
        let all = visited(listing, start, left_out, depth);
        if below.contains(id) {
            let way = lemma_visited_has_way(listing, start, left_out, depth, id);
            lemma_no_way_back(listing, id, depth, way);
        }
        assert forall|x: int, y: int| 0 <= x < y < all.len() implies all[x] != all[y] by {
            assert(all[y] == below[y - 1]);
            if x > 0 {
                assert(all[x] == below[x - 1]);
            } else {
                assert(below.contains(below[y - 1]));
            }
        }
    }
}

}
