//! Taking back the rights that the current user had while rooms were created.
use std::collections::HashMap;
use vstd::prelude::*;
use crate::maps::{keys_of, lists_keys};
use crate::nodes::ids::elements;
use crate::nodes::import::rooms::{
    adjustment, first_permissions, is_admin, last_permissions, with_adjustment, with_admin,
    with_user_adjustment,
};
use crate::nodes::models::{NodePermissions, RoomId, RoomView, UserRoomPermission};

verus! {

/// How many requests run at the same time.
pub const MAX_CONCURRENT: usize = 2;

/// The requests that set the permissions of the current user right.
#[derive(Debug)]
pub struct AdjustmentRequests {
    /// Rooms in which the user gets other permissions.
    pub updates: Vec<(RoomId, UserRoomPermission)>,
    /// Rooms that the user leaves.
    pub deletes: Vec<RoomId>,
}

/// The updates for rooms with permissions to set, in the order of the keys.
pub open spec fn updates_for(
    keys: Seq<u64>,
    adjustments: Map<u64, Option<NodePermissions>>,
    user_id: u64,
) -> Seq<(RoomId, UserRoomPermission)>
    decreases keys.len(),
{
    if keys.len() == 0 {
        Seq::empty()
    } else {
        let before = updates_for(keys.drop_last(), adjustments, user_id);
        match adjustments[keys.last()] {
            Some(permissions) => before.push(
                (RoomId(keys.last()), UserRoomPermission { id: user_id, permissions }),
            ),
            None => before,
        }
    }
}

/// The rooms without permissions to set, in the order of the keys.
pub open spec fn deletes_for(
    keys: Seq<u64>,
    adjustments: Map<u64, Option<NodePermissions>>,
) -> Seq<RoomId>
    decreases keys.len(),
{
    if keys.len() == 0 {
        Seq::empty()
    } else {
        let before = deletes_for(keys.drop_last(), adjustments);
        match adjustments[keys.last()] {
            Some(_) => before,
            None => before.push(RoomId(keys.last())),
        }
    }
}

/// The requests for the rooms with these keys.
pub fn requests_for(
    keys: &Vec<u64>,
    adjustments: &HashMap<u64, Option<NodePermissions>>,
    current_user_id: u64,
) -> (requests: AdjustmentRequests)
    requires
        forall|i: int| 0 <= i < keys@.len() ==> adjustments@.contains_key(#[trigger] keys@[i]),
    ensures
        requests.updates@ == updates_for(keys@, adjustments@, current_user_id),
        requests.deletes@ == deletes_for(keys@, adjustments@),
{
    let mut updates: Vec<(RoomId, UserRoomPermission)> = Vec::new();
    let mut deletes: Vec<RoomId> = Vec::new();
    let mut i: usize = 0;
    while i < keys.len()
        invariant
            i <= keys.len(),
            forall|j: int| 0 <= j < keys@.len() ==> adjustments@.contains_key(#[trigger] keys@[j]),
            updates@ == updates_for(keys@.take(i as int), adjustments@, current_user_id),
            deletes@ == deletes_for(keys@.take(i as int), adjustments@),
        decreases keys.len() - i,
    {
        broadcast use vstd::std_specs::hash::group_hash_axioms;

        let key = keys[i];
        assert(keys@.take(i + 1).drop_last() =~= keys@.take(i as int));
        assert(keys@.take(i + 1).last() == key);
        assert(adjustments@.contains_key(keys@[i as int]));
        match adjustments.get(&key) {
            Some(Some(permissions)) => {
                updates.push(
                    (
                        RoomId(key),
                        UserRoomPermission { id: current_user_id, permissions: *permissions },
                    ),
                );
            },
            _ => {
                deletes.push(RoomId(key));
            },
        }
        i += 1;
    }
    assert(keys@.take(i as int) =~= keys@);
    AdjustmentRequests { updates, deletes }
}

/// The requests that set the permissions of the current user right in all rooms
/// in which that was noted.
pub fn adjust_temp_admin_permissions(
    adjustments: &HashMap<u64, Option<NodePermissions>>,
    current_user_id: u64,
) -> (requests: AdjustmentRequests)
    ensures
        exists|keys: Seq<u64>| #[trigger]
            lists_keys(keys, adjustments@) && requests.updates@ == updates_for(
                keys,
                adjustments@,
                current_user_id,
            ) && requests.deletes@ == deletes_for(keys, adjustments@),
{
    let keys = keys_of(adjustments);
    proof {
        assert forall|i: int| 0 <= i < keys@.len() implies adjustments@.contains_key(
            #[trigger] keys@[i],
        ) by {
            assert(keys@.contains(keys@[i]));
        }
    }
    requests_for(&keys, adjustments, current_user_id)
}

/// Whatever the order of the keys, there is one request for each room in which
/// something was noted: the noted permissions are given, and where none were
/// noted the user is taken out. No other room is touched.
pub proof fn law_every_adjustment_is_made(
    keys: Seq<u64>,
    adjustments: Map<u64, Option<NodePermissions>>,
    user_id: u64,
    room_id: u64,
    permissions: NodePermissions,
)
    requires
        lists_keys(keys, adjustments),
    ensures
        updates_for(keys, adjustments, user_id).len() + deletes_for(keys, adjustments).len()
            == keys.len(),
        updates_for(keys, adjustments, user_id).contains(
            (RoomId(room_id), (UserRoomPermission { id: user_id, permissions })),
        ) <==> adjustments.contains_key(room_id) && adjustments[room_id] == Some(permissions),
        deletes_for(keys, adjustments).contains(RoomId(room_id)) <==> adjustments.contains_key(
            room_id,
        ) && adjustments[room_id] is None,
{
    lemma_requests(keys, adjustments, user_id);
    lemma_update_of(keys, adjustments, user_id, room_id, permissions);
    lemma_delete_of(keys, adjustments, room_id);
}

proof fn lemma_requests(
    keys: Seq<u64>,
    adjustments: Map<u64, Option<NodePermissions>>,
    user_id: u64,
)
    ensures
        updates_for(keys, adjustments, user_id).len() + deletes_for(keys, adjustments).len()
            == keys.len(),
    decreases keys.len(),
{
    if keys.len() > 0 {
        lemma_requests(keys.drop_last(), adjustments, user_id);
    }
}

proof fn lemma_contains_last(keys: Seq<u64>, key: u64)
    requires
        keys.len() > 0,
    ensures
        keys.contains(key) <==> keys.drop_last().contains(key) || keys.last() == key,
{
    if keys.contains(key) {
        let i = choose|i: int| 0 <= i < keys.len() && keys[i] == key;
        if i < keys.len() - 1 {
            assert(keys.drop_last()[i] == key);
        }
    }
    if keys.drop_last().contains(key) {
        let i = choose|i: int| 0 <= i < keys.drop_last().len() && keys.drop_last()[i] == key;
        assert(keys[i] == key);
    }
    if keys.last() == key {
        assert(keys[keys.len() - 1] == key);
    }
}

proof fn lemma_update_of(
    keys: Seq<u64>,
    adjustments: Map<u64, Option<NodePermissions>>,
    user_id: u64,
    room_id: u64,
    permissions: NodePermissions,
)
    ensures
        updates_for(keys, adjustments, user_id).contains(
            (RoomId(room_id), (UserRoomPermission { id: user_id, permissions })),
        ) <==> keys.contains(room_id) && adjustments[room_id] == Some(permissions),
    decreases keys.len(),
{
    let update = (RoomId(room_id), UserRoomPermission { id: user_id, permissions });
    if keys.len() > 0 {
        let front = keys.drop_last();
        let before = updates_for(front, adjustments, user_id);
        let after = updates_for(keys, adjustments, user_id);
        lemma_update_of(front, adjustments, user_id, room_id, permissions);
        lemma_contains_last(keys, room_id);
        if before.contains(update) {
            let i = choose|i: int| 0 <= i < before.len() && before[i] == update;
            assert(after[i] == update);
        }
        if keys.last() == room_id && adjustments[room_id] == Some(permissions) {
            assert(after[before.len() as int] == update);
        }
        if after.contains(update) {
            let i = choose|i: int| 0 <= i < after.len() && after[i] == update;
            if i < before.len() {
                assert(before[i] == update);
            }
        }
    }
}

proof fn lemma_delete_of(
    keys: Seq<u64>,
    adjustments: Map<u64, Option<NodePermissions>>,
    room_id: u64,
)
    ensures
        deletes_for(keys, adjustments).contains(RoomId(room_id)) <==> keys.contains(room_id)
            && adjustments[room_id] is None,
    decreases keys.len(),
{
    if keys.len() > 0 {
        let front = keys.drop_last();
        let before = deletes_for(front, adjustments);
        let after = deletes_for(keys, adjustments);
        lemma_delete_of(front, adjustments, room_id);
        lemma_contains_last(keys, room_id);
        if before.contains(RoomId(room_id)) {
            let i = choose|i: int| 0 <= i < before.len() && before[i] == RoomId(room_id);
            assert(after[i] == RoomId(room_id));
        }
        if keys.last() == room_id && adjustments[room_id] is None {
            assert(after[before.len() as int] == RoomId(room_id));
        }
        if after.contains(RoomId(room_id)) {
            let i = choose|i: int| 0 <= i < after.len() && after[i] == RoomId(room_id);
            if i < before.len() {
                assert(before[i] == RoomId(room_id));
            }
        }
    }
}

// ---------------------------------------------------------------- running

/// A request that sets the permissions of the current user right in a room.
#[derive(Debug, Clone, Copy)]
pub enum AdjustmentRequest {
    /// Give the user these permissions.
    Update(RoomId, UserRoomPermission),
    /// Take the user out of the room.
    Delete(RoomId),
}

/// What to do next.
#[derive(Debug, Clone, Copy)]
pub enum AdjustmentStep {
    /// Start a request.
    Start(AdjustmentRequest),
    /// Wait until no request is running any more.
    WaitForAll,
    /// Nothing is left to do.
    Finished,
}

/// The requests that are still to be started, and how many are running.
pub struct RunView {
    pub open: Seq<AdjustmentRequest>,
    pub running: nat,
}

/// The next step of a run.
pub open spec fn next_step(run: RunView) -> AdjustmentStep {
    if run.running >= MAX_CONCURRENT || (run.open.len() == 0 && run.running > 0) {
        AdjustmentStep::WaitForAll
    } else if run.open.len() > 0 {
        AdjustmentStep::Start(run.open[0])
    } else {
        AdjustmentStep::Finished
    }
}

/// A run after its next step.
pub open spec fn after_step(run: RunView) -> RunView {
    match next_step(run) {
        AdjustmentStep::Start(_) => RunView {
            open: run.open.subrange(1, run.open.len() as int),
            running: run.running + 1,
        },
        AdjustmentStep::WaitForAll => RunView { running: 0, ..run },
        AdjustmentStep::Finished => run,
    }
}

/// The requests that a run starts until nothing is left to do.
pub open spec fn started(run: RunView) -> Seq<AdjustmentRequest>
    decreases run.open.len(), run.running,
{
    match next_step(run) {
        AdjustmentStep::Start(request) => seq![request] + started(after_step(run)),
        AdjustmentStep::WaitForAll => started(after_step(run)),
        AdjustmentStep::Finished => Seq::empty(),
    }
}

/// A run starts all its requests, each once and in their order.
pub proof fn law_run_starts_all(run: RunView)
    ensures
        started(run) == run.open,
    decreases run.open.len(), run.running,
{
    match next_step(run) {
        AdjustmentStep::Start(request) => {
            law_run_starts_all(after_step(run));
            assert(seq![request] + run.open.subrange(1, run.open.len() as int) =~= run.open);
        },
        AdjustmentStep::WaitForAll => {
            law_run_starts_all(after_step(run));
        },
        AdjustmentStep::Finished => {
            assert(run.open =~= Seq::<AdjustmentRequest>::empty());
        },
    }
}

/// All requests: updates first, then deletes.
pub open spec fn all_requests(
    updates: Seq<(RoomId, UserRoomPermission)>,
    deletes: Seq<RoomId>,
) -> Seq<AdjustmentRequest> {
    updates.map_values(
        |update: (RoomId, UserRoomPermission)| AdjustmentRequest::Update(update.0, update.1),
    ) + deletes.map_values(|room_id: RoomId| AdjustmentRequest::Delete(room_id))
}

/// The run of all requests, of which only a few run at the same time.
#[derive(Debug)]
pub struct AdjustmentRun {
    requests: Vec<AdjustmentRequest>,
    next: usize,
    running: usize,
}

impl View for AdjustmentRun {
    type V = RunView;

    closed spec fn view(&self) -> RunView {
        RunView {
            open: self.requests@.subrange(self.next as int, self.requests@.len() as int),
            running: self.running as nat,
        }
    }
}

impl AdjustmentRun {
    /// Whether not more requests are running than may be.
    pub closed spec fn well_formed(&self) -> bool {
        self.next <= self.requests@.len() && self.running <= MAX_CONCURRENT
    }

    /// The run of these requests.
    pub fn new(requests: AdjustmentRequests) -> (run: Self)
        ensures
            run.well_formed(),
            run@.open == all_requests(requests.updates@, requests.deletes@),
            run@.running == 0,
    {
        let ghost all = all_requests(requests.updates@, requests.deletes@);
        let mut list: Vec<AdjustmentRequest> = Vec::new();
        let mut i: usize = 0;
        while i < requests.updates.len()
            invariant
                i <= requests.updates.len(),
                all == all_requests(requests.updates@, requests.deletes@),
                list@ == all.take(i as int),
            decreases requests.updates.len() - i,
        {
            let update = &requests.updates[i];
            list.push(AdjustmentRequest::Update(update.0, update.1));
            assert(all.take(i + 1) =~= all.take(i as int).push(all[i as int]));
            i += 1;
        }
        let mut j: usize = 0;
        while j < requests.deletes.len()
            invariant
                j <= requests.deletes.len(),
                all == all_requests(requests.updates@, requests.deletes@),
                list@ == all.take(requests.updates@.len() + j),
            decreases requests.deletes.len() - j,
        {
            let ghost at = requests.updates@.len() + j;
            list.push(AdjustmentRequest::Delete(requests.deletes[j]));
            assert(all[at] == AdjustmentRequest::Delete(requests.deletes@[j as int]));
            assert(all.take(at + 1) =~= all.take(at).push(all[at]));
            j += 1;
        }
        assert(list@ =~= all);
        let run = AdjustmentRun { requests: list, next: 0, running: 0 };
        assert(run@.open =~= all);
        run
    }

    /// The next step. A request that is to be started counts as running until
    /// all are waited for.
    pub fn step(&mut self) -> (step: AdjustmentStep)
        requires
            old(self).well_formed(),
        ensures
            final(self).well_formed(),
            step == next_step(old(self)@),
            final(self)@ == after_step(old(self)@),
    {
        let ghost before = self@;
        let left = self.next < self.requests.len();
        if self.running >= MAX_CONCURRENT || (!left && self.running > 0) {
            self.running = 0;
            AdjustmentStep::WaitForAll
        } else if left {
            let request = self.requests[self.next];
            self.next = self.next + 1;
            self.running = self.running + 1;
            assert(self@.open =~= before.open.subrange(1, before.open.len() as int));
            AdjustmentStep::Start(request)
        } else {
            AdjustmentStep::Finished
        }
    }
}

// ---------------------------------------------------------------- what is noted

/// What is noted once a room that the current user creates is there.
pub open spec fn noted(
    adjustments: Map<u64, Option<NodePermissions>>,
    room: RoomView,
    room_id: u64,
    user_id: u64,
) -> Map<u64, Option<NodePermissions>> {
    with_user_adjustment(
        with_adjustment(adjustments, room_id, adjustment(room, user_id)),
        room_id,
        elements(with_admin(room, user_id).user_permissions),
        user_id,
    )
}

/// Whether a user has an entry.
pub open spec fn has_entry(users: Seq<UserRoomPermission>, user_id: u64) -> bool {
    exists|i: int| 0 <= i < users.len() && (#[trigger] users[i]).id == user_id
}

/// Whether an entry is the last one of its user.
pub open spec fn is_last_entry(users: Seq<UserRoomPermission>, entry: UserRoomPermission) -> bool {
    exists|i: int|
        0 <= i < users.len() && #[trigger] users[i] == entry && !has_entry(
            users.subrange(i + 1, users.len() as int),
            entry.id,
        )
}

proof fn lemma_entries(users: Seq<UserRoomPermission>, user_id: u64)
    ensures
        last_permissions(users, user_id) is Some <==> has_entry(users, user_id),
        last_permissions(users, user_id) matches Some(permissions) ==> is_last_entry(
            users,
            UserRoomPermission { id: user_id, permissions },
        ),
    decreases users.len(),
{
    if users.len() > 0 {
        let front = users.drop_last();
        lemma_entries(front, user_id);
        if users.last().id == user_id {
            let n = users.len() - 1;
            assert(users[n] == (UserRoomPermission {
                id: user_id,
                permissions: users.last().permissions,
            }));
            assert(users.subrange(n + 1, users.len() as int).len() == 0);
        } else {
            if has_entry(front, user_id) {
                let i = choose|i: int| 0 <= i < front.len() && (#[trigger] front[i]).id == user_id;
                assert(users[i].id == user_id);
                let entry = UserRoomPermission {
                    id: user_id,
                    permissions: last_permissions(front, user_id)->0,
                };
                let k = choose|k: int|
                    0 <= k < front.len() && #[trigger] front[k] == entry && !has_entry(
                        front.subrange(k + 1, front.len() as int),
                        user_id,
                    );
                let behind = users.subrange(k + 1, users.len() as int);
                assert(users[k] == entry);
                assert forall|j: int| 0 <= j < behind.len() implies (#[trigger] behind[j]).id
                    != user_id by {
                    if j < behind.len() - 1 {
                        assert(behind[j] == front.subrange(k + 1, front.len() as int)[j]);
                    }
                }
                assert(!has_entry(behind, user_id));
            }
            if has_entry(users, user_id) {
                let i = choose|i: int| 0 <= i < users.len() && (#[trigger] users[i]).id == user_id;
                assert(front[i].id == user_id);
            }
        }
    }
}

proof fn lemma_no_entry(users: Seq<UserRoomPermission>, user_id: u64)
    requires
        !has_entry(users, user_id),
    ensures
        first_permissions(users, user_id) is None,
    decreases users.len(),
{
    if users.len() > 0 {
        assert(users[0].id != user_id);
        let rest = users.subrange(1, users.len() as int);
        assert forall|i: int| 0 <= i < rest.len() implies (#[trigger] rest[i]).id != user_id by {
            assert(rest[i] == users[i + 1]);
        }
        lemma_no_entry(rest, user_id);
    }
}

/// When a room was created, what is noted for it is what the import says of the
/// current user: the permissions of the last entry of the user where there is
/// one; otherwise that the user has no place in the room, unless the import names
/// the user as an admin, in which case nothing is noted. What was noted for
/// other rooms stays.
pub proof fn law_import_is_restored(
    adjustments: Map<u64, Option<NodePermissions>>,
    room: RoomView,
    room_id: u64,
    user_id: u64,
)
    requires
        !adjustments.contains_key(room_id),
    ensures
        ({
            let users = elements(room.user_permissions);
            let after = noted(adjustments, room, room_id, user_id);
            &&& has_entry(users, user_id) ==> after.contains_key(room_id) && (
            after[room_id] matches Some(permissions) && is_last_entry(
                users,
                UserRoomPermission { id: user_id, permissions },
            ))
            &&& !has_entry(users, user_id) && !is_admin(room, user_id) ==> after.contains_key(
                room_id,
            ) && after[room_id] is None
            &&& !has_entry(users, user_id) && is_admin(room, user_id) ==> !after.contains_key(
                room_id,
            )
            &&& forall|other: u64|
                other != room_id ==> (#[trigger] after.contains_key(other)
                    <==> adjustments.contains_key(other)) && (adjustments.contains_key(other)
                    ==> after[other] == adjustments[other])
        }),
{
    let users = elements(room.user_permissions);
    lemma_entries(users, user_id);
    if !has_entry(users, user_id) {
        lemma_no_entry(users, user_id);
    }
}

// ---------------------------------------------------------------- laws

/// All updates come before all deletes, each as it is and in its order.
pub proof fn law_updates_before_deletes(
    updates: Seq<(RoomId, UserRoomPermission)>,
    deletes: Seq<RoomId>,
    i: int,
)
    ensures
        all_requests(updates, deletes).len() == updates.len() + deletes.len(),
        0 <= i < updates.len() ==> all_requests(updates, deletes)[i] == AdjustmentRequest::Update(
            updates[i].0,
            updates[i].1,
        ),
        0 <= i < deletes.len() ==> all_requests(updates, deletes)[updates.len() + i]
            == AdjustmentRequest::Delete(deletes[i]),
{
}

/// A request is started only while fewer than two are running, and it is the next
/// one. Two running ones are waited for before the next is started, and the last
/// ones before the run is finished.
pub proof fn law_two_run_at_once(run: RunView)
    ensures
        run.running >= 2 ==> next_step(run) == AdjustmentStep::WaitForAll,
        run.running < 2 && run.open.len() > 0 ==> next_step(run) == AdjustmentStep::Start(
            run.open[0],
        ),
        run.running == 1 && run.open.len() == 0 ==> next_step(run) == AdjustmentStep::WaitForAll,
        run.running == 0 && run.open.len() == 0 ==> next_step(run) == AdjustmentStep::Finished,
        run.running < 2 && run.open.len() > 0 ==> after_step(run).open == run.open.subrange(
            1,
            run.open.len() as int,
        ) && after_step(run).running == run.running + 1,
        run.running >= 2 || (run.running == 1 && run.open.len() == 0) ==> after_step(run).open
            == run.open && after_step(run).running == 0,
        run.running == 0 && run.open.len() == 0 ==> after_step(run) == run,
{
}

/// Every update is for the current user, in a room in which permissions were
/// noted, and gives exactly these; every delete is in a room for which none were
/// noted.
pub proof fn law_nothing_else_is_requested(
    keys: Seq<u64>,
    adjustments: Map<u64, Option<NodePermissions>>,
    user_id: u64,
    i: int,
)
    ensures
        0 <= i < updates_for(keys, adjustments, user_id).len() ==> {
            let update = updates_for(keys, adjustments, user_id)[i];
            &&& keys.contains(update.0.0)
            &&& update.1.id == user_id
            &&& adjustments[update.0.0] == Some(update.1.permissions)
        },
        0 <= i < deletes_for(keys, adjustments).len() ==> {
            let room_id = deletes_for(keys, adjustments)[i];
            &&& keys.contains(room_id.0)
            &&& adjustments[room_id.0] is None
        },
    decreases keys.len(),
{
    if keys.len() > 0 {
        let front = keys.drop_last();
        law_nothing_else_is_requested(front, adjustments, user_id, i);
        assert(keys.contains(keys[keys.len() - 1]));
        assert forall|key: u64| #[trigger] front.contains(key) implies keys.contains(key) by {
            lemma_contains_last(keys, key);
        }
        if 0 <= i < updates_for(front, adjustments, user_id).len() {
            assert(updates_for(keys, adjustments, user_id)[i] == updates_for(
                front,
                adjustments,
                user_id,
            )[i]);
        }
        if 0 <= i < deletes_for(front, adjustments).len() {
            assert(deletes_for(keys, adjustments)[i] == deletes_for(front, adjustments)[i]);
        }
    }
}

/// There is one update for each key with noted permissions and one delete for
/// each other key, both in the order of the keys.
pub proof fn law_requests_follow_the_keys(
    keys: Seq<u64>,
    adjustments: Map<u64, Option<NodePermissions>>,
    user_id: u64,
)
    ensures
        updates_for(keys, adjustments, user_id) == keys.filter(
            |key: u64| adjustments[key] is Some,
        ).map_values(
            |key: u64|
                (
                    RoomId(key),
                    UserRoomPermission { id: user_id, permissions: adjustments[key]->0 },
                ),
        ),
        deletes_for(keys, adjustments) == keys.filter(
            |key: u64| adjustments[key] is None,
        ).map_values(|key: u64| RoomId(key)),
    decreases keys.len(),
{
    reveal(Seq::filter);
    let is_noted = |key: u64| adjustments[key] is Some;
    let is_missing = |key: u64| adjustments[key] is None;
    let update = |key: u64|
        (RoomId(key), UserRoomPermission { id: user_id, permissions: adjustments[key]->0 });
    let delete = |key: u64| RoomId(key);
    if keys.len() > 0 {
        law_requests_follow_the_keys(keys.drop_last(), adjustments, user_id);
    }
    assert(updates_for(keys, adjustments, user_id) =~= keys.filter(is_noted).map_values(update));
    assert(deletes_for(keys, adjustments) =~= keys.filter(is_missing).map_values(delete));
}

}
