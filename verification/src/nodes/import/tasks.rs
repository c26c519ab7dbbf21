//! Updates of rooms that are made once all rooms are there.
use std::collections::VecDeque;
use vstd::prelude::*;
use crate::nodes::models::{GroupRoomPermission, RoomId, UserRoomPermission};
use crate::text::{decimal, decimal_text, join3};

verus! {

/// How many updates can wait to be collected.
pub const CAPACITY: usize = 50000;

/// The policies that a room is to get.
#[derive(Debug, Clone, Copy, PartialEq, Eq, Structural)]
pub struct RoomPoliciesUpdate {
    pub default_expiration_period: u64,
    pub is_virus_protection_enabled: Option<bool>,
}

/// What is to be updated, and in which room.
#[derive(Debug)]
pub enum UpdateTaskType {
    RoomGroup(RoomId, Vec<GroupRoomPermission>),
    RoomUser(RoomId, Vec<UserRoomPermission>),
    RoomPolicies(RoomId, RoomPoliciesUpdate),
}

/// What is to be updated in a room that was just created.
#[derive(Debug)]
pub enum UpdateRoomTaskType {
    Group(RoomId, Vec<GroupRoomPermission>),
    User(RoomId, Vec<UserRoomPermission>),
    Policies(RoomId, RoomPoliciesUpdate),
}

/// An update that waits until all rooms are there.
#[derive(Debug)]
pub struct UpdateTask {
    pub task_type: UpdateTaskType,
}

/// An update with its list as a sequence.
pub enum TaskView {
    RoomGroup(RoomId, Seq<GroupRoomPermission>),
    RoomUser(RoomId, Seq<UserRoomPermission>),
    RoomPolicies(RoomId, RoomPoliciesUpdate),
}

impl View for UpdateTask {
    type V = TaskView;

    open spec fn view(&self) -> TaskView {
        match self.task_type {
            UpdateTaskType::RoomGroup(id, groups) => TaskView::RoomGroup(id, groups@),
            UpdateTaskType::RoomUser(id, users) => TaskView::RoomUser(id, users@),
            UpdateTaskType::RoomPolicies(id, policies) => TaskView::RoomPolicies(id, policies),
        }
    }
}

impl View for UpdateRoomTaskType {
    type V = TaskView;

    open spec fn view(&self) -> TaskView {
        match self {
            UpdateRoomTaskType::Group(id, groups) => TaskView::RoomGroup(*id, groups@),
            UpdateRoomTaskType::User(id, users) => TaskView::RoomUser(*id, users@),
            UpdateRoomTaskType::Policies(id, policies) => TaskView::RoomPolicies(*id, *policies),
        }
    }
}

impl UpdateTask {
    /// The update of a room, as one that waits until all rooms are there.
    pub fn of_room(update: UpdateRoomTaskType) -> (task: UpdateTask)
        ensures
            task@ == update@,
    {
        let task_type = match update {
            UpdateRoomTaskType::Group(id, groups) => UpdateTaskType::RoomGroup(id, groups),
            UpdateRoomTaskType::User(id, users) => UpdateTaskType::RoomUser(id, users),
            UpdateRoomTaskType::Policies(id, update) => UpdateTaskType::RoomPolicies(id, update),
        };
        UpdateTask { task_type }
    }
}

/// Updates of group permissions.
#[derive(Debug)]
pub struct RoomGroupTask(pub Vec<(RoomId, Vec<GroupRoomPermission>)>);

/// Updates of user permissions.
#[derive(Debug)]
pub struct RoomUserTask(pub Vec<(RoomId, Vec<UserRoomPermission>)>);

/// Updates of policies.
#[derive(Debug)]
pub struct RoomPoliciesTask(pub Vec<(RoomId, RoomPoliciesUpdate)>);

/// The updates that were collected, each kind in a list of its own.
///
/// Rooms are created first. The updates of their permissions and policies are
/// made when all rooms are there.
#[derive(Debug)]
pub struct UpdateTasksChannel {
    pub room_group_tasks: RoomGroupTask,
    pub room_user_tasks: RoomUserTask,
    pub room_policies_tasks: RoomPoliciesTask,
}

/// Collected updates as sequences.
pub struct TasksView {
    pub groups: Seq<(RoomId, Seq<GroupRoomPermission>)>,
    pub users: Seq<(RoomId, Seq<UserRoomPermission>)>,
    pub policies: Seq<(RoomId, RoomPoliciesUpdate)>,
}

impl View for UpdateTasksChannel {
    type V = TasksView;

    open spec fn view(&self) -> TasksView {
        TasksView {
            groups: self.room_group_tasks.0@.map_values(
                |task: (RoomId, Vec<GroupRoomPermission>)| (task.0, task.1@),
            ),
            users: self.room_user_tasks.0@.map_values(
                |task: (RoomId, Vec<UserRoomPermission>)| (task.0, task.1@),
            ),
            policies: self.room_policies_tasks.0@,
        }
    }
}

/// No updates.
pub open spec fn no_tasks() -> TasksView {
    TasksView { groups: Seq::empty(), users: Seq::empty(), policies: Seq::empty() }
}

/// Collected updates with one more, at the end of the list of its kind.
pub open spec fn with_task(tasks: TasksView, task: TaskView) -> TasksView {
    match task {
        TaskView::RoomGroup(id, groups) => TasksView {
            groups: tasks.groups.push((id, groups)),
            ..tasks
        },
        TaskView::RoomUser(id, users) => TasksView { users: tasks.users.push((id, users)), ..tasks },
        TaskView::RoomPolicies(id, policies) => TasksView {
            policies: tasks.policies.push((id, policies)),
            ..tasks
        },
    }
}

/// All updates, collected one after the other.
pub open spec fn with_tasks(tasks: TasksView, more: Seq<TaskView>) -> TasksView
    decreases more.len(),
{
    if more.len() == 0 {
        tasks
    } else {
        with_task(with_tasks(tasks, more.drop_last()), more.last())
    }
}

/// The updates of group permissions among some updates, in their order.
pub open spec fn group_tasks(tasks: Seq<TaskView>) -> Seq<(RoomId, Seq<GroupRoomPermission>)>
    decreases tasks.len(),
{
    if tasks.len() == 0 {
        Seq::empty()
    } else {
        let before = group_tasks(tasks.drop_last());
        match tasks.last() {
            TaskView::RoomGroup(id, groups) => before.push((id, groups)),
            _ => before,
        }
    }
}

/// The updates of user permissions among some updates, in their order.
pub open spec fn user_tasks(tasks: Seq<TaskView>) -> Seq<(RoomId, Seq<UserRoomPermission>)>
    decreases tasks.len(),
{
    if tasks.len() == 0 {
        Seq::empty()
    } else {
        let before = user_tasks(tasks.drop_last());
        match tasks.last() {
            TaskView::RoomUser(id, users) => before.push((id, users)),
            _ => before,
        }
    }
}

/// The updates of policies among some updates, in their order.
pub open spec fn policies_tasks(tasks: Seq<TaskView>) -> Seq<(RoomId, RoomPoliciesUpdate)>
    decreases tasks.len(),
{
    if tasks.len() == 0 {
        Seq::empty()
    } else {
        let before = policies_tasks(tasks.drop_last());
        match tasks.last() {
            TaskView::RoomPolicies(id, policies) => before.push((id, policies)),
            _ => before,
        }
    }
}

/// Collecting updates adds to each list the updates of its kind, in the order in
/// which they came in, behind what was there. None gets lost or is repeated.
pub proof fn law_tasks_are_added_in_order(tasks: TasksView, more: Seq<TaskView>)
    ensures
        with_tasks(tasks, more).groups == tasks.groups + group_tasks(more),
        with_tasks(tasks, more).users == tasks.users + user_tasks(more),
        with_tasks(tasks, more).policies == tasks.policies + policies_tasks(more),
        group_tasks(more).len() + user_tasks(more).len() + policies_tasks(more).len() == more.len(),
    decreases more.len(),
{
    let after = with_tasks(tasks, more);
    if more.len() > 0 {
        law_tasks_are_added_in_order(tasks, more.drop_last());
    }
    assert(after.groups =~= tasks.groups + group_tasks(more));
    assert(after.users =~= tasks.users + user_tasks(more));
    assert(after.policies =~= tasks.policies + policies_tasks(more));
}

/// Collecting updates in two goes is the same as collecting them in one; what is
/// collected from an empty queue changes nothing.
pub proof fn law_collecting_again(tasks: TasksView, first: Seq<TaskView>, second: Seq<TaskView>)
    ensures
        with_tasks(with_tasks(tasks, first), second) == with_tasks(tasks, first + second),
        with_tasks(tasks, Seq::empty()) == tasks,
    decreases second.len(),
{
    if second.len() == 0 {
        assert(first + second =~= first);
    } else {
        law_collecting_again(tasks, first, second.drop_last());
        assert((first + second).drop_last() =~= first + second.drop_last());
        assert((first + second).last() == second.last());
    }
}

/// Updates as their views.
pub open spec fn task_views(tasks: Seq<UpdateTask>) -> Seq<TaskView> {
    tasks.map_values(|task: UpdateTask| task@)
}

/// Whether nothing waits to be collected, where this much room is left.
pub fn is_drained(capacity: usize) -> (drained: bool)
    ensures
        drained == (capacity == CAPACITY),
{
    capacity == CAPACITY
}

/// How much room is left beside this many updates that wait; none where more
/// wait than there is room for.
pub fn capacity_beside(waiting: usize) -> (capacity: usize)
    ensures
        capacity == (if waiting <= CAPACITY {
            (CAPACITY - waiting) as int
        } else {
            0
        }),
{
    if waiting <= CAPACITY {
        CAPACITY - waiting
    } else {
        0
    }
}

impl UpdateTasksChannel {
    /// No updates.
    pub fn new() -> (channel: Self)
        ensures
            channel@ == no_tasks(),
    {
        let channel = Self {
            room_group_tasks: RoomGroupTask(Vec::new()),
            room_user_tasks: RoomUserTask(Vec::new()),
            room_policies_tasks: RoomPoliciesTask(Vec::new()),
        };
        assert(channel@.groups =~= no_tasks().groups);
        assert(channel@.users =~= no_tasks().users);
        assert(channel@.policies =~= no_tasks().policies);
        channel
    }

    /// Takes an update, where this much room is left behind it, and tells
    /// whether to go on waiting for more.
    pub fn collect(&mut self, task: UpdateTask, capacity: usize) -> (go_on: bool)
        ensures
            final(self)@ == with_task(old(self)@, task@),
            go_on == (capacity != CAPACITY),
    {
        let ghost before = self@;
        let ghost added = task@;
        match task.task_type {
            UpdateTaskType::RoomGroup(room_id, groups) => {
                self.room_group_tasks.0.push((room_id, groups));
                assert(self@.groups =~= with_task(before, added).groups);
            },
            UpdateTaskType::RoomUser(room_id, users) => {
                self.room_user_tasks.0.push((room_id, users));
                assert(self@.users =~= with_task(before, added).users);
            },
            UpdateTaskType::RoomPolicies(room_id, policies) => {
                self.room_policies_tasks.0.push((room_id, policies));
            },
        }
        !is_drained(capacity)
    }

    /// Collects all updates of a queue, and leaves it empty.
    pub fn collect_tasks(&mut self, queue: &mut VecDeque<UpdateTask>)
        ensures
            final(self)@ == with_tasks(old(self)@, task_views(old(queue)@)),
            final(queue)@ == Seq::<UpdateTask>::empty(),
    {
        let ghost start = self@;
        let ghost all = queue@;
        let ghost views = task_views(all);
        let ghost mut taken: int = 0;
        let mut go_on = !is_drained(capacity_beside(queue.len()));
        assert(views.take(0) =~= Seq::<TaskView>::empty());
        assert(all.subrange(0, all.len() as int) =~= all);
        while go_on
            invariant
                0 <= taken <= all.len(),
                views == task_views(all),
                queue@ == all.subrange(taken, all.len() as int),
                self@ == with_tasks(start, views.take(taken)),
                go_on == (queue@.len() > 0),
            decreases queue@.len(),
        {
            if let Some(task) = queue.pop_front() {
                proof {
                    assert(task == all[taken]);
                    assert(views.take(taken + 1).drop_last() =~= views.take(taken));
                    assert(views.take(taken + 1).last() == task@);
                    taken = taken + 1;
                    assert(queue@ =~= all.subrange(taken, all.len() as int));
                }
                go_on = self.collect(task, capacity_beside(queue.len()));
            }
        }
        assert(views.take(taken) =~= views);
        assert(queue@ =~= Seq::<UpdateTask>::empty());
    }

    /// How many updates of policies were collected.
    pub fn get_policy_task_count(&self) -> (count: usize)
        ensures
            count == self@.policies.len(),
    {
        self.room_policies_tasks.0.len()
    }
}

// ---------------------------------------------------------------- messages

/// A text with a number between two others.
pub open spec fn counted(before: Seq<char>, count: int, after: Seq<char>) -> Seq<char> {
    before + decimal_text(count as nat) + after
}

/// What is shown when this many updates of group permissions are done.
pub fn groups_done_message(count: usize) -> (message: String)
    ensures
        message@ == (if count == 0 {
            "No group permissions to update."@
        } else {
            counted("Sucessfully updated "@, count as int, " group permission(s)"@)
        }),
{
    if count == 0 {
        "No group permissions to update.".to_owned()
    } else {
        join3("Sucessfully updated ", decimal(count as u64).as_str(), " group permission(s)")
    }
}

/// What is shown when this many updates of user permissions are done.
pub fn users_done_message(count: usize) -> (message: String)
    ensures
        message@ == (if count == 0 {
            "No user permissions to update."@
        } else {
            counted("Successfully updated "@, count as int, " user permission(s)."@)
        }),
{
    if count == 0 {
        "No user permissions to update.".to_owned()
    } else {
        join3("Successfully updated ", decimal(count as u64).as_str(), " user permission(s).")
    }
}

/// What is shown when this many updates of policies are done.
pub fn policies_done_message(count: usize) -> (message: String)
    ensures
        message@ == (if count == 0 {
            "No room policies to update."@
        } else if count == 1 {
            counted("Sucessfully updated "@, count as int, " room policy."@)
        } else {
            counted("Sucessfully updated "@, count as int, " room policies."@)
        }),
{
    if count == 0 {
        "No room policies to update.".to_owned()
    } else if count == 1 {
        join3("Sucessfully updated ", decimal(count as u64).as_str(), " room policy.")
    } else {
        join3("Sucessfully updated ", decimal(count as u64).as_str(), " room policies.")
    }
}

/// What is shown when this many permissions of the current user are adjusted.
pub fn adjusted_message(count: usize) -> (message: String)
    ensures
        message@ == counted("Successfully adjusted "@, count as int, " permission(s)"@),
{
    join3("Successfully adjusted ", decimal(count as u64).as_str(), " permission(s)")
}

// ---------------------------------------------------------------- laws

/// Each update that is collected comes last in the list of its kind, with its
/// room and all that it holds. The other lists stay as they are.
pub proof fn law_one_more_task(
    tasks: TasksView,
    more: Seq<TaskView>,
    id: RoomId,
    groups: Seq<GroupRoomPermission>,
    users: Seq<UserRoomPermission>,
    policies: RoomPoliciesUpdate,
)
    ensures
        ({
            let before = with_tasks(tasks, more);
            &&& with_tasks(tasks, more.push(TaskView::RoomGroup(id, groups))) == (TasksView {
                groups: before.groups.push((id, groups)),
                ..before
            })
            &&& with_tasks(tasks, more.push(TaskView::RoomUser(id, users))) == (TasksView {
                users: before.users.push((id, users)),
                ..before
            })
            &&& with_tasks(tasks, more.push(TaskView::RoomPolicies(id, policies))) == (TasksView {
                policies: before.policies.push((id, policies)),
                ..before
            })
        }),
        with_tasks(tasks, Seq::empty()) == tasks,
{
    assert(more.push(TaskView::RoomGroup(id, groups)).drop_last() =~= more);
    assert(more.push(TaskView::RoomUser(id, users)).drop_last() =~= more);
    assert(more.push(TaskView::RoomPolicies(id, policies)).drop_last() =~= more);
}

/// The view of an update shows its room and all that it holds.
pub proof fn law_task_view_shows_all(task: UpdateTask, update: UpdateRoomTaskType)
    ensures
        task.task_type matches UpdateTaskType::RoomGroup(id, groups) ==> task@
            == TaskView::RoomGroup(id, groups@),
        task.task_type matches UpdateTaskType::RoomUser(id, users) ==> task@ == TaskView::RoomUser(
            id,
            users@,
        ),
        task.task_type matches UpdateTaskType::RoomPolicies(id, policies) ==> task@
            == TaskView::RoomPolicies(id, policies),
        update matches UpdateRoomTaskType::Group(id, groups) ==> update@ == TaskView::RoomGroup(
            id,
            groups@,
        ),
        update matches UpdateRoomTaskType::User(id, users) ==> update@ == TaskView::RoomUser(
            id,
            users@,
        ),
        update matches UpdateRoomTaskType::Policies(id, policies) ==> update@
            == TaskView::RoomPolicies(id, policies),
{
}

/// The view of collected updates shows all of them, in their order.
pub proof fn law_channel_view_shows_all(channel: UpdateTasksChannel, i: int)
    ensures
        channel@.groups.len() == channel.room_group_tasks.0@.len(),
        channel@.users.len() == channel.room_user_tasks.0@.len(),
        channel@.policies == channel.room_policies_tasks.0@,
        0 <= i < channel@.groups.len() ==> channel@.groups[i].0
            == channel.room_group_tasks.0@[i].0 && channel@.groups[i].1
            == channel.room_group_tasks.0@[i].1@,
        0 <= i < channel@.users.len() ==> channel@.users[i].0 == channel.room_user_tasks.0@[i].0
            && channel@.users[i].1 == channel.room_user_tasks.0@[i].1@,
{
}

/// The views of updates are in their order.
pub proof fn law_task_views_keep_order(tasks: Seq<UpdateTask>, i: int)
    requires
        0 <= i < tasks.len(),
    ensures
        task_views(tasks).len() == tasks.len(),
        task_views(tasks)[i] == tasks[i]@,
        no_tasks().groups.len() == 0,
        no_tasks().users.len() == 0,
        no_tasks().policies.len() == 0,
{
}

/// A message with a number holds the number in decimal digits between its parts.
pub proof fn law_counted(before: Seq<char>, count: nat, after: Seq<char>)
    ensures
        counted(before, count as int, after) == before + decimal_text(count) + after,
{
}

}
