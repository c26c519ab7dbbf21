//! What an import is checked for before any room is created.
use vstd::prelude::*;
use crate::models::{outcome, DcCmdError, ErrorView};
use crate::nodes::ids::{
    is_mentioned, law_ids_are_those_named, lists_ids, names_group, names_user, unique_ids, IdKind,
};
use crate::nodes::models::{
    lemma_sub_rooms_view, rooms_view, sub_rooms_of, Room, RoomImport, RoomView,
};
use crate::nodes::rules::{
    first_error, has_reserved, is_conflict_at, law_admin_is_needed, law_conflict_is_refused,
    law_names_are_checked, law_no_error_means_every_room, nobody_administrates, rule_error, verdict,
    RoomRule,
};
use crate::nodes::tree::{
    count_rooms, lemma_preorder, lemma_preorder_all_take, preorder, preorder_all,
};
use crate::text::{decimal, decimal_text, join3};
use vstd::utf8::encode_utf8;

verus! {

// ---------------------------------------------------------------- rules

/// Which rules the rooms of an import have to follow.
#[derive(Clone, Copy)]
pub enum RuleSet {
    /// The rules of imports whose templates are filled: the tokens of a template
    /// give way to the rooms that the rows of a CSV file make up. They hold of
    /// rooms that are read from JSON without a template, too.
    Filled,
    /// The rules of imports whose templates are rendered, once with every row of
    /// a CSV file. They hold of rooms that are read from JSON without a template,
    /// too.
    Rendered,
}

/// The rule on admins in a rule set.
pub open spec fn admin_rule(rules: RuleSet) -> RoomRule {
    match rules {
        RuleSet::Filled => RoomRule::HasAdmin,
        RuleSet::Rendered => RoomRule::HasAdminOrInherits,
    }
}

/// The rule on names in a rule set.
pub open spec fn name_rule(rules: RuleSet) -> RoomRule {
    match rules {
        RuleSet::Filled => RoomRule::LegalName,
        RuleSet::Rendered => RoomRule::UnreservedName,
    }
}

/// The first error of a room and all rooms below it: one on admins before one
/// on names before one on permissions.
pub open spec fn tree_error(rules: RuleSet, room: RoomView) -> Option<ErrorView> {
    let tree = preorder(room);
    if first_error(admin_rule(rules), tree) is Some {
        first_error(admin_rule(rules), tree)
    } else if first_error(name_rule(rules), tree) is Some {
        first_error(name_rule(rules), tree)
    } else {
        first_error(RoomRule::NoConflict, tree)
    }
}

/// The error of the first tree of a list that has one.
pub open spec fn import_error(rules: RuleSet, rooms: Seq<RoomView>) -> Option<ErrorView>
    decreases rooms.len(),
{
    if rooms.len() == 0 {
        None
    } else {
        match import_error(rules, rooms.drop_last()) {
            Some(error) => Some(error),
            None => tree_error(rules, rooms.last()),
        }
    }
}

/// Whether a room follows all rules.
pub open spec fn follows_rules(rules: RuleSet, room: RoomView) -> bool {
    &&& rule_error(admin_rule(rules), room) is None
    &&& rule_error(name_rule(rules), room) is None
    &&& rule_error(RoomRule::NoConflict, room) is None
}

/// An import has no error exactly if every room in it, at any depth, follows
/// all rules.
pub proof fn law_valid_import(rules: RuleSet, rooms: Seq<RoomView>)
    ensures
        import_error(rules, rooms) is None <==> (forall|i: int|
            0 <= i < preorder_all(rooms).len() ==> follows_rules(
                rules,
                #[trigger] preorder_all(rooms)[i],
            )),
    decreases rooms.len(),
{
    let all = preorder_all(rooms);
    if rooms.len() > 0 {
        let front = preorder_all(rooms.drop_last());
        let tree = preorder(rooms.last());
        law_valid_import(rules, rooms.drop_last());
        law_no_error_means_every_room(admin_rule(rules), tree);
        law_no_error_means_every_room(name_rule(rules), tree);
        law_no_error_means_every_room(RoomRule::NoConflict, tree);
        assert(all == front + tree);
        if import_error(rules, rooms) is None {
            assert forall|i: int| 0 <= i < all.len() implies follows_rules(
                rules,
                #[trigger] all[i],
            ) by {
                if i < front.len() {
                    assert(all[i] == front[i]);
                } else {
                    assert(all[i] == tree[i - front.len()]);
                }
            }
        }
        if forall|i: int| 0 <= i < all.len() ==> follows_rules(rules, #[trigger] all[i]) {
            assert forall|i: int| 0 <= i < front.len() implies follows_rules(
                rules,
                #[trigger] front[i],
            ) by {
                assert(all[i] == front[i]);
            }
            assert forall|i: int| 0 <= i < tree.len() implies follows_rules(
                rules,
                #[trigger] tree[i],
            ) by {
                assert(all[front.len() + i] == tree[i]);
            }
        }
    }
}

proof fn lemma_import_error_front(rules: RuleSet, rooms: Seq<RoomView>, n: int)
    requires
        0 <= n <= rooms.len(),
        import_error(rules, rooms.take(n)) is Some,
    ensures
        import_error(rules, rooms) == import_error(rules, rooms.take(n)),
    decreases rooms.len() - n,
{
    if n == rooms.len() {
        assert(rooms.take(n) =~= rooms);
    } else {
        assert(rooms.take(n + 1).drop_last() =~= rooms.take(n));
        lemma_import_error_front(rules, rooms, n + 1);
    }
}

/// Holds a room and all rooms below it to a rule set.
fn check_tree_rules(rules: RuleSet, room: &Room) -> (result: Result<(), DcCmdError>)
    ensures
        outcome(result) == verdict(tree_error(rules, room@)),
{
    match rules {
        RuleSet::Filled => {
            room.check_self_and_sub_rooms_for_admin()?;
            room.check_self_and_sub_rooms_for_illegal_room_names()?;
            room.check_self_and_sub_rooms_for_conflicting_permissions()
        },
        RuleSet::Rendered => {
            room.check_all_rooms_have_admin()?;
            room.check_illegal_characters_in_room_name()?;
            room.check_conflicting_permissions()
        },
    }
}

/// Holds all rooms of an import to a rule set.
pub fn check_rules(rules: RuleSet, rooms: &Vec<Room>) -> (result: Result<(), DcCmdError>)
    ensures
        outcome(result) == verdict(import_error(rules, rooms_view(rooms@))),
{
    let ghost all = rooms_view(rooms@);
    let mut i: usize = 0;
    while i < rooms.len()
        invariant
            i <= rooms.len(),
            all == rooms_view(rooms@),
            import_error(rules, all.take(i as int)) is None,
        decreases rooms.len() - i,
    {
        proof {
            assert(all.take(i + 1).drop_last() =~= all.take(i as int));
            if import_error(rules, all.take(i + 1)) is Some {
                lemma_import_error_front(rules, all, i + 1);
            }
        }
        check_tree_rules(rules, &rooms[i])?;
        i += 1;
    }
    assert(all.take(i as int) =~= all);
    Ok(())
}

// ---------------------------------------------------------------- virus protection

/// Whether a room says anything on virus protection.
pub open spec fn has_virus_policy(room: RoomView) -> bool {
    room.policies matches Some(policies) && policies.is_virus_protection_enabled is Some
}

/// Whether one of the rooms says anything on virus protection.
pub open spec fn some_virus_policy(rooms: Seq<RoomView>) -> bool {
    exists|i: int| 0 <= i < rooms.len() && has_virus_policy(#[trigger] rooms[i])
}

proof fn lemma_virus_policy_concat(a: Seq<RoomView>, b: Seq<RoomView>)
    ensures
        some_virus_policy(a + b) <==> some_virus_policy(a) || some_virus_policy(b),
{
    let both = a + b;
    if some_virus_policy(a) {
        let i = choose|i: int| 0 <= i < a.len() && has_virus_policy(#[trigger] a[i]);
        assert(both[i] == a[i]);
    }
    if some_virus_policy(b) {
        let i = choose|i: int| 0 <= i < b.len() && has_virus_policy(#[trigger] b[i]);
        assert(both[a.len() + i] == b[i]);
    }
    if some_virus_policy(both) {
        let i = choose|i: int| 0 <= i < both.len() && has_virus_policy(#[trigger] both[i]);
        if i < a.len() {
            assert(a[i] == both[i]);
        } else {
            assert(b[i - a.len()] == both[i]);
        }
    }
}

/// Looks for a room with a policy on virus protection in a room tree.
fn find_virus_policy(rooms: &Vec<Room>) -> (found: bool)
    ensures
        found == some_virus_policy(preorder_all(rooms_view(rooms@))),
    decreases rooms,
{
    broadcast use lemma_sub_rooms_view;

    let ghost all = rooms_view(rooms@);
    let mut found = false;
    let mut i: usize = 0;
    assert(preorder_all(all.take(0)) =~= Seq::<RoomView>::empty());
    while i < rooms.len()
        invariant
            i <= rooms.len(),
            all == rooms_view(rooms@),
            found == some_virus_policy(preorder_all(all.take(i as int))),
        decreases rooms.len() - i,
    {
        assert(decreases_to!(rooms => rooms@));
        assert(decreases_to!(rooms@ => rooms@[i as int]));
        let room = &rooms[i];
        let own = match &room.policies {
            Some(policies) => policies.is_virus_protection_enabled.is_some(),
            None => false,
        };
        let below = match &room.sub_rooms {
            Some(sub_rooms) => {
                assert(room@.sub_rooms == Some(rooms_view(sub_rooms@)));
                find_virus_policy(sub_rooms)
            },
            None => {
                assert(room@.sub_rooms is None);
                false
            },
        };
        proof {
            let one = seq![room@];
            let rest = preorder_all(sub_rooms_of(room@));
            lemma_preorder_all_take(all, i as int);
            lemma_preorder(room@);
            lemma_virus_policy_concat(preorder_all(all.take(i as int)), one + rest);
            lemma_virus_policy_concat(one, rest);
            assert(one[0] == room@);
            assert(some_virus_policy(one) <==> has_virus_policy(room@));
            assert(own == has_virus_policy(room@));
            assert(below == some_virus_policy(rest));
        }
        found = found || own || below;
        i += 1;
    }
    assert(all.take(i as int) =~= all);
    found
}

// ---------------------------------------------------------------- existence

/// A user or a group that has to exist.
#[derive(Debug, Clone, Copy, PartialEq, Eq, Structural)]
pub enum Question {
    User(u64),
    Group(u64),
}

/// The questions on a list of ids.
pub open spec fn questions_on(kind: IdKind, ids: Seq<u64>) -> Seq<Question> {
    ids.map_values(
        |id: u64|
            match kind {
                IdKind::User => Question::User(id),
                IdKind::Group => Question::Group(id),
            },
    )
}

/// What is answered where a user or a group does not exist.
pub open spec fn missing_error(question: Question) -> ErrorView {
    match question {
        Question::User(id) => ErrorView::UserDoesNotExist(
            "User with ID '"@ + decimal_text(id as nat) + "' does not exist."@,
        ),
        Question::Group(id) => ErrorView::GroupNotFound(
            "Group with ID '"@ + decimal_text(id as nat) + "' does not exist."@,
        ),
    }
}

/// The questions, in this order, on all users and then on all groups that a
/// room tree mentions.
pub open spec fn asks_for_all(questions: Seq<Question>, rooms: Seq<RoomView>) -> bool {
    exists|users: Seq<u64>, groups: Seq<u64>| #[trigger]
        lists_ids(users, IdKind::User, rooms) && #[trigger] lists_ids(groups, IdKind::Group, rooms)
            && questions == questions_on(IdKind::User, users) + questions_on(IdKind::Group, groups)
}

/// The check that all users and groups of an import exist. It asks one question
/// after the other, and stops at the first one that is answered with no.
pub struct ExistenceCheck {
    questions: Vec<Question>,
    answered: usize,
}

impl View for ExistenceCheck {
    type V = Seq<Question>;

    /// The questions that are still open.
    closed spec fn view(&self) -> Seq<Question> {
        self.questions@.subrange(self.answered as int, self.questions@.len() as int)
    }
}

impl ExistenceCheck {
    #[verifier::type_invariant]
    spec fn well_formed(self) -> bool {
        self.answered <= self.questions@.len()
    }

    /// The check of all users and groups in a room tree.
    pub fn new(rooms: &Vec<Room>) -> (check: Self)
        ensures
            asks_for_all(check@, preorder_all(rooms_view(rooms@))),
    {
        let users = unique_ids(IdKind::User, rooms);
        let groups = unique_ids(IdKind::Group, rooms);
        let mut questions: Vec<Question> = Vec::new();
        let mut i: usize = 0;
        while i < users.len()
            invariant
                i <= users.len(),
                questions@ == questions_on(IdKind::User, users@.take(i as int)),
            decreases users.len() - i,
        {
            questions.push(Question::User(users[i]));
            assert(questions@ =~= questions_on(IdKind::User, users@.take(i + 1)));
            i += 1;
        }
        assert(users@.take(i as int) =~= users@);
        let ghost on_users = questions@;
        let mut j: usize = 0;
        assert(on_users =~= on_users + questions_on(IdKind::Group, groups@.take(0)));
        while j < groups.len()
            invariant
                j <= groups.len(),
                questions@ == on_users + questions_on(IdKind::Group, groups@.take(j as int)),
            decreases groups.len() - j,
        {
            questions.push(Question::Group(groups[j]));
            assert(questions@ =~= on_users + questions_on(IdKind::Group, groups@.take(j + 1)));
            j += 1;
        }
        assert(groups@.take(j as int) =~= groups@);
        let check = ExistenceCheck { questions, answered: 0 };
        assert(check@ =~= questions_on(IdKind::User, users@) + questions_on(
            IdKind::Group,
            groups@,
        ));
        assert(lists_ids(users@, IdKind::User, preorder_all(rooms_view(rooms@))));
        assert(lists_ids(groups@, IdKind::Group, preorder_all(rooms_view(rooms@))));
        check
    }

    /// The next open question.
    pub fn next_question(&self) -> (question: Option<Question>)
        ensures
            question == (if self@.len() > 0 {
                Some(self@[0])
            } else {
                None
            }),
    {
        proof {
            use_type_invariant(self);
        }
        if self.answered < self.questions.len() {
            Some(self.questions[self.answered])
        } else {
            None
        }
    }

    /// Takes the answer to the next open question: whether the user or the group
    /// was found.
    pub fn answer(&mut self, found: bool) -> (result: Result<(), DcCmdError>)
        requires
            old(self)@.len() > 0,
        ensures
            final(self)@ == old(self)@.subrange(1, old(self)@.len() as int),
            outcome(result) == (if found {
                Ok(())
            } else {
                Err(missing_error(old(self)@[0]))
            }),
    {
        proof {
            use_type_invariant(&*self);
        }
        let question = self.questions[self.answered];
        assert(question == old(self)@[0]);
        assert(self.answered < self.questions.len());
        self.answered = self.answered + 1;
        assert(self@ =~= old(self)@.subrange(1, old(self)@.len() as int));
        if found {
            return Ok(());
        }
        match question {
            Question::User(id) => Err(
                DcCmdError::UserDoesNotExist(
                    join3("User with ID '", decimal(id).as_str(), "' does not exist."),
                ),
            ),
            Question::Group(id) => Err(
                DcCmdError::GroupNotFound(
                    join3("Group with ID '", decimal(id).as_str(), "' does not exist."),
                ),
            ),
        }
    }
}

/// How a check ends where some users and groups exist: without an error, or
/// with that of the first question that is answered with no.
pub open spec fn check_error(
    questions: Seq<Question>,
    exist: spec_fn(Question) -> bool,
) -> Option<ErrorView>
    decreases questions.len(),
{
    if questions.len() == 0 {
        None
    } else if exist(questions[0]) {
        check_error(questions.subrange(1, questions.len() as int), exist)
    } else {
        Some(missing_error(questions[0]))
    }
}

proof fn lemma_check_error(questions: Seq<Question>, exist: spec_fn(Question) -> bool)
    ensures
        check_error(questions, exist) is None <==> (forall|i: int|
            0 <= i < questions.len() ==> exist(#[trigger] questions[i])),
    decreases questions.len(),
{
    if questions.len() > 0 {
        let rest = questions.subrange(1, questions.len() as int);
        lemma_check_error(rest, exist);
        if check_error(questions, exist) is None {
            assert forall|i: int| 0 <= i < questions.len() implies exist(
                #[trigger] questions[i],
            ) by {
                if i > 0 {
                    assert(rest[i - 1] == questions[i]);
                }
            }
        }
        if forall|i: int| 0 <= i < questions.len() ==> exist(#[trigger] questions[i]) {
            assert(exist(questions[0]));
            assert forall|i: int| 0 <= i < rest.len() implies exist(#[trigger] rest[i]) by {
                assert(rest[i] == questions[i + 1]);
            }
        }
    }
}

/// The check on an import ends without an error exactly if every user and every
/// group that a room mentions, at any depth, exists.
pub proof fn law_check_asks_for_all(
    questions: Seq<Question>,
    rooms: Seq<RoomView>,
    exist: spec_fn(Question) -> bool,
)
    requires
        asks_for_all(questions, rooms),
    ensures
        check_error(questions, exist) is None <==> (forall|id: u64| #[trigger]
            is_mentioned(IdKind::User, rooms, id) ==> exist(Question::User(id))) && (forall|
            id: u64,
        | #[trigger]
            is_mentioned(IdKind::Group, rooms, id) ==> exist(Question::Group(id))),
{
    lemma_check_error(questions, exist);
    let (users, groups) = choose|users: Seq<u64>, groups: Seq<u64>| #[trigger]
        lists_ids(users, IdKind::User, rooms) && #[trigger] lists_ids(groups, IdKind::Group, rooms)
            && questions == questions_on(IdKind::User, users) + questions_on(IdKind::Group, groups);
    if check_error(questions, exist) is None {
        assert forall|id: u64| #[trigger] is_mentioned(IdKind::User, rooms, id) implies exist(
            Question::User(id),
        ) by {
            assert(users.contains(id));
            let i = choose|i: int| 0 <= i < users.len() && users[i] == id;
            assert(questions[i] == Question::User(id));
        }
        assert forall|id: u64| #[trigger] is_mentioned(IdKind::Group, rooms, id) implies exist(
            Question::Group(id),
        ) by {
            assert(groups.contains(id));
            let i = choose|i: int| 0 <= i < groups.len() && groups[i] == id;
            assert(questions[users.len() + i] == Question::Group(id));
        }
    } else {
        let i = choose|i: int| 0 <= i < questions.len() && !exist(#[trigger] questions[i]);
        if i < users.len() {
            assert(questions[i] == Question::User(users[i]));
            assert(users.contains(users[i]));
            assert(is_mentioned(IdKind::User, rooms, users[i]));
        } else {
            let id = groups[i - users.len()];
            assert(questions[i] == Question::Group(id));
            assert(groups.contains(id));
            assert(is_mentioned(IdKind::Group, rooms, id));
        }
    }
}

// ---------------------------------------------------------------- imports

impl RoomImport {
    /// How many rooms there are in a list of rooms and below it.
    pub fn get_total_rooms(room_struct: Vec<Room>) -> (count: u64)
        requires
            preorder_all(rooms_view(room_struct@)).len() <= u64::MAX,
        ensures
            count == preorder_all(rooms_view(room_struct@)).len(),
    {
        count_rooms(&room_struct)
    }

    /// The ids of all users that a room tree mentions.
    pub fn get_all_unique_user_ids(room_struct: &Vec<Room>) -> (ids: Vec<u64>)
        ensures
            lists_ids(ids@, IdKind::User, preorder_all(rooms_view(room_struct@))),
    {
        unique_ids(IdKind::User, room_struct)
    }

    /// The ids of all groups that a room tree mentions.
    pub fn get_all_unique_group_ids(room_struct: &Vec<Room>) -> (ids: Vec<u64>)
        ensures
            lists_ids(ids@, IdKind::Group, preorder_all(rooms_view(room_struct@))),
    {
        unique_ids(IdKind::Group, room_struct)
    }

    /// Whether a room in a tree says anything on virus protection.
    pub fn check_if_virus_protection_is_some(rooms: Vec<Room>) -> (found: bool)
        ensures
            found == some_virus_policy(preorder_all(rooms_view(rooms@))),
    {
        find_virus_policy(&rooms)
    }

    /// The import of rooms that follow all rules, with their number; an error
    /// for other rooms.
    pub fn analyize_and_validate_room_import_data(
        rules: RuleSet,
        room_struct: Vec<Room>,
    ) -> (result: Result<RoomImport, DcCmdError>)
        requires
            preorder_all(rooms_view(room_struct@)).len() <= u64::MAX,
        ensures
            match import_error(rules, rooms_view(room_struct@)) {
                Some(error) => outcome(result) == Err::<RoomImport, ErrorView>(error),
                None => result == Ok::<RoomImport, DcCmdError>(
                    (RoomImport {
                        total_room_count: preorder_all(rooms_view(room_struct@)).len() as u64,
                        rooms: room_struct,
                    }),
                ),
            },
    {
        match check_rules(rules, &room_struct) {
            Ok(_) => {
                let total_room_count = count_rooms(&room_struct);
                Ok(RoomImport { total_room_count, rooms: room_struct })
            },
            Err(error) => Err(error),
        }
    }
}

// ---------------------------------------------------------------- laws

/// Whether a room name can be used: it holds no character that is not allowed,
/// takes at most 255 bytes, and neither starts with a hyphen nor ends with a
/// period.
pub open spec fn is_usable_name(rules: RuleSet, name: Seq<char>) -> bool {
    &&& !has_reserved(name)
    &&& rules is Filled ==> !name.contains('%') && !name.contains('.')
    &&& encode_utf8(name).len() <= 255
    &&& name.len() > 0 ==> name[0] != '-' && name[name.len() - 1] != '.'
}

/// Whether a room can be imported: somebody administrates it, its name can be
/// used, and no admin is listed without the right to manage it.
pub open spec fn is_importable(rules: RuleSet, room: RoomView) -> bool {
    &&& !nobody_administrates(room)
    &&& is_usable_name(rules, room.name)
    &&& forall|a: int, u: int| !is_conflict_at(room, a, u)
}

proof fn lemma_follows_rules(rules: RuleSet, room: RoomView)
    ensures
        follows_rules(rules, room) <==> is_importable(rules, room),
{
    law_admin_is_needed(room);
    law_names_are_checked(room);
    law_conflict_is_refused(room);
}

/// An import is accepted exactly if every room in it can be imported, at any
/// depth.
pub proof fn law_accepted_import(rules: RuleSet, rooms: Seq<RoomView>)
    ensures
        import_error(rules, rooms) is None <==> (forall|i: int|
            0 <= i < preorder_all(rooms).len() ==> is_importable(
                rules,
                #[trigger] preorder_all(rooms)[i],
            )),
{
    let all = preorder_all(rooms);
    law_valid_import(rules, rooms);
    assert forall|i: int| 0 <= i < all.len() implies follows_rules(rules, #[trigger] all[i])
        == is_importable(rules, all[i]) by {
        lemma_follows_rules(rules, all[i]);
    }
}

/// The error of an import is that of its first tree with an error.
pub proof fn law_first_tree_decides(rules: RuleSet, rooms: Seq<RoomView>, n: int)
    requires
        0 <= n < rooms.len(),
        forall|i: int| 0 <= i < n ==> tree_error(rules, #[trigger] rooms[i]) is None,
        tree_error(rules, rooms[n]) is Some,
    ensures
        import_error(rules, rooms) == tree_error(rules, rooms[n]),
    decreases rooms.len(),
{
    let front = rooms.drop_last();
    assert forall|i: int| 0 <= i < n implies tree_error(rules, #[trigger] front[i]) is None by {
        assert(front[i] == rooms[i]);
    }
    if n < front.len() {
        assert(front[n] == rooms[n]);
        law_first_tree_decides(rules, front, n);
    } else {
        lemma_no_tree_error(rules, front);
    }
}

proof fn lemma_no_tree_error(rules: RuleSet, rooms: Seq<RoomView>)
    requires
        forall|i: int| 0 <= i < rooms.len() ==> tree_error(rules, #[trigger] rooms[i]) is None,
    ensures
        import_error(rules, rooms) is None,
    decreases rooms.len(),
{
    if rooms.len() > 0 {
        let front = rooms.drop_last();
        assert forall|i: int| 0 <= i < front.len() implies tree_error(
            rules,
            #[trigger] front[i],
        ) is None by {
            assert(front[i] == rooms[i]);
        }
        lemma_no_tree_error(rules, front);
        assert(tree_error(rules, rooms[rooms.len() - 1]) is None);
    }
}

/// A tree is first checked for admins, then for names and then for conflicting
/// permissions, over all its rooms each time.
pub proof fn law_order_of_checks(room: RoomView)
    ensures
        tree_error(RuleSet::Filled, room) == first_of(
            first_error(RoomRule::HasAdmin, preorder(room)),
            first_error(RoomRule::LegalName, preorder(room)),
            first_error(RoomRule::NoConflict, preorder(room)),
        ),
        tree_error(RuleSet::Rendered, room) == first_of(
            first_error(RoomRule::HasAdminOrInherits, preorder(room)),
            first_error(RoomRule::UnreservedName, preorder(room)),
            first_error(RoomRule::NoConflict, preorder(room)),
        ),
{
}

/// The first of three errors that is there.
pub open spec fn first_of(
    a: Option<ErrorView>,
    b: Option<ErrorView>,
    c: Option<ErrorView>,
) -> Option<ErrorView> {
    match (a, b) {
        (Some(error), _) => Some(error),
        (None, Some(error)) => Some(error),
        (None, None) => c,
    }
}

/// Virus protection is mentioned exactly if one of the rooms says whether it is
/// on, be it on or off.
pub proof fn law_virus_protection_is_mentioned(rooms: Seq<RoomView>)
    ensures
        some_virus_policy(rooms) <==> exists|i: int|
            0 <= i < rooms.len() && (#[trigger] rooms[i]).policies is Some
                && rooms[i].policies->0.is_virus_protection_enabled is Some,
{
    if some_virus_policy(rooms) {
        let i = choose|i: int| 0 <= i < rooms.len() && has_virus_policy(#[trigger] rooms[i]);
        assert(rooms[i].policies is Some);
    }
    if exists|i: int|
        0 <= i < rooms.len() && (#[trigger] rooms[i]).policies is Some
            && rooms[i].policies->0.is_virus_protection_enabled is Some {
        let i = choose|i: int|
            0 <= i < rooms.len() && (#[trigger] rooms[i]).policies is Some
                && rooms[i].policies->0.is_virus_protection_enabled is Some;
        assert(has_virus_policy(rooms[i]));
    }
}

/// All questions on an import are asked once: one on each user and on each group
/// that a room names, and no other. Those on users come first, and smaller ids
/// before larger ones.
pub proof fn law_questions_on_import(questions: Seq<Question>, rooms: Seq<RoomView>, id: u64)
    requires
        asks_for_all(questions, rooms),
    ensures
        questions.contains(Question::User(id)) <==> (exists|r: int|
            0 <= r < rooms.len() && names_user(#[trigger] rooms[r], id)),
        questions.contains(Question::Group(id)) <==> (exists|r: int|
            0 <= r < rooms.len() && names_group(#[trigger] rooms[r], id)),
        forall|i: int, j: int|
            0 <= i < j < questions.len() ==> comes_before(
                #[trigger] questions[i],
                #[trigger] questions[j],
            ),
{
    let (users, groups) = choose|users: Seq<u64>, groups: Seq<u64>| #[trigger]
        lists_ids(users, IdKind::User, rooms) && #[trigger] lists_ids(groups, IdKind::Group, rooms)
            && questions == questions_on(IdKind::User, users) + questions_on(IdKind::Group, groups);
    law_ids_are_those_named(users, rooms);
    law_ids_are_those_named(groups, rooms);
    assert forall|i: int| 0 <= i < questions.len() implies (#[trigger] questions[i]) == (
    if i < users.len() {
        Question::User(users[i])
    } else {
        Question::Group(groups[i - users.len()])
    }) by {}
    assert(questions.contains(Question::User(id)) <==> users.contains(id)) by {
        if users.contains(id) {
            let i = choose|i: int| 0 <= i < users.len() && users[i] == id;
            assert(questions[i] == Question::User(id));
        }
        if questions.contains(Question::User(id)) {
            let i = choose|i: int| 0 <= i < questions.len() && questions[i] == Question::User(id);
            assert(users[i] == id);
        }
    }
    assert(questions.contains(Question::Group(id)) <==> groups.contains(id)) by {
        if groups.contains(id) {
            let i = choose|i: int| 0 <= i < groups.len() && groups[i] == id;
            assert(questions[users.len() + i] == Question::Group(id));
        }
        if questions.contains(Question::Group(id)) {
            let i = choose|i: int| 0 <= i < questions.len() && questions[i] == Question::Group(id);
            assert(groups[i - users.len()] == id);
        }
    }
}

/// Whether one question comes before another: users before groups, and smaller
/// ids before larger ones.
pub open spec fn comes_before(a: Question, b: Question) -> bool {
    match (a, b) {
        (Question::User(x), Question::User(y)) => x < y,
        (Question::User(_), Question::Group(_)) => true,
        (Question::Group(x), Question::Group(y)) => x < y,
        (Question::Group(_), Question::User(_)) => false,
    }
}

/// A check ends with the error on the first user or group that does not exist,
/// and the error names its id.
pub proof fn law_first_missing_is_named(
    questions: Seq<Question>,
    exist: spec_fn(Question) -> bool,
    n: int,
)
    requires
        0 <= n < questions.len(),
        !exist(questions[n]),
        forall|i: int| 0 <= i < n ==> exist(#[trigger] questions[i]),
    ensures
        check_error(questions, exist) == Some(
            match questions[n] {
                Question::User(id) => ErrorView::UserDoesNotExist(
                    "User with ID '"@ + decimal_text(id as nat) + "' does not exist."@,
                ),
                Question::Group(id) => ErrorView::GroupNotFound(
                    "Group with ID '"@ + decimal_text(id as nat) + "' does not exist."@,
                ),
            },
        ),
    decreases questions.len(),
{
    if n > 0 {
        let rest = questions.subrange(1, questions.len() as int);
        assert(exist(questions[0]));
        assert forall|i: int| 0 <= i < n - 1 implies exist(#[trigger] rest[i]) by {
            assert(rest[i] == questions[i + 1]);
        }
        assert(rest[n - 1] == questions[n]);
        law_first_missing_is_named(rest, exist, n - 1);
    }
}

}
