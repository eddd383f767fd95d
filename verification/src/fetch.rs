//! The decisions of a roster request.
//!
//! A request asks four things of the outside, one after the other: whether
//! the group exists, whether the caller is a member of it, which members it
//! has, and which users these are. It does none of this itself. It names
//! the next query, takes the reply and decides how to go on, until the
//! roster or an error is there.
//!
//! A caller who is not a member is answered as if the group did not exist,
//! so that nobody learns from the answer whether it does.
//!
//! Where the offline users are left out, the users that come back must be
//! the users whom the members name. Where they are not, the request ends
//! with an alignment violation rather than with a member beside another
//! user's record.

use vstd::prelude::*;
use crate::pairing::{
    correlate, handed_out, lemma_arrival_order_is_immaterial, lemma_nothing_is_dropped,
    lemma_only_online_remain, lemma_pairs_share_identifier, lemma_sorted_lists_pair,
    outcome_view, paired, roster, same_users, RosterModel, RosterView,
};
use crate::error::{RosterError, StorageError};
use crate::record::{MembershipRecord, UserRecord};
use crate::sorting::keys;

verus! {

/// What a request is waiting for.
#[derive(Clone, Copy, Debug, PartialEq, Eq)]
pub enum Stage {
    /// Whether the group exists.
    Group,
    /// Whether the caller is a member of the group.
    Membership,
    /// The membership records of the group.
    Members,
    /// The user records of the members.
    Users,
}

/// A request under way.
#[derive(Debug)]
pub struct FetchState<M> {
    exclude_offline: bool,
    stage: Stage,
    members: Vec<MembershipRecord<M>>,
}

/// What the outside is asked to find out.
#[derive(Debug, PartialEq, Eq)]
pub enum Query {
    /// Look the group up.
    Group,
    /// Tell whether the caller is a member of the group.
    Membership,
    /// Fetch all membership records of the group.
    Members,
    /// Fetch the records of the users with these identifiers, as far as the
    /// caller may see them.
    Users(Vec<String>),
}

/// What the outside found out.
#[derive(Debug)]
pub enum Reply<M, P> {
    /// Whether the group exists.
    Group(Result<bool, StorageError>),
    /// Whether the caller is a member of the group.
    Membership(bool),
    /// The membership records of the group.
    Members(Result<Vec<MembershipRecord<M>>, StorageError>),
    /// The user records that the caller may see.
    Users(Result<Vec<UserRecord<P>>, StorageError>),
}

/// How a request goes on after a reply.
#[derive(Debug)]
pub enum Step<M, P> {
    /// The request goes on with this query.
    Ask(FetchState<M>, Query),
    /// The request is over.
    Done(Result<RosterView<M, P>, RosterError>),
}

/// A request under way, as a value of the model.
pub struct FetchStateView<M> {
    pub exclude_offline: bool,
    pub stage: Stage,
    pub members: Seq<MembershipRecord<M>>,
}

/// A query, as a value of the model.
pub enum QueryView {
    Group,
    Membership,
    Members,
    Users(Seq<Seq<char>>),
}

/// A reply, as a value of the model.
pub enum ReplyView<M, P> {
    Group(Result<bool, StorageError>),
    Membership(bool),
    Members(Result<Seq<MembershipRecord<M>>, StorageError>),
    Users(Result<Seq<UserRecord<P>>, StorageError>),
}

/// A step, as a value of the model.
pub enum StepView<M, P> {
    Ask(FetchStateView<M>, QueryView),
    Done(Result<RosterModel<M, P>, RosterError>),
}

/// The identifiers that the strings of `ids` hold.
pub open spec fn id_views(ids: Seq<String>) -> Seq<Seq<char>> {
    ids.map_values(|id: String| id@)
}

impl<M> View for FetchState<M> {
    type V = FetchStateView<M>;

    closed spec fn view(&self) -> FetchStateView<M> {
        FetchStateView {
            exclude_offline: self.exclude_offline,
            stage: self.stage,
            members: self.members@,
        }
    }
}

impl View for Query {
    type V = QueryView;

    open spec fn view(&self) -> QueryView {
        match *self {
            Query::Group => QueryView::Group,
            Query::Membership => QueryView::Membership,
            Query::Members => QueryView::Members,
            Query::Users(ids) => QueryView::Users(id_views(ids@)),
        }
    }
}

impl<M, P> View for Reply<M, P> {
    type V = ReplyView<M, P>;

    open spec fn view(&self) -> ReplyView<M, P> {
        match *self {
            Reply::Group(r) => ReplyView::Group(r),
            Reply::Membership(b) => ReplyView::Membership(b),
            Reply::Members(Ok(members)) => ReplyView::Members(Ok(members@)),
            Reply::Members(Err(e)) => ReplyView::Members(Err(e)),
            Reply::Users(Ok(users)) => ReplyView::Users(Ok(users@)),
            Reply::Users(Err(e)) => ReplyView::Users(Err(e)),
        }
    }
}

impl<M, P> View for Step<M, P> {
    type V = StepView<M, P>;

    open spec fn view(&self) -> StepView<M, P> {
        match *self {
            Step::Ask(state, query) => StepView::Ask(state@, query@),
            Step::Done(outcome) => StepView::Done(outcome_view(outcome)),
        }
    }
}

/// The request before anything was asked: it waits for the group. Offline
/// users are left out only where that was asked for.
pub open spec fn initial<M>(exclude_offline: Option<bool>) -> FetchStateView<M> {
    FetchStateView {
        exclude_offline: exclude_offline == Some(true),
        stage: Stage::Group,
        members: Seq::empty(),
    }
}

/// The request `state` at stage `stage`.
pub open spec fn at_stage<M>(state: FetchStateView<M>, stage: Stage) -> FetchStateView<M> {
    FetchStateView { stage, ..state }
}

/// How the request `state` goes on after `reply`.
///
/// A failure of the storage ends the request. A group that does not exist
/// was not found, and a caller who is not a member is told the same. A
/// reply to another query than the one that is open counts as a failure of
/// the storage. Members and users end the request as `handed_out` says.
pub open spec fn next<M, P>(state: FetchStateView<M>, reply: ReplyView<M, P>) -> StepView<M, P> {
    match (state.stage, reply) {
        (Stage::Group, ReplyView::Group(Ok(true))) => StepView::Ask(
            at_stage(state, Stage::Membership),
            QueryView::Membership,
        ),
        (Stage::Group, ReplyView::Group(Ok(false))) => StepView::Done(Err(RosterError::NotFound)),
        (Stage::Group, ReplyView::Group(Err(_))) => StepView::Done(Err(RosterError::Storage)),
        (Stage::Membership, ReplyView::Membership(true)) => StepView::Ask(
            at_stage(state, Stage::Members),
            QueryView::Members,
        ),
        (Stage::Membership, ReplyView::Membership(false)) => StepView::Done(
            Err(RosterError::NotFound),
        ),
        (Stage::Members, ReplyView::Members(Ok(members))) => StepView::Ask(
            FetchStateView { stage: Stage::Users, members, ..state },
            QueryView::Users(keys(members)),
        ),
        (Stage::Members, ReplyView::Members(Err(_))) => StepView::Done(
            Err(RosterError::Storage),
        ),
        (Stage::Users, ReplyView::Users(Ok(users))) => StepView::Done(
            handed_out(state.members, users, state.exclude_offline),
        ),
        (Stage::Users, ReplyView::Users(Err(_))) => StepView::Done(Err(RosterError::Storage)),
        _ => StepView::Done(Err(RosterError::Storage)),
    }
}

/// Opens a request. The first thing to find out is whether the group
/// exists.
pub fn begin<M>(exclude_offline: Option<bool>) -> (start: (FetchState<M>, Query))
    ensures
        start.0@ == initial::<M>(exclude_offline),
        start.1@ == QueryView::Group,
{
    let exclude_offline = match exclude_offline {
        Some(flag) => flag,
        None => false,
    };
    (FetchState { exclude_offline, stage: Stage::Group, members: Vec::new() }, Query::Group)
}

/// Takes a request one reply further.
pub fn fetch_all<M, P>(state: FetchState<M>, reply: Reply<M, P>) -> (step: Step<M, P>)
    ensures
        step@ == next(state@, reply@),
{
    let FetchState { exclude_offline, stage, members } = state;
    match (stage, reply) {
        (Stage::Group, Reply::Group(Ok(true))) => Step::Ask(
            FetchState { exclude_offline, stage: Stage::Membership, members },
            Query::Membership,
        ),
        (Stage::Group, Reply::Group(Ok(false))) => Step::Done(Err(RosterError::NotFound)),
        (Stage::Membership, Reply::Membership(true)) => Step::Ask(
            FetchState { exclude_offline, stage: Stage::Members, members },
            Query::Members,
        ),
        (Stage::Membership, Reply::Membership(false)) => Step::Done(Err(RosterError::NotFound)),
        (Stage::Members, Reply::Members(Ok(fetched))) => {
            let ids = user_ids(&fetched);
            Step::Ask(
                FetchState { exclude_offline, stage: Stage::Users, members: fetched },
                Query::Users(ids),
            )
        },
        (Stage::Users, Reply::Users(Ok(users))) => Step::Done(
            correlate(members, users, exclude_offline),
        ),
        _ => Step::Done(Err(RosterError::Storage)),
    }
}

/// The identifiers of the users that `members` are about, in the order of
/// `members`.
pub fn user_ids<M>(members: &Vec<MembershipRecord<M>>) -> (ids: Vec<String>)
    ensures
        id_views(ids@) == keys(members@),
{
    let mut ids: Vec<String> = Vec::new();
    let mut i: usize = 0;
    while i < members.len()
        invariant
            i <= members.len(),
            id_views(ids@) == keys(members@.take(i as int)),
        decreases members.len() - i,
    {
        let ghost before = ids@;
        let id = members[i].user.clone();
        ids.push(id);
        proof {
            let part = members@.take(i + 1);
            assert(part.drop_last() =~= members@.take(i as int));
            assert(id_views(ids@) =~= id_views(before).push(id@));
            assert(keys(part) =~= keys(part.drop_last()).push(part.last().user@));
        }
        i = i + 1;
    }
    proof {
        assert(members@.take(members@.len() as int) =~= members@);
    }
    ids
}

impl<M> FetchState<M> {
    /// What the request is waiting for.
    pub fn stage(&self) -> (stage: Stage)
        ensures
            stage == self@.stage,
    {
        self.stage
    }

    /// Whether the roster will leave out the offline users.
    pub fn excludes_offline(&self) -> (flag: bool)
        ensures
            flag == self@.exclude_offline,
    {
        self.exclude_offline
    }
}

/// A caller who is not a member of the group is answered exactly as a
/// caller is who asks for a group that does not exist: both are told that
/// the group was not found.
pub proof fn lemma_non_member_sees_no_group<M, P>(
    looking_up: FetchStateView<M>,
    at_gate: FetchStateView<M>,
)
    requires
        looking_up.stage == Stage::Group,
        at_gate.stage == Stage::Membership,
    ensures
        next::<M, P>(at_gate, ReplyView::Membership(false)) == next::<M, P>(
            looking_up,
            ReplyView::Group(Ok(false)),
        ),
        next::<M, P>(at_gate, ReplyView::Membership(false)) == StepView::<M, P>::Done(
            Err(RosterError::NotFound),
        ),
{
}

/// With the filter, a request hands out a roster exactly where the users
/// that came back are the users whom the members name; every user of that
/// roster is online, and every member stands beside the user with its
/// identifier. Otherwise the request ends with an alignment violation.
pub proof fn lemma_filtered_roster_is_paired<M, P>(
    state: FetchStateView<M>,
    users: Seq<UserRecord<P>>,
)
    requires
        state.stage == Stage::Users,
        state.exclude_offline,
    ensures
        same_users(state.members, users) ==> next(state, ReplyView::Users(Ok(users)))
            == StepView::Done(Ok(roster(state.members, users, true))),
        same_users(state.members, users) ==> paired(
            roster(state.members, users, true).members,
            roster(state.members, users, true).users,
        ),
        same_users(state.members, users) ==> forall|i: int|
            0 <= i < roster(state.members, users, true).users.len() ==> (#[trigger] roster(
                state.members,
                users,
                true,
            ).users[i]).online,
        !same_users(state.members, users) ==> next(state, ReplyView::Users(Ok(users)))
            == StepView::<M, P>::Done(Err(RosterError::AlignmentViolation)),
{
    lemma_only_online_remain(state.members, users);
    if same_users(state.members, users) {
        lemma_pairs_share_identifier(state.members, users, true);
    }
}

/// Without the filter, a request hands out all members and all users,
/// whatever they are; member and user at each position belong together
/// exactly where the users are the users whom the members name.
pub proof fn lemma_unfiltered_roster_is_whole<M, P>(
    state: FetchStateView<M>,
    users: Seq<UserRecord<P>>,
)
    requires
        state.stage == Stage::Users,
        !state.exclude_offline,
    ensures
        next(state, ReplyView::Users(Ok(users))) == StepView::Done(
            Ok(roster(state.members, users, false)),
        ),
        roster(state.members, users, false).members.len() == state.members.len(),
        roster(state.members, users, false).users.len() == users.len(),
        roster(state.members, users, false).members.to_multiset()
            == state.members.to_multiset(),
        roster(state.members, users, false).users.to_multiset() == users.to_multiset(),
        paired(
            roster(state.members, users, false).members,
            roster(state.members, users, false).users,
        ) <==> same_users(state.members, users),
{
    lemma_nothing_is_dropped(state.members, users);
    lemma_sorted_lists_pair(state.members, users);
}

/// Asking again gives the same answer: two requests that are brought the
/// same member records and the same user records, in whatever order, end
/// alike, where no identifier occurs twice among the members or among the
/// users.
pub proof fn lemma_fetch_is_repeatable<M, P>(
    state: FetchStateView<M>,
    users: Seq<UserRecord<P>>,
    state_again: FetchStateView<M>,
    users_again: Seq<UserRecord<P>>,
)
    requires
        state.stage == Stage::Users,
        state_again.stage == Stage::Users,
        state.exclude_offline == state_again.exclude_offline,
        state.members.to_multiset() == state_again.members.to_multiset(),
        users.to_multiset() == users_again.to_multiset(),
        keys(state.members).no_duplicates(),
        keys(users).no_duplicates(),
    ensures
        next(state, ReplyView::Users(Ok(users))) == next(
            state_again,
            ReplyView::Users(Ok(users_again)),
        ),
{
    lemma_arrival_order_is_immaterial(
        state.members,
        users,
        state_again.members,
        users_again,
        state.exclude_offline,
    );
}

/// For a group without members the users of nobody are asked for, and if
/// no user comes back the roster is empty.
pub proof fn lemma_empty_roster<M, P>(state: FetchStateView<M>)
    requires
        state.stage == Stage::Members,
    ensures
        next::<M, P>(state, ReplyView::Members(Ok(Seq::empty()))) == StepView::<M, P>::Ask(
            FetchStateView { stage: Stage::Users, members: Seq::empty(), ..state },
            QueryView::Users(Seq::empty()),
        ),
        next::<M, P>(
            FetchStateView { stage: Stage::Users, members: Seq::empty(), ..state },
            ReplyView::Users(Ok(Seq::empty())),
        ) == StepView::<M, P>::Done(
            Ok(RosterModel { members: Seq::empty(), users: Seq::empty() }),
        ),
{
    reveal(Seq::filter);
    let none = Seq::<MembershipRecord<M>>::empty();
    let nobody = Seq::<UserRecord<P>>::empty();
    assert(keys(none) =~= Seq::<Seq<char>>::empty());
    assert(keys(nobody) =~= Seq::<Seq<char>>::empty());
    assert(roster(none, nobody, state.exclude_offline).members =~= none);
    assert(roster(none, nobody, state.exclude_offline).users =~= nobody);
}

} // verus!
