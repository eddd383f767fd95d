//! Pairing membership records with user records.
//!
//! Both lists are sorted by user identifier, each on its own, and then read
//! side by side: the member at a position belongs to the user at the same
//! position. The pairs are right where both lists name the same users, each
//! as often as the other. Where a user is missing, or one is there whom no
//! member names, the members behind that position stand beside the wrong
//! users; no offline user is then left out, since a wrong member would go
//! with it.

use vstd::prelude::*;
use crate::error::RosterError;
use crate::ident::{id_order, lemma_id_order_is_total};
use crate::record::{MembershipRecord, UserRecord};
use crate::sorting::{
    keys, lemma_sort_ignores_order, lemma_sort_is_sorted, lemma_sort_permutes,
    lemma_sort_permutes_keys, lemma_sorted_keys, sort_by_key, stable_sort,
};

verus! {

/// A roster as it is handed out: the members, and beside them the users.
#[derive(Debug, PartialEq, Eq)]
pub struct RosterView<M, P> {
    pub members: Vec<MembershipRecord<M>>,
    pub users: Vec<UserRecord<P>>,
}

/// A roster as a value of the model.
pub struct RosterModel<M, P> {
    pub members: Seq<MembershipRecord<M>>,
    pub users: Seq<UserRecord<P>>,
}

impl<M, P> View for RosterView<M, P> {
    type V = RosterModel<M, P>;

    open spec fn view(&self) -> RosterModel<M, P> {
        RosterModel { members: self.members@, users: self.users@ }
    }
}

/// A roster or an error, as a value of the model.
pub open spec fn outcome_view<M, P, E>(r: Result<RosterView<M, P>, E>) -> Result<
    RosterModel<M, P>,
    E,
> {
    match r {
        Ok(view) => Ok(view@),
        Err(e) => Err(e),
    }
}

/// The test for a user who is online.
pub open spec fn is_online<P>() -> spec_fn(UserRecord<P>) -> bool {
    |u: UserRecord<P>| u.online
}

/// The members of `m` at the positions at which `u` holds an online user.
/// A position beyond the end of `m` gives no member.
pub open spec fn members_at_online<M, P>(
    m: Seq<MembershipRecord<M>>,
    u: Seq<UserRecord<P>>,
) -> Seq<MembershipRecord<M>>
    decreases u.len(),
{
    if u.len() == 0 {
        Seq::empty()
    } else {
        let rest = members_at_online(m, u.drop_last());
        if u.last().online && u.len() <= m.len() {
            rest.push(m[u.len() - 1])
        } else {
            rest
        }
    }
}

/// The members of the roster made of `members` and `users`.
pub open spec fn roster_members<M, P>(
    members: Seq<MembershipRecord<M>>,
    users: Seq<UserRecord<P>>,
    exclude_offline: bool,
) -> Seq<MembershipRecord<M>> {
    if exclude_offline {
        members_at_online(stable_sort(members), stable_sort(users))
    } else {
        stable_sort(members)
    }
}

/// The users of the roster made of `users`.
pub open spec fn roster_users<P>(users: Seq<UserRecord<P>>, exclude_offline: bool) -> Seq<
    UserRecord<P>,
> {
    if exclude_offline {
        stable_sort(users).filter(is_online())
    } else {
        stable_sort(users)
    }
}

/// The roster made of `members` and `users`.
pub open spec fn roster<M, P>(
    members: Seq<MembershipRecord<M>>,
    users: Seq<UserRecord<P>>,
    exclude_offline: bool,
) -> RosterModel<M, P> {
    RosterModel {
        members: roster_members(members, users, exclude_offline),
        users: roster_users(users, exclude_offline),
    }
}

/// Whether `members` and `users` name the same users, each as often as the
/// other. Where no identifier occurs twice, this says that the two lists
/// are equally long and hold the same set of identifiers.
pub open spec fn same_users<M, P>(
    members: Seq<MembershipRecord<M>>,
    users: Seq<UserRecord<P>>,
) -> bool {
    keys(members).to_multiset() == keys(users).to_multiset()
}

/// The roster made of `members` and `users`, where they name the same
/// users.
pub open spec fn checked_roster<M, P>(
    members: Seq<MembershipRecord<M>>,
    users: Seq<UserRecord<P>>,
    exclude_offline: bool,
) -> Result<RosterModel<M, P>, RosterError> {
    if same_users(members, users) {
        Ok(roster(members, users, exclude_offline))
    } else {
        Err(RosterError::AlignmentViolation)
    }
}

/// The roster that is handed out for `members` and `users`.
///
/// Without the filter nothing is dropped: both lists are handed out whole,
/// sorted, whatever they hold. With the filter a member goes with the user
/// at its position, so the users must be the users whom the members name:
/// where they are not, the request ends with an error and hands out no
/// pair.
pub open spec fn handed_out<M, P>(
    members: Seq<MembershipRecord<M>>,
    users: Seq<UserRecord<P>>,
    exclude_offline: bool,
) -> Result<RosterModel<M, P>, RosterError> {
    if exclude_offline {
        checked_roster(members, users, true)
    } else {
        Ok(roster(members, users, false))
    }
}

/// Whether `m` and `u` have the same length and hold, at each position, a
/// member and a user with the same identifier.
pub open spec fn paired<M, P>(m: Seq<MembershipRecord<M>>, u: Seq<UserRecord<P>>) -> bool {
    &&& m.len() == u.len()
    &&& forall|i: int| 0 <= i < m.len() ==> (#[trigger] m[i]).user@ == u[i].id@
}

/// Whether each online user of `u` has, at its position in `m`, the member
/// with its identifier.
pub open spec fn online_aligned<M, P>(
    m: Seq<MembershipRecord<M>>,
    u: Seq<UserRecord<P>>,
) -> bool {
    forall|i: int|
        0 <= i < u.len() && (#[trigger] u[i]).online ==> i < m.len() && m[i].user@ == u[i].id@
}

/// How many of the users before position `i` of `u` are online.
pub open spec fn online_before<P>(u: Seq<UserRecord<P>>, i: int) -> int {
    u.take(i).filter(is_online()).len() as int
}

/// Pairs members with users by position after sorting each list by user
/// identifier.
///
/// Without `exclude_offline` both lists come back whole and sorted,
/// whatever they hold; member and user at a position belong together
/// where the two lists name the same users. With `exclude_offline` the
/// offline users are left out, and with each the member at its position;
/// this is done only where the two lists name the same users, so that in
/// the roster every member stands beside the user with its identifier.
/// Where they do not, the violation is reported.
pub fn correlate<M, P>(
    members: Vec<MembershipRecord<M>>,
    users: Vec<UserRecord<P>>,
    exclude_offline: bool,
) -> (r: Result<RosterView<M, P>, RosterError>)
    ensures
        outcome_view(r) == handed_out(members@, users@, exclude_offline),
        !exclude_offline ==> (r matches Ok(view) && view.members@.len() == members@.len()
            && view.users@.len() == users@.len()),
        exclude_offline ==> (r matches Ok(view) ==> paired(view.members@, view.users@)
            && forall|i: int| 0 <= i < view.users@.len() ==> (#[trigger] view.users@[i]).online),
{
    if exclude_offline {
        correlate_checked(members, users, true)
    } else {
        proof {
            lemma_nothing_is_dropped(members@, users@);
        }
        Ok(RosterView { members: sort_by_key(members), users: sort_by_key(users) })
    }
}

/// Pairs members with users as `correlate` does, but also without the
/// filter only where the two lists name the same users; where they do not,
/// reports the violation. In a roster that comes back, every member stands
/// beside the user with its identifier.
pub fn correlate_checked<M, P>(
    members: Vec<MembershipRecord<M>>,
    users: Vec<UserRecord<P>>,
    exclude_offline: bool,
) -> (r: Result<RosterView<M, P>, RosterError>)
    ensures
        outcome_view(r) == checked_roster(members@, users@, exclude_offline),
        r matches Ok(view) ==> paired(view.members@, view.users@),
        r matches Ok(view) ==> exclude_offline ==> forall|i: int|
            0 <= i < view.users@.len() ==> (#[trigger] view.users@[i]).online,
{
    proof {
        lemma_sorted_lists_pair(members@, users@);
        lemma_only_online_remain(members@, users@);
        if same_users(members@, users@) {
            lemma_pairs_share_identifier(members@, users@, exclude_offline);
        }
    }
    let sorted = RosterView { members: sort_by_key(members), users: sort_by_key(users) };
    if !sorted.is_paired() {
        Err(RosterError::AlignmentViolation)
    } else if exclude_offline {
        Ok(keep_online(sorted.members, sorted.users))
    } else {
        Ok(sorted)
    }
}

impl<M, P> RosterView<M, P> {
    /// Whether the roster holds as many members as users and, at each
    /// position, a member and a user with the same identifier.
    pub fn is_paired(&self) -> (r: bool)
        ensures
            r == paired(self.members@, self.users@),
    {
        if self.members.len() != self.users.len() {
            return false;
        }
        let mut i: usize = 0;
        while i < self.members.len()
            invariant
                i <= self.members.len(),
                self.members.len() == self.users.len(),
                forall|j: int|
                    0 <= j < i ==> (#[trigger] self.members@[j]).user@ == self.users@[j].id@,
            decreases self.members.len() - i,
        {
            if !(self.members[i].user == self.users[i].id) {
                return false;
            }
            i = i + 1;
        }
        true
    }
}

/// Drops the offline users, and with each the member at its position.
fn keep_online<M, P>(members: Vec<MembershipRecord<M>>, users: Vec<UserRecord<P>>) -> (view:
    RosterView<M, P>)
    ensures
        view.members@ == members_at_online(members@, users@),
        view.users@ == users@.filter(is_online()),
{
    let ghost m = members@;
    let ghost u = users@;
    let mut kept_members: Vec<MembershipRecord<M>> = Vec::new();
    let mut kept_users: Vec<UserRecord<P>> = Vec::new();
    let mut rest = reversed(members);
    proof {
        reveal(Seq::filter);
        assert(u.take(0) =~= Seq::<UserRecord<P>>::empty());
        assert(m.skip(0) =~= m);
    }
    for user in it: users.into_iter()
        invariant
            it.seq() == u,
            it.index() <= m.len() ==> rest@ == m.skip(it.index() as int).reverse(),
            it.index() > m.len() ==> rest@.len() == 0,
            kept_members@ == members_at_online(m, u.take(it.index() as int)),
            kept_users@ == u.take(it.index() as int).filter(is_online()),
    {
        proof {
            reveal(Seq::filter);
            assert(u.take(it.index() + 1).drop_last() =~= u.take(it.index() as int));
            assert(u.take(it.index() + 1).last() == user);
            if it.index() < m.len() {
                let here = m.skip(it.index() as int);
                assert(here.reverse().last() == m[it.index() as int]);
                assert(here.reverse().drop_last() =~= m.skip(it.index() + 1).reverse());
            }
        }
        let member = rest.pop();
        if user.online {
            match member {
                Some(member) => {
                    kept_members.push(member);
                },
                None => {},
            }
            kept_users.push(user);
        }
    }
    proof {
        assert(u.take(u.len() as int) =~= u);
    }
    RosterView { members: kept_members, users: kept_users }
}

/// Turns a list back to front.
fn reversed<T>(v: Vec<T>) -> (out: Vec<T>)
    ensures
        out@ == v@.reverse(),
{
    let ghost whole = v@;
    let mut v = v;
    let mut out: Vec<T> = Vec::new();
    while v.len() > 0
        invariant
            v@.len() <= whole.len(),
            v@ == whole.take(v@.len() as int),
            out@ == whole.skip(v@.len() as int).reverse(),
        decreases v.len(),
    {
        let ghost n = v@.len() as int;
        let x = v.pop().unwrap();
        out.push(x);
        proof {
            assert(v@ =~= whole.take(n - 1));
            assert(out@ =~= whole.skip(n - 1).reverse());
        }
    }
    proof {
        assert(whole.skip(0) =~= whole);
    }
    out
}

/// Where members and users name the same users, each as often as the
/// other, every member of the roster stands beside the user with its
/// identifier, in whatever order the two lists came and whether or not the
/// offline users are left out.
pub proof fn lemma_pairs_share_identifier<M, P>(
    members: Seq<MembershipRecord<M>>,
    users: Seq<UserRecord<P>>,
    exclude_offline: bool,
)
    requires
        same_users(members, users),
    ensures
        paired(
            roster_members(members, users, exclude_offline),
            roster_users(users, exclude_offline),
        ),
{
    lemma_sorted_lists_pair(members, users);
    if exclude_offline {
        lemma_online_pairs(stable_sort(members), stable_sort(users));
    }
}

/// Two lists that are equally long and hold the same set of identifiers
/// name the same users, where no identifier occurs twice among the members.
pub proof fn lemma_distinct_lists_name_same_users<M, P>(
    members: Seq<MembershipRecord<M>>,
    users: Seq<UserRecord<P>>,
)
    requires
        members.len() == users.len(),
        keys(members).to_set() == keys(users).to_set(),
        keys(members).no_duplicates(),
    ensures
        same_users(members, users),
        keys(users).no_duplicates(),
{
    broadcast use vstd::seq_lib::group_to_multiset_ensures;

    let a = keys(members);
    let b = keys(users);
    a.unique_seq_to_set();
    b.lemma_no_dup_set_cardinality();
    a.lemma_multiset_has_no_duplicates();
    b.lemma_multiset_has_no_duplicates();
    assert forall|x: Seq<char>| a.to_multiset().count(x) == b.to_multiset().count(x) by {
        assert(a.contains(x) <==> a.to_set().contains(x));
        assert(b.contains(x) <==> b.to_set().contains(x));
        assert(a.to_multiset().contains(x) <==> a.to_multiset().count(x) > 0);
        assert(b.to_multiset().contains(x) <==> b.to_multiset().count(x) > 0);
    }
    assert(a.to_multiset() =~= b.to_multiset());
}

/// Sorted, the two lists are paired exactly where they name the same
/// users.
pub proof fn lemma_sorted_lists_pair<M, P>(
    members: Seq<MembershipRecord<M>>,
    users: Seq<UserRecord<P>>,
)
    ensures
        paired(stable_sort(members), stable_sort(users)) <==> same_users(members, users),
{
    let m = stable_sort(members);
    let u = stable_sort(users);
    lemma_sort_permutes_keys(members);
    lemma_sort_permutes_keys(users);
    if paired(m, u) {
        assert(keys(m) =~= keys(u)) by {
            assert forall|i: int| 0 <= i < m.len() implies keys(m)[i] == keys(u)[i] by {
                assert(m[i].user@ == u[i].id@);
            }
        }
    }
    if same_users(members, users) {
        lemma_same_users_pair(members, users);
    }
}

/// Without the filter nothing is dropped: the roster holds the members and
/// the users that came in, each as often as it came.
pub proof fn lemma_nothing_is_dropped<M, P>(
    members: Seq<MembershipRecord<M>>,
    users: Seq<UserRecord<P>>,
)
    ensures
        roster_members(members, users, false).len() == members.len(),
        roster_users(users, false).len() == users.len(),
        roster_members(members, users, false).to_multiset() == members.to_multiset(),
        roster_users(users, false).to_multiset() == users.to_multiset(),
{
    lemma_sort_permutes(members);
    lemma_sort_permutes(users);
}

/// Leaving out the offline users, and with each the member at its
/// position, leaves only online users; members and users are then paired
/// exactly where each online user had, after sorting, its member at its own
/// position.
pub proof fn lemma_only_online_remain<M, P>(
    members: Seq<MembershipRecord<M>>,
    users: Seq<UserRecord<P>>,
)
    ensures
        forall|i: int|
            0 <= i < roster_users(users, true).len() ==> (#[trigger] roster_users(
                users,
                true,
            )[i]).online,
        paired(roster_members(members, users, true), roster_users(users, true))
            <==> online_aligned(stable_sort(members), stable_sort(users)),
{
    let u = stable_sort(users);
    assert forall|i: int| 0 <= i < u.filter(is_online()).len() implies (#[trigger] u.filter(
        is_online(),
    )[i]).online by {
        u.lemma_filter_pred(is_online(), i);
    }
    lemma_online_pairs(stable_sort(members), u);
}

/// With the filter the users of the roster are the users that are online,
/// each as often as it came.
pub proof fn lemma_online_users_are_kept<P>(users: Seq<UserRecord<P>>)
    ensures
        roster_users(users, true).to_multiset() == users.filter(is_online()).to_multiset(),
{
    let sorted = stable_sort(users);
    lemma_sort_permutes(users);
    assert forall|x: UserRecord<P>|
        sorted.filter(is_online()).to_multiset().count(x) == users.filter(
            is_online(),
        ).to_multiset().count(x) by {
        lemma_filter_counts(sorted, is_online(), x);
        lemma_filter_counts(users, is_online(), x);
    }
    assert(sorted.filter(is_online()).to_multiset() =~= users.filter(
        is_online(),
    ).to_multiset());
}

/// A member is kept exactly where the user at its position is online:
/// where no member is missing at the end, as many members are kept as
/// there are online users, and the member at the position of an online
/// user stands in the roster where that user stands.
pub proof fn lemma_member_is_kept_where_user_is_online<M, P>(
    m: Seq<MembershipRecord<M>>,
    u: Seq<UserRecord<P>>,
    i: int,
)
    requires
        u.len() <= m.len(),
        0 <= i < u.len(),
        u[i].online,
    ensures
        members_at_online(m, u).len() == u.filter(is_online()).len(),
        0 <= online_before(u, i) < u.filter(is_online()).len(),
        u.filter(is_online())[online_before(u, i)] == u[i],
        members_at_online(m, u)[online_before(u, i)] == m[i],
    decreases u.len(),
{
    reveal(Seq::filter);
    let v = u.drop_last();
    let n = v.len() as int;
    lemma_members_at_online_count(m, u);
    lemma_members_at_online_count(m, v);
    if i < n {
        assert(v[i] == u[i]);
        assert(v.take(i) =~= u.take(i));
        lemma_member_is_kept_where_user_is_online(m, v, i);
    } else {
        assert(u.take(i) =~= v);
    }
}

/// The order in which the records arrive does not show in the roster:
/// two fetches that bring the same records give the same roster, where no
/// identifier occurs twice among the members or among the users.
pub proof fn lemma_arrival_order_is_immaterial<M, P>(
    members: Seq<MembershipRecord<M>>,
    users: Seq<UserRecord<P>>,
    members_again: Seq<MembershipRecord<M>>,
    users_again: Seq<UserRecord<P>>,
    exclude_offline: bool,
)
    requires
        members.to_multiset() == members_again.to_multiset(),
        users.to_multiset() == users_again.to_multiset(),
        keys(members).no_duplicates(),
        keys(users).no_duplicates(),
    ensures
        roster_members(members, users, exclude_offline) == roster_members(
            members_again,
            users_again,
            exclude_offline,
        ),
        roster_users(users, exclude_offline) == roster_users(users_again, exclude_offline),
        same_users(members, users) == same_users(members_again, users_again),
        handed_out(members, users, exclude_offline) == handed_out(
            members_again,
            users_again,
            exclude_offline,
        ),
{
    lemma_sort_ignores_order(members, members_again);
    lemma_sort_ignores_order(users, users_again);
    lemma_sorted_lists_pair(members, users);
    lemma_sorted_lists_pair(members_again, users_again);
}

/// Sorted, two lists that name the same users are paired.
proof fn lemma_same_users_pair<M, P>(
    members: Seq<MembershipRecord<M>>,
    users: Seq<UserRecord<P>>,
)
    requires
        same_users(members, users),
    ensures
        paired(stable_sort(members), stable_sort(users)),
{
    let m = stable_sort(members);
    let u = stable_sort(users);
    lemma_sort_is_sorted(members);
    lemma_sort_is_sorted(users);
    lemma_sorted_keys(m);
    lemma_sorted_keys(u);
    lemma_sort_permutes_keys(members);
    lemma_sort_permutes_keys(users);
    lemma_id_order_is_total();
    vstd::seq_lib::lemma_sorted_unique(keys(m), keys(u), id_order());
    assert(keys(m).len() == keys(u).len());
    assert forall|i: int| 0 <= i < m.len() implies (#[trigger] m[i]).user@ == u[i].id@ by {
        assert(keys(m)[i] == keys(u)[i]);
    }
}

/// After the offline users are dropped, members and users are paired
/// exactly where each online user had its member at its own position.
proof fn lemma_online_pairs<M, P>(m: Seq<MembershipRecord<M>>, u: Seq<UserRecord<P>>)
    ensures
        paired(members_at_online(m, u), u.filter(is_online())) <==> online_aligned(m, u),
    decreases u.len(),
{
    reveal(Seq::filter);
    if u.len() > 0 {
        let v = u.drop_last();
        let l = u.last();
        let n = v.len() as int;
        let a = members_at_online(m, v);
        let f = v.filter(is_online());
        lemma_online_pairs(m, v);
        lemma_members_at_online_len(m, v);
        assert(u[n] == l);
        assert forall|i: int| 0 <= i < n implies u[i] == v[i] by {}
        if online_aligned(m, u) {
            assert forall|i: int| 0 <= i < v.len() && (#[trigger] v[i]).online implies i < m.len()
                && m[i].user@ == v[i].id@ by {
                assert(u[i].online);
            }
        }
        if l.online && n < m.len() {
            let a2 = a.push(m[n]);
            let f2 = f.push(l);
            if paired(a2, f2) {
                assert forall|i: int| 0 <= i < a.len() implies (#[trigger] a[i]).user@
                    == f[i].id@ by {
                    assert(a2[i] == a[i] && f2[i] == f[i]);
                }
                assert(a2[a.len() as int] == m[n]);
                assert(f2[a.len() as int] == l);
                assert forall|i: int| 0 <= i < u.len() && (#[trigger] u[i]).online implies i
                    < m.len() && m[i].user@ == u[i].id@ by {
                    if i < n {
                        assert(v[i].online);
                    }
                }
            }
            if online_aligned(m, u) {
                assert forall|i: int| 0 <= i < a2.len() implies (#[trigger] a2[i]).user@
                    == f2[i].id@ by {
                    if i < a.len() {
                        assert(a[i].user@ == f[i].id@);
                    }
                }
            }
        } else if l.online {
            assert(u[n].online);
        } else {
            if online_aligned(m, v) {
                assert forall|i: int| 0 <= i < u.len() && (#[trigger] u[i]).online implies i
                    < m.len() && m[i].user@ == u[i].id@ by {
                    assert(v[i].online);
                }
            }
        }
    }
}

/// There are never more members kept than online users.
proof fn lemma_members_at_online_len<M, P>(m: Seq<MembershipRecord<M>>, u: Seq<UserRecord<P>>)
    ensures
        members_at_online(m, u).len() <= u.filter(is_online()).len(),
    decreases u.len(),
{
    reveal(Seq::filter);
    if u.len() > 0 {
        lemma_members_at_online_len(m, u.drop_last());
    }
}

/// Where no member is missing at the end, as many members are kept as
/// there are online users.
proof fn lemma_members_at_online_count<M, P>(m: Seq<MembershipRecord<M>>, u: Seq<UserRecord<P>>)
    requires
        u.len() <= m.len(),
    ensures
        members_at_online(m, u).len() == u.filter(is_online()).len(),
    decreases u.len(),
{
    reveal(Seq::filter);
    if u.len() > 0 {
        lemma_members_at_online_count(m, u.drop_last());
    }
}

/// What passes a filter is there as often as it was before.
proof fn lemma_filter_counts<T>(s: Seq<T>, f: spec_fn(T) -> bool, x: T)
    ensures
        s.filter(f).to_multiset().count(x) == if f(x) {
            s.to_multiset().count(x)
        } else {
            0
        },
    decreases s.len(),
{
    broadcast use vstd::seq_lib::group_to_multiset_ensures;

    reveal(Seq::filter);
    if s.len() > 0 {
        lemma_filter_counts(s.drop_last(), f, x);
        assert(s.drop_last().push(s.last()) =~= s);
    }
}

} // verus!
