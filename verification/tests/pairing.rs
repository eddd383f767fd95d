use roster::{
    correlate, correlate_checked, MembershipRecord, RosterError, RosterView, UserRecord,
};

fn member(user: &str) -> MembershipRecord<&'static str> {
    MembershipRecord { group: String::from("g"), user: String::from(user), meta: "" }
}

fn member_named(user: &str, nickname: &'static str) -> MembershipRecord<&'static str> {
    MembershipRecord { group: String::from("g"), user: String::from(user), meta: nickname }
}

fn user(id: &str, online: bool) -> UserRecord<u32> {
    UserRecord { id: String::from(id), online, profile: 0 }
}

fn user_with(id: &str, online: bool, profile: u32) -> UserRecord<u32> {
    UserRecord { id: String::from(id), online, profile }
}

/// The roster of lists that can be paired.
fn pair(
    members: Vec<MembershipRecord<&'static str>>,
    users: Vec<UserRecord<u32>>,
    exclude_offline: bool,
) -> RosterView<&'static str, u32> {
    correlate(members, users, exclude_offline).unwrap()
}

#[test]
fn offline_pair_is_removed_from_both_lists() {
    let roster = pair(
        vec![member("b"), member("a")],
        vec![user("a", true), user("b", false)],
        true,
    );
    assert_eq!(roster.members, vec![member("a")]);
    assert_eq!(roster.users, vec![user("a", true)]);
}

#[test]
fn without_the_filter_both_lists_come_back_sorted() {
    let roster = pair(
        vec![member("b"), member("a")],
        vec![user("a", true), user("b", false)],
        false,
    );
    assert_eq!(roster.members, vec![member("a"), member("b")]);
    assert_eq!(roster.users, vec![user("a", true), user("b", false)]);
}

#[test]
fn empty_lists_give_an_empty_roster() {
    for exclude_offline in [false, true] {
        let roster = pair(
            Vec::<MembershipRecord<&'static str>>::new(),
            Vec::<UserRecord<u32>>::new(),
            exclude_offline,
        );
        assert!(roster.members.is_empty());
        assert!(roster.users.is_empty());
    }
}

#[test]
fn members_stand_beside_their_users_whatever_the_order() {
    let orders_of_members = [
        ["a", "b", "c", "d"],
        ["d", "c", "b", "a"],
        ["b", "d", "a", "c"],
        ["c", "a", "d", "b"],
    ];
    let orders_of_users = [
        ["a", "b", "c", "d"],
        ["d", "c", "b", "a"],
        ["c", "d", "a", "b"],
        ["b", "a", "d", "c"],
    ];
    for members in orders_of_members {
        for users in orders_of_users {
            for exclude_offline in [false, true] {
                let roster = pair(
                    members.iter().map(|id| member(id)).collect(),
                    users.iter().map(|id| user(id, *id != "b")).collect(),
                    exclude_offline,
                );
                assert_eq!(roster.members.len(), roster.users.len());
                for i in 0..roster.members.len() {
                    assert_eq!(roster.members[i].user, roster.users[i].id);
                }
                assert!(roster.is_paired());
            }
        }
    }
}

#[test]
fn nothing_is_dropped_without_the_filter() {
    let roster = pair(
        vec![member("c"), member("a"), member("b")],
        vec![user("b", false), user("c", false), user("a", false)],
        false,
    );
    assert_eq!(roster.members.len(), 3);
    assert_eq!(roster.users.len(), 3);
    assert_eq!(roster.members, vec![member("a"), member("b"), member("c")]);
    assert_eq!(roster.users, vec![user("a", false), user("b", false), user("c", false)]);
}

#[test]
fn nothing_is_dropped_without_the_filter_even_from_lists_that_differ() {
    let roster = pair(
        vec![member("c"), member("a"), member("b")],
        vec![user("z", false)],
        false,
    );
    assert_eq!(roster.members.len(), 3);
    assert_eq!(roster.users.len(), 1);
    let roster = pair(vec![member("c")], vec![user("z", true), user("a", false)], false);
    assert_eq!(roster.members.len(), 1);
    assert_eq!(roster.users.len(), 2);
}

#[test]
fn only_online_users_remain_with_the_filter() {
    let roster = pair(
        vec![member("e"), member("d"), member("c"), member("b"), member("a")],
        vec![
            user("a", false),
            user("b", true),
            user("c", false),
            user("d", true),
            user("e", true),
        ],
        true,
    );
    assert!(roster.users.iter().all(|u| u.online));
    assert_eq!(roster.users, vec![user("b", true), user("d", true), user("e", true)]);
    assert_eq!(roster.members, vec![member("b"), member("d"), member("e")]);
}

#[test]
fn the_filter_leaves_nothing_when_everyone_is_offline() {
    let roster = pair(
        vec![member("a"), member("b")],
        vec![user("b", false), user("a", false)],
        true,
    );
    assert!(roster.members.is_empty());
    assert!(roster.users.is_empty());
}

#[test]
fn the_filter_leaves_everything_when_everyone_is_online() {
    let roster = pair(
        vec![member("b"), member("a")],
        vec![user("b", true), user("a", true)],
        true,
    );
    assert_eq!(roster.members, vec![member("a"), member("b")]);
    assert_eq!(roster.users, vec![user("a", true), user("b", true)]);
}

#[test]
fn what_the_records_carry_comes_through_untouched() {
    let roster = pair(
        vec![member_named("b", "bee"), member_named("a", "ay")],
        vec![user_with("a", true, 11), user_with("b", true, 22)],
        true,
    );
    assert_eq!(roster.members, vec![member_named("a", "ay"), member_named("b", "bee")]);
    assert_eq!(roster.users, vec![user_with("a", true, 11), user_with("b", true, 22)]);
}

#[test]
fn the_same_records_in_another_order_give_the_same_roster() {
    for exclude_offline in [false, true] {
        let first = pair(
            vec![member_named("a", "1"), member_named("b", "2"), member_named("c", "3")],
            vec![user_with("a", true, 1), user_with("b", false, 2), user_with("c", true, 3)],
            exclude_offline,
        );
        let second = pair(
            vec![member_named("c", "3"), member_named("a", "1"), member_named("b", "2")],
            vec![user_with("b", false, 2), user_with("c", true, 3), user_with("a", true, 1)],
            exclude_offline,
        );
        assert_eq!(first, second);
    }
}

#[test]
fn a_missing_user_is_an_alignment_violation_under_the_filter() {
    // "b" is missing among the users: the member at the position of the
    // online user "c" would be "b".
    let outcome = correlate(
        vec![member("a"), member("b"), member("c")],
        vec![user("a", false), user("c", true)],
        true,
    );
    assert_eq!(outcome, Err(RosterError::AlignmentViolation));
    let outcome = correlate(vec![member("a"), member("b")], vec![user("b", true)], true);
    assert_eq!(outcome, Err(RosterError::AlignmentViolation));
}

#[test]
fn a_user_too_many_is_an_alignment_violation_under_the_filter() {
    let outcome = correlate(
        vec![member("a")],
        vec![user("a", true), user("b", true), user("c", false)],
        true,
    );
    assert_eq!(outcome, Err(RosterError::AlignmentViolation));
}

#[test]
fn a_member_too_many_is_an_alignment_violation_under_the_filter() {
    let outcome = correlate(
        vec![member("a"), member("b"), member("c")],
        vec![user("a", true)],
        true,
    );
    assert_eq!(outcome, Err(RosterError::AlignmentViolation));
}

#[test]
fn lists_that_differ_come_back_whole_without_the_filter() {
    let roster = pair(
        vec![member("c"), member("a"), member("b")],
        vec![user("c", true), user("a", false)],
        false,
    );
    assert_eq!(roster.members, vec![member("a"), member("b"), member("c")]);
    assert_eq!(roster.users, vec![user("a", false), user("c", true)]);
    assert!(!roster.is_paired());
}

#[test]
fn a_user_listed_twice_does_not_upset_the_sort() {
    let roster = pair(
        vec![member_named("a", "first"), member_named("b", ""), member_named("a", "second")],
        vec![user_with("a", true, 1), user_with("b", false, 2), user_with("a", false, 3)],
        true,
    );
    assert_eq!(roster.members, vec![member_named("a", "first")]);
    assert_eq!(roster.users, vec![user_with("a", true, 1)]);
}

#[test]
fn is_paired_compares_identifiers_position_by_position() {
    let paired = RosterView {
        members: vec![member("a"), member("b")],
        users: vec![user("a", true), user("b", false)],
    };
    assert!(paired.is_paired());
    let crossed = RosterView {
        members: vec![member("a"), member("b")],
        users: vec![user("b", true), user("a", false)],
    };
    assert!(!crossed.is_paired());
    let short = RosterView { members: vec![member("a")], users: Vec::<UserRecord<u32>>::new() };
    assert!(!short.is_paired());
    let empty = RosterView {
        members: Vec::<MembershipRecord<&'static str>>::new(),
        users: Vec::<UserRecord<u32>>::new(),
    };
    assert!(empty.is_paired());
}

#[test]
fn the_checked_pairing_gives_the_roster_of_matching_lists() {
    let roster = correlate_checked(
        vec![member("b"), member("a")],
        vec![user("a", true), user("b", false)],
        true,
    );
    assert_eq!(
        roster,
        Ok(RosterView { members: vec![member("a")], users: vec![user("a", true)] })
    );
    let roster = correlate_checked(
        vec![member("b"), member("a")],
        vec![user("a", true), user("b", false)],
        false,
    );
    assert_eq!(
        roster,
        Ok(RosterView {
            members: vec![member("a"), member("b")],
            users: vec![user("a", true), user("b", false)],
        })
    );
}

#[test]
fn the_checked_pairing_reports_a_missing_user() {
    for exclude_offline in [false, true] {
        let roster = correlate_checked(
            vec![member("a"), member("b"), member("c")],
            vec![user("a", false), user("c", true)],
            exclude_offline,
        );
        assert_eq!(roster, Err(RosterError::AlignmentViolation));
    }
}

#[test]
fn the_checked_pairing_reports_a_user_nobody_asked_for() {
    let roster = correlate_checked(vec![member("a")], vec![user("a", true), user("b", true)], true);
    assert_eq!(roster, Err(RosterError::AlignmentViolation));
    let roster = correlate_checked(vec![member("a")], vec![user("b", true)], false);
    assert_eq!(roster, Err(RosterError::AlignmentViolation));
}

#[test]
fn the_checked_pairing_reports_lists_that_differ_only_among_the_offline() {
    let roster = correlate_checked(
        vec![member("a"), member("b")],
        vec![user("a", true), user("c", false)],
        true,
    );
    assert_eq!(roster, Err(RosterError::AlignmentViolation));
}

#[test]
fn the_checked_pairing_counts_how_often_a_user_is_named() {
    // Equally long and the same identifiers, but not equally often.
    let roster = correlate_checked(
        vec![member("a"), member("a"), member("b")],
        vec![user("a", true), user("b", true), user("b", true)],
        false,
    );
    assert_eq!(roster, Err(RosterError::AlignmentViolation));
    let roster = correlate_checked(
        vec![member_named("a", "x"), member_named("a", "y")],
        vec![user_with("a", true, 1), user_with("a", false, 2)],
        true,
    );
    assert_eq!(
        roster,
        Ok(RosterView {
            members: vec![member_named("a", "x")],
            users: vec![user_with("a", true, 1)],
        })
    );
}

#[test]
fn the_checked_pairing_of_nothing_is_an_empty_roster() {
    let roster = correlate_checked(
        Vec::<MembershipRecord<&'static str>>::new(),
        Vec::<UserRecord<u32>>::new(),
        true,
    );
    assert_eq!(roster, Ok(RosterView { members: vec![], users: vec![] }));
}

/// The pairing written out with the sort of the standard library.
fn pairing_by_hand(
    mut members: Vec<MembershipRecord<&'static str>>,
    mut users: Vec<UserRecord<u32>>,
    exclude_offline: bool,
) -> RosterView<&'static str, u32> {
    members.sort_by(|a, b| a.user.cmp(&b.user));
    users.sort_by(|a, b| a.id.cmp(&b.id));
    if exclude_offline {
        let online: Vec<usize> = users
            .iter()
            .enumerate()
            .filter_map(|(i, user)| if user.online { Some(i) } else { None })
            .collect();
        members = online.iter().filter_map(|&i| members.get(i).cloned()).collect();
        users.retain(|user| user.online);
    }
    RosterView { members, users }
}

#[test]
fn the_pairing_agrees_with_the_pairing_by_hand() {
    let nicknames = ["", "n1", "n2", "n3"];
    let mut seed: u32 = 2024;
    let mut draw = move |below: u32| {
        seed = seed.wrapping_mul(1664525).wrapping_add(1013904223);
        (seed >> 16) % below
    };
    for round in 0..300u32 {
        let mut members = Vec::new();
        let mut users = Vec::new();
        for _ in 0..draw(9) {
            let id = format!("u{}", draw(6));
            members.push(member_named(&id, nicknames[draw(4) as usize]));
        }
        for _ in 0..draw(9) {
            let id = format!("u{}", draw(6));
            users.push(user_with(&id, draw(2) == 0, draw(100)));
        }
        let exclude_offline = round % 2 == 0;
        let expected = pairing_by_hand(members.clone(), users.clone(), exclude_offline);
        let aligned = {
            let mut of_members: Vec<&str> = members.iter().map(|m| m.user.as_str()).collect();
            let mut of_users: Vec<&str> = users.iter().map(|u| u.id.as_str()).collect();
            of_members.sort();
            of_users.sort();
            of_members == of_users
        };
        let paired = correlate(members.clone(), users.clone(), exclude_offline);
        let checked = correlate_checked(members, users, exclude_offline);
        if aligned {
            assert!(expected.is_paired());
            assert_eq!(paired, Ok(expected));
            assert_eq!(checked, paired);
        } else {
            assert_eq!(checked, Err(RosterError::AlignmentViolation));
            if exclude_offline {
                assert_eq!(paired, Err(RosterError::AlignmentViolation));
            } else {
                assert_eq!(paired, Ok(expected));
            }
        }
    }
}

#[test]
fn the_roster_without_the_filter_holds_what_came_in() {
    let members = vec![member_named("c", "x"), member_named("a", "y"), member_named("c", "z")];
    let users = vec![user_with("q", true, 1), user_with("a", false, 2)];
    let roster = pair(members.clone(), users.clone(), false);
    for record in &members {
        let came = members.iter().filter(|m| *m == record).count();
        let went = roster.members.iter().filter(|m| *m == record).count();
        assert_eq!(came, went);
    }
    for record in &users {
        let came = users.iter().filter(|u| *u == record).count();
        let went = roster.users.iter().filter(|u| *u == record).count();
        assert_eq!(came, went);
    }
}
