use roster::{sort_by_key, Keyed, MembershipRecord, UserRecord};

fn member(user: &str, meta: u32) -> MembershipRecord<u32> {
    MembershipRecord { group: String::from("g"), user: String::from(user), meta }
}

fn user(id: &str, online: bool, profile: u32) -> UserRecord<u32> {
    UserRecord { id: String::from(id), online, profile }
}

#[test]
fn sorting_nothing_gives_nothing() {
    let sorted = sort_by_key(Vec::<MembershipRecord<u32>>::new());
    assert!(sorted.is_empty());
}

#[test]
fn sorting_one_record_gives_it_back() {
    let sorted = sort_by_key(vec![member("m", 7)]);
    assert_eq!(sorted, vec![member("m", 7)]);
}

#[test]
fn members_are_sorted_by_user_identifier() {
    let sorted = sort_by_key(vec![
        member("d", 1),
        member("a", 2),
        member("c", 3),
        member("e", 4),
        member("b", 5),
    ]);
    assert_eq!(
        sorted,
        vec![member("a", 2), member("b", 5), member("c", 3), member("d", 1), member("e", 4)]
    );
}

#[test]
fn users_are_sorted_by_identifier() {
    let sorted = sort_by_key(vec![user("z", true, 1), user("y", false, 2), user("x", true, 3)]);
    assert_eq!(sorted, vec![user("x", true, 3), user("y", false, 2), user("z", true, 1)]);
}

#[test]
fn records_with_one_identifier_keep_their_order() {
    let sorted = sort_by_key(vec![
        member("b", 1),
        member("a", 2),
        member("b", 3),
        member("a", 4),
        member("b", 5),
        member("a", 6),
        member("c", 7),
        member("b", 8),
    ]);
    assert_eq!(
        sorted,
        vec![
            member("a", 2),
            member("a", 4),
            member("a", 6),
            member("b", 1),
            member("b", 3),
            member("b", 5),
            member("b", 8),
            member("c", 7),
        ]
    );
}

#[test]
fn sorting_agrees_with_the_stable_sort_of_the_standard_library() {
    let mut records = Vec::new();
    let mut seed: u32 = 12345;
    for i in 0..200u32 {
        seed = seed.wrapping_mul(1103515245).wrapping_add(12345);
        let id = format!("u{}", (seed >> 16) % 40);
        records.push(member(&id, i));
    }
    let mut expected = records.clone();
    expected.sort_by(|a, b| a.user.cmp(&b.user));
    assert_eq!(sort_by_key(records), expected);
}

#[test]
fn a_sorted_list_stays_as_it_is() {
    let sorted = sort_by_key(vec![member("a", 1), member("b", 2), member("c", 3)]);
    assert_eq!(sorted, vec![member("a", 1), member("b", 2), member("c", 3)]);
}

#[test]
fn a_descending_list_is_turned_round() {
    let sorted = sort_by_key(vec![member("c", 1), member("b", 2), member("a", 3)]);
    assert_eq!(sorted, vec![member("a", 3), member("b", 2), member("c", 1)]);
}

#[test]
fn a_member_is_found_by_its_user() {
    assert_eq!(member("u1", 0).key_str(), "u1");
    let other_group =
        MembershipRecord { group: String::from("h"), user: String::from("u1"), meta: 0u32 };
    assert_eq!(other_group.key_str(), "u1");
}

#[test]
fn a_user_is_found_by_its_identifier() {
    assert_eq!(user("u2", true, 0).key_str(), "u2");
    assert_eq!(user("", false, 0).key_str(), "");
}
