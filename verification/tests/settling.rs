use splitmate::group::{AccountId, Group, GroupMember};
use splitmate::input_models::DistributionByMemberInput;
use splitmate::settlement::{settle_up, settle_up_checked};
use splitmate::utils::update_group_debt;

fn member(id: u128, name: &str, debt: i128) -> GroupMember {
    GroupMember { address: AccountId(id), name: String::from(name), debt_value: debt }
}

fn debts(group: &Group) -> Vec<i128> {
    group.members.iter().map(|m| m.debt_value).collect()
}

fn transfer(id: u128, value: u128) -> DistributionByMemberInput {
    DistributionByMemberInput { member_address: AccountId(id), value }
}

fn settle_group() -> Group {
    Group {
        id: 1,
        name: String::from("test"),
        members: vec![
            member(1, "X", 60),
            member(2, "P", -10),
            member(3, "Q", -20),
            member(4, "R", -30),
        ],
        next_expense_id: 1,
    }
}

#[test]
fn partial_failure_applies_exactly_the_successful_prefix() {
    // Three instructions; the second fails on the payment rail, so only the
    // first was paid out.
    let mut group = settle_group();
    let transfers = vec![transfer(2, 10), transfer(3, 20), transfer(4, 30)];
    let result = settle_up(&mut group, AccountId(1), &transfers, 1);
    assert!(!result.succeeded);
    assert_eq!(result.applied, vec![transfer(2, 10)]);
    // The caller is charged only what was transferred; the untouched takers
    // keep their balances.
    assert_eq!(debts(&group), vec![50, 0, -20, -30]);
}

#[test]
fn full_success_settles_every_balance() {
    let mut group = settle_group();
    let transfers = vec![transfer(2, 10), transfer(3, 20), transfer(4, 30)];
    let result = settle_up(&mut group, AccountId(1), &transfers, 3);
    assert!(result.succeeded);
    assert_eq!(result.applied, transfers);
    assert_eq!(debts(&group), vec![0, 0, 0, 0]);
}

#[test]
fn an_empty_prefix_changes_nothing_but_reports_failure() {
    let mut group = settle_group();
    let transfers = vec![transfer(2, 10)];
    let result = settle_up(&mut group, AccountId(1), &transfers, 0);
    assert!(!result.succeeded);
    assert!(result.applied.is_empty());
    assert_eq!(debts(&group), vec![60, -10, -20, -30]);
}

#[test]
fn resubmitting_a_settled_list_double_applies() {
    // Settling is not idempotent: running the same list twice moves the
    // balances twice.
    let mut group = settle_group();
    let transfers = vec![transfer(2, 10)];
    settle_up(&mut group, AccountId(1), &transfers, 1);
    settle_up(&mut group, AccountId(1), &transfers, 1);
    assert_eq!(debts(&group), vec![40, 10, -20, -30]);
}

#[test]
fn checked_settlement_rejects_an_overflowing_update() {
    let mut group = Group {
        id: 1,
        name: String::from("test"),
        members: vec![member(1, "X", 60), member(2, "P", i128::MAX)],
        next_expense_id: 1,
    };
    let before = group.clone();
    let transfers = vec![transfer(2, 10)];
    assert_eq!(settle_up_checked(&mut group, AccountId(1), &transfers, 1), None);
    assert_eq!(group, before);
}

#[test]
fn checked_settlement_rejects_an_unknown_taker() {
    let mut group = settle_group();
    let before = group.clone();
    let transfers = vec![transfer(42, 10)];
    assert_eq!(settle_up_checked(&mut group, AccountId(1), &transfers, 1), None);
    assert_eq!(group, before);
}

#[test]
fn checked_settlement_applies_when_in_range() {
    let mut group = settle_group();
    let transfers = vec![transfer(2, 10), transfer(3, 20)];
    let result = settle_up_checked(&mut group, AccountId(1), &transfers, 2).unwrap();
    assert!(result.succeeded);
    assert_eq!(debts(&group), vec![30, 0, 0, -30]);
}

#[test]
fn update_group_debt_moves_only_the_first_match() {
    let mut group = settle_group();
    update_group_debt(&mut group, AccountId(3), true, 5);
    assert_eq!(debts(&group), vec![60, -10, -15, -30]);
    update_group_debt(&mut group, AccountId(1), false, 25);
    assert_eq!(debts(&group), vec![35, -10, -15, -30]);
}
