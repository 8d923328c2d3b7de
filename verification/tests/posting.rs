use splitmate::errors::ContractError;
use splitmate::expense::{DistributionType, Expense, ExpenseMember};
use splitmate::group::{AccountId, Group, GroupMember};
use splitmate::input_models::{DistributionByMemberInput, DistributionInput, ExpenseInput};
use splitmate::utils::{
    add_to_member_groups, calculate_amount_to_pay_by_member, check_group_membership,
    get_group_by_id, post_expense, post_expense_checked, process_expense_debts,
};

fn member(id: u128, name: &str, debt: i128) -> GroupMember {
    GroupMember { address: AccountId(id), name: String::from(name), debt_value: debt }
}

fn group_of(members: Vec<GroupMember>) -> Group {
    Group { id: 1, name: String::from("test"), members, next_expense_id: 1 }
}

fn equal_expense(amount: u128, payer: u128, member_ids: &[u128]) -> Expense {
    Expense {
        id: 1,
        group_id: 1,
        amount,
        distribution_type: DistributionType::EQUALLY,
        members: member_ids
            .iter()
            .map(|&id| ExpenseMember {
                member_address: AccountId(id),
                paid: if id == payer { amount } else { 0 },
                must_pay: 0,
            })
            .collect(),
    }
}

fn debts(group: &Group) -> Vec<i128> {
    group.members.iter().map(|m| m.debt_value).collect()
}

#[test]
fn equal_split_rounding_leaves_remainder_uncollected() {
    let mut group = group_of(vec![member(1, "A", 0), member(2, "B", 0), member(3, "C", 0)]);
    let expense = equal_expense(100, 1, &[1, 2, 3]);
    assert!(post_expense(&mut group, &expense).is_ok());
    // floor(100 / 3) == 33 for everyone; the remainder 1 is collected from nobody.
    assert_eq!(debts(&group), vec![33 - 100, 33, 33]);
    let sum: i128 = debts(&group).iter().sum();
    assert_eq!(sum, -1);
}

#[test]
fn equal_split_zero_sum_when_divisible() {
    let mut group = group_of(vec![member(1, "A", 0), member(2, "B", 0), member(3, "C", 0)]);
    let expense = equal_expense(90, 1, &[1, 2, 3]);
    assert!(post_expense(&mut group, &expense).is_ok());
    assert_eq!(debts(&group), vec![30 - 90, 30, 30]);
    let sum: i128 = debts(&group).iter().sum();
    assert_eq!(sum, 0);
}

#[test]
fn weighted_split_zero_sum_when_obligations_cover_amount() {
    let mut group = group_of(vec![member(1, "A", 0), member(2, "B", 0), member(3, "C", 0)]);
    let expense = Expense {
        id: 1,
        group_id: 1,
        amount: 100,
        distribution_type: DistributionType::UNEQUALLY,
        members: vec![
            ExpenseMember { member_address: AccountId(1), paid: 100, must_pay: 50 },
            ExpenseMember { member_address: AccountId(2), paid: 0, must_pay: 30 },
            ExpenseMember { member_address: AccountId(3), paid: 0, must_pay: 20 },
        ],
    };
    assert!(post_expense(&mut group, &expense).is_ok());
    assert_eq!(debts(&group), vec![-50, 30, 20]);
    let sum: i128 = debts(&group).iter().sum();
    assert_eq!(sum, 0);
}

#[test]
fn repeated_postings_preserve_zero_sum() {
    let mut group = group_of(vec![member(1, "A", 0), member(2, "B", 0), member(3, "C", 0)]);
    for payer in [1u128, 2, 3] {
        let expense = equal_expense(90, payer, &[1, 2, 3]);
        assert!(post_expense(&mut group, &expense).is_ok());
        let sum: i128 = debts(&group).iter().sum();
        assert_eq!(sum, 0);
    }
}

#[test]
fn post_expense_rejects_zero_amount_without_mutation() {
    let mut group = group_of(vec![member(1, "A", 7), member(2, "B", -7)]);
    let before = group.clone();
    let expense = equal_expense(0, 1, &[1, 2]);
    assert_eq!(post_expense(&mut group, &expense), Err(ContractError::ExpenseAmountIsZero));
    assert_eq!(group, before);
}

#[test]
fn post_expense_rejects_empty_distribution_without_mutation() {
    let mut group = group_of(vec![member(1, "A", 7), member(2, "B", -7)]);
    let before = group.clone();
    let expense = equal_expense(50, 1, &[]);
    assert_eq!(
        post_expense(&mut group, &expense),
        Err(ContractError::ExpenseWithoutDistributionMembers)
    );
    assert_eq!(group, before);
}

#[test]
fn post_expense_rejects_unknown_member_without_mutation() {
    let mut group = group_of(vec![member(1, "A", 7), member(2, "B", -7)]);
    let before = group.clone();
    let expense = equal_expense(50, 1, &[1, 9]);
    assert_eq!(
        post_expense(&mut group, &expense),
        Err(ContractError::ExpenseDistributionMemberIsNotInTheGroup)
    );
    assert_eq!(group, before);
}

#[test]
fn process_expense_debts_is_all_or_nothing() {
    let mut group = group_of(vec![member(1, "A", 0), member(2, "B", 0)]);
    let before = group.clone();
    // The first expense member is fine, the second is unknown: nothing is applied.
    let expense = equal_expense(10, 1, &[1, 42]);
    assert_eq!(
        process_expense_debts(&mut group, &expense),
        Err(ContractError::ExpenseDistributionMemberIsNotInTheGroup)
    );
    assert_eq!(group, before);
}

#[test]
fn post_expense_checked_reports_overflow_without_mutation() {
    let mut group = group_of(vec![member(1, "A", i128::MAX), member(2, "B", 0)]);
    let before = group.clone();
    let expense = Expense {
        id: 1,
        group_id: 1,
        amount: 10,
        distribution_type: DistributionType::UNEQUALLY,
        members: vec![ExpenseMember { member_address: AccountId(1), paid: 0, must_pay: 10 }],
    };
    assert_eq!(post_expense_checked(&mut group, &expense), None);
    assert_eq!(group, before);
}

#[test]
fn post_expense_checked_applies_when_in_range() {
    let mut group = group_of(vec![member(1, "A", 0), member(2, "B", 0)]);
    let expense = equal_expense(10, 1, &[1, 2]);
    assert_eq!(post_expense_checked(&mut group, &expense), Some(Ok(())));
    assert_eq!(debts(&group), vec![5 - 10, 5]);
}

#[test]
fn expense_new_credits_the_payer_with_the_full_amount() {
    let input = ExpenseInput {
        group_id: 7,
        amount: 120,
        payer_address: AccountId(2),
        distribution: DistributionInput {
            distribution_type: DistributionType::UNEQUALLY,
            distribution_by_members: vec![
                DistributionByMemberInput { member_address: AccountId(1), value: 70 },
                DistributionByMemberInput { member_address: AccountId(2), value: 50 },
            ],
        },
    };
    let expense = Expense::new(3, input);
    assert_eq!(expense.id, 3);
    assert_eq!(expense.group_id, 7);
    assert_eq!(expense.amount, 120);
    assert_eq!(expense.distribution_type, DistributionType::UNEQUALLY);
    assert_eq!(
        expense.members,
        vec![
            ExpenseMember { member_address: AccountId(1), paid: 0, must_pay: 70 },
            ExpenseMember { member_address: AccountId(2), paid: 120, must_pay: 50 },
        ]
    );
}

#[test]
fn validate_reports_each_violation() {
    let zero = equal_expense(0, 1, &[1]);
    assert_eq!(zero.validate(), Err(ContractError::ExpenseAmountIsZero));
    let empty = equal_expense(5, 1, &[]);
    assert_eq!(empty.validate(), Err(ContractError::ExpenseWithoutDistributionMembers));
    let fine = equal_expense(5, 1, &[1]);
    assert_eq!(fine.validate(), Ok(()));
}

#[test]
fn amount_to_pay_follows_the_policy() {
    let equal = equal_expense(100, 1, &[1, 2, 3]);
    let em = equal.members[1];
    assert_eq!(calculate_amount_to_pay_by_member(&equal, em), 33);
    let weighted = Expense {
        id: 1,
        group_id: 1,
        amount: 100,
        distribution_type: DistributionType::UNEQUALLY,
        members: vec![ExpenseMember { member_address: AccountId(1), paid: 0, must_pay: 64 }],
    };
    assert_eq!(calculate_amount_to_pay_by_member(&weighted, weighted.members[0]), 64);
}

#[test]
fn membership_gate_reports_each_failure() {
    let group = group_of(vec![member(1, "A", 0)]);
    assert_eq!(
        check_group_membership(None, Some(vec![1]), 1),
        Err(ContractError::GroupDoesNotExist)
    );
    assert_eq!(
        check_group_membership(Some(group.clone()), None, 1),
        Err(ContractError::MemberIsNotInTheGroup)
    );
    assert_eq!(
        check_group_membership(Some(group.clone()), Some(vec![2, 3]), 1),
        Err(ContractError::MemberIsNotInTheGroup)
    );
    assert_eq!(check_group_membership(Some(group.clone()), Some(vec![2, 1]), 1), Ok(group));
}

#[test]
fn group_lookup_and_member_groups_helpers() {
    let group = group_of(vec![member(1, "A", 0)]);
    assert_eq!(get_group_by_id(None), Err(ContractError::GroupDoesNotExist));
    assert_eq!(get_group_by_id(Some(group.clone())), Ok(group));
    assert_eq!(add_to_member_groups(None, 5), vec![5]);
    assert_eq!(add_to_member_groups(Some(vec![1, 2]), 3), vec![1, 2, 3]);
}

#[test]
fn group_new_and_add_member() {
    let mut group = Group::new(9, String::from("trip"), vec![member(1, "A", 0)]);
    assert_eq!(group.id, 9);
    assert_eq!(group.name, "trip");
    assert_eq!(group.next_expense_id, 1);
    group.add_member(AccountId(2), String::from("B"));
    assert_eq!(group.members.len(), 2);
    assert_eq!(group.members[1], member(2, "B", 0));
}
