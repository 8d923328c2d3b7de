use splitmate::distribution::{
    Taker, find_taker_by, get_member_group_distributions, plan_group_distribution,
    plan_group_distribution_checked, process_giver_debt,
};
use splitmate::group::{AccountId, Group, GroupMember};
use splitmate::output_models::GroupMemberDistributionTransfer;

fn member(id: u128, name: &str, debt: i128) -> GroupMember {
    GroupMember { address: AccountId(id), name: String::from(name), debt_value: debt }
}

fn worked_example_group() -> Group {
    Group {
        id: 1,
        name: String::from("test"),
        members: vec![
            member(1, "Alice", 100),
            member(2, "Bob", -50),
            member(3, "Charlie", -20),
            member(4, "Django", -30),
            member(5, "Eve", -45),
            member(6, "Frank", -5),
        ],
        next_expense_id: 1,
    }
}

#[test]
fn get_distribution_works() {
    let group = worked_example_group();
    let distribution_summary = plan_group_distribution(&group);
    assert_eq!(distribution_summary.len(), 1);
    assert_eq!(distribution_summary[0].total_debt, 100);
    assert_eq!(distribution_summary[0].transfers.len(), 3);
}

#[test]
fn lib_get_distribution_works() {
    let group = Group {
        id: 1,
        name: String::from(""),
        members: vec![
            member(1, "", 100),
            member(2, "", -50),
            member(3, "", -20),
            member(4, "", -30),
            member(5, "", -45),
            member(6, "", -5),
        ],
        next_expense_id: 1,
    };
    let distribution_summary = plan_group_distribution_checked(&group).unwrap();
    assert_eq!(distribution_summary.len(), 1);
    assert_eq!(distribution_summary[0].total_debt, 100);
    assert_eq!(distribution_summary[0].transfers.len(), 3);
}

#[test]
fn worked_example_routes_the_full_hundred() {
    // Takers ascending by balance: Bob(-50), Eve(-45), Django(-30),
    // Charlie(-20), Frank(-5). For Alice (pending 100): no exact or larger
    // match, so the front taker Bob is consumed (pending 50); again no exact
    // or larger match, so Eve is consumed (pending 5); then Frank matches
    // exactly.
    let group = worked_example_group();
    let plan = plan_group_distribution(&group);
    assert_eq!(plan.len(), 1);
    assert_eq!(plan[0].member_account, AccountId(1));
    assert_eq!(
        plan[0].transfers,
        vec![
            GroupMemberDistributionTransfer { member_account: AccountId(2), value: 50 },
            GroupMemberDistributionTransfer { member_account: AccountId(5), value: 45 },
            GroupMemberDistributionTransfer { member_account: AccountId(6), value: 5 },
        ]
    );
    let total: u128 = plan[0].transfers.iter().map(|t| t.value).sum();
    assert_eq!(total, 100);
}

#[test]
fn plan_is_deterministic_across_calls() {
    let group = worked_example_group();
    let first = plan_group_distribution(&group);
    let second = plan_group_distribution(&group);
    assert_eq!(first, second);
}

#[test]
fn empty_giver_side_yields_an_empty_plan() {
    let group = Group {
        id: 1,
        name: String::from("test"),
        members: vec![member(1, "A", 0), member(2, "B", -3)],
        next_expense_id: 1,
    };
    let plan = plan_group_distribution(&group);
    assert!(plan.is_empty());
}

#[test]
fn partially_consumed_taker_keeps_its_reduced_magnitude() {
    // A larger taker is drawn on by the first giver and must keep the
    // reduction for the second giver's exact match.
    let group = Group {
        id: 1,
        name: String::from("test"),
        members: vec![member(1, "A", 30), member(2, "B", 20), member(3, "C", -50)],
        next_expense_id: 1,
    };
    let plan = plan_group_distribution(&group);
    assert_eq!(plan.len(), 2);
    assert_eq!(
        plan[0].transfers,
        vec![GroupMemberDistributionTransfer { member_account: AccountId(3), value: 30 }]
    );
    assert_eq!(
        plan[1].transfers,
        vec![GroupMemberDistributionTransfer { member_account: AccountId(3), value: 20 }]
    );
}

#[test]
fn every_plan_entry_conserves_its_givers_debt() {
    let group = Group {
        id: 1,
        name: String::from("test"),
        members: vec![
            member(1, "A", 17),
            member(2, "B", 25),
            member(3, "C", -9),
            member(4, "D", -9),
            member(5, "E", -9),
            member(6, "F", -15),
        ],
        next_expense_id: 1,
    };
    let plan = plan_group_distribution(&group);
    assert_eq!(plan.len(), 2);
    for entry in &plan {
        let total: u128 = entry.transfers.iter().map(|t| t.value).sum();
        assert_eq!(total as i128, entry.total_debt);
    }
}

#[test]
fn infeasible_group_plans_nothing() {
    let group = Group {
        id: 1,
        name: String::from("test"),
        members: vec![member(1, "A", 10), member(2, "B", -3)],
        next_expense_id: 1,
    };
    assert_eq!(plan_group_distribution_checked(&group), None);
}

#[test]
fn find_taker_by_prefers_the_first_match() {
    let takers = vec![
        Taker { address: AccountId(1), remaining: 40 },
        Taker { address: AccountId(2), remaining: 25 },
        Taker { address: AccountId(3), remaining: 25 },
    ];
    assert_eq!(find_taker_by(&takers, 25, false), Some(1));
    assert_eq!(find_taker_by(&takers, 25, true), Some(0));
    assert_eq!(find_taker_by(&takers, 99, false), None);
    assert_eq!(find_taker_by(&takers, 99, true), None);
}

#[test]
fn process_giver_debt_consumes_the_front_when_nothing_matches() {
    let mut takers = vec![
        Taker { address: AccountId(1), remaining: 7 },
        Taker { address: AccountId(2), remaining: 6 },
    ];
    let transfer = process_giver_debt(10, &mut takers);
    assert_eq!(
        transfer,
        GroupMemberDistributionTransfer { member_account: AccountId(1), value: 7 }
    );
    assert_eq!(takers, vec![Taker { address: AccountId(2), remaining: 6 }]);
}

#[test]
fn process_giver_debt_reduces_a_larger_taker_in_place() {
    let mut takers = vec![
        Taker { address: AccountId(1), remaining: 6 },
        Taker { address: AccountId(2), remaining: 30 },
    ];
    let transfer = process_giver_debt(10, &mut takers);
    assert_eq!(
        transfer,
        GroupMemberDistributionTransfer { member_account: AccountId(2), value: 10 }
    );
    assert_eq!(
        takers,
        vec![
            Taker { address: AccountId(1), remaining: 6 },
            Taker { address: AccountId(2), remaining: 20 },
        ]
    );
}

#[test]
fn member_distributions_pick_the_callers_entry() {
    let groups = vec![
        Group {
            id: 4,
            name: String::from("a"),
            members: vec![member(1, "A", 10), member(2, "B", 5), member(3, "C", -15)],
            next_expense_id: 1,
        },
        Group {
            id: 9,
            name: String::from("b"),
            members: vec![member(2, "B", 8), member(3, "C", -8)],
            next_expense_id: 1,
        },
    ];
    let result = get_member_group_distributions(&groups, AccountId(2));
    assert_eq!(result.len(), 2);
    assert_eq!(result[0].group_id, 4);
    assert_eq!(result[0].member_distribution.member_account, AccountId(2));
    assert_eq!(result[0].member_distribution.total_debt, 5);
    assert_eq!(result[1].group_id, 9);
    assert_eq!(result[1].member_distribution.total_debt, 8);
    assert_eq!(
        result[1].member_distribution.transfers,
        vec![GroupMemberDistributionTransfer { member_account: AccountId(3), value: 8 }]
    );
}
