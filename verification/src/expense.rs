use vstd::prelude::*;

use crate::errors::ContractError;
use crate::input_models::ExpenseInput;
use crate::group::AccountId;

verus! {

/// How an expense's total is split among its members.
#[derive(Clone, Copy, PartialEq, Eq, Structural, Debug)]
pub enum DistributionType {
    /// Everyone owes `floor(amount / member_count)`; any remainder is not
    /// collected from anyone.
    EQUALLY,
    /// Everyone owes the per-member `must_pay` amount they were given.
    UNEQUALLY,
}

/// One member's share of an expense: what they actually contributed (`paid`)
/// and, under the weighted policy, what they must pay.
#[derive(Clone, Copy, PartialEq, Eq, Structural, Debug)]
pub struct ExpenseMember {
    pub member_address: AccountId,
    pub paid: u128,
    pub must_pay: u128,
}

/// A recorded shared cost, immutable once created.
#[derive(Clone, PartialEq, Eq, Debug)]
pub struct Expense {
    pub id: u32,
    pub group_id: u128,
    pub amount: u128,
    pub distribution_type: DistributionType,
    pub members: Vec<ExpenseMember>,
}

/// What one expense member has to pay: an equal share (floor division) under
/// `EQUALLY`, their own `must_pay` under `UNEQUALLY`.
pub open spec fn spec_obligation(expense: Expense, member: ExpenseMember) -> int {
    match expense.distribution_type {
        DistributionType::EQUALLY => (expense.amount as int) / (expense.members@.len() as int),
        DistributionType::UNEQUALLY => member.must_pay as int,
    }
}

/// The signed balance change an expense member causes: what they owe minus
/// what they contributed.
pub open spec fn spec_delta(expense: Expense, member: ExpenseMember) -> int {
    spec_obligation(expense, member) - member.paid
}

/// The member row `Expense::new` builds from one input row.
pub open spec fn spec_expense_member(
    input: ExpenseInput,
    row: crate::input_models::DistributionByMemberInput,
) -> ExpenseMember {
    ExpenseMember {
        member_address: row.member_address,
        paid: if row.member_address == input.payer_address {
            input.amount
        } else {
            0
        },
        must_pay: row.value,
    }
}

impl Expense {
    /// Builds an expense from caller input: each split row becomes a member,
    /// the payer is credited with the full amount, everyone else with zero.
    pub fn new(id: u32, expense_to_add: ExpenseInput) -> (e: Expense)
        ensures
            e.id == id,
            e.group_id == expense_to_add.group_id,
            e.amount == expense_to_add.amount,
            e.distribution_type == expense_to_add.distribution.distribution_type,
            e.members@.len() == expense_to_add.distribution.distribution_by_members@.len(),
            forall|k: int|
                0 <= k < e.members@.len() ==> e.members@[k] == spec_expense_member(
                    expense_to_add,
                    expense_to_add.distribution.distribution_by_members@[k],
                ),
    {
        let rows = &expense_to_add.distribution.distribution_by_members;
        let mut members: Vec<ExpenseMember> = Vec::new();
        let mut k: usize = 0;
        while k < rows.len()
            invariant
                k <= rows@.len(),
                members@.len() == k,
                forall|j: int|
                    0 <= j < k ==> members@[j] == spec_expense_member(expense_to_add, rows@[j]),
            decreases rows@.len() - k,
        {
            let row = rows[k];
            let paid_value: u128 = if row.member_address == expense_to_add.payer_address {
                expense_to_add.amount
            } else {
                0
            };
            members.push(
                ExpenseMember {
                    member_address: row.member_address,
                    paid: paid_value,
                    must_pay: row.value,
                },
            );
            k = k + 1;
        }
        Expense {
            id,
            group_id: expense_to_add.group_id,
            amount: expense_to_add.amount,
            distribution_type: expense_to_add.distribution.distribution_type,
            members,
        }
    }

    /// Whether this expense passes validation: a positive total and a
    /// non-empty distribution.
    pub open spec fn spec_valid(self) -> bool {
        self.amount > 0 && self.members@.len() > 0
    }

    /// Rejects a zero total or an empty distribution; says exactly which.
    pub fn validate(&self) -> (r: Result<(), ContractError>)
        ensures
            self.spec_valid() <==> r is Ok,
            self.amount == 0 ==> r == Result::<(), ContractError>::Err(
                ContractError::ExpenseAmountIsZero,
            ),
            self.amount > 0 && self.members@.len() == 0 ==> r == Result::<(), ContractError>::Err(
                ContractError::ExpenseWithoutDistributionMembers,
            ),
    {
        if self.amount == 0 {
            return Err(ContractError::ExpenseAmountIsZero);
        }
        if self.members.len() == 0 {
            return Err(ContractError::ExpenseWithoutDistributionMembers);
        }
        Ok(())
    }
}

} // verus!
