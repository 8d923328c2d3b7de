use vstd::prelude::*;

verus! {

/// Every error the ledger can report.
///
/// Validation errors (`ExpenseAmountIsZero`, `ExpenseWithoutDistributionMembers`,
/// `ExpenseDistributionMemberIsNotInTheGroup`) are detected before any mutation;
/// authorization errors (`GroupDoesNotExist`, `MemberIsNotInTheGroup`) come from
/// the membership gate that runs before the core operations.
#[derive(Clone, Copy, PartialEq, Eq, Structural, Debug)]
pub enum ContractError {
    MemberIsNotInTheGroup,
    ExpenseDistributionMemberIsNotInTheGroup,
    ExpenseAmountIsZero,
    ExpenseWithoutPayers,
    ExpenseWithoutMembers,
    ExpenseWithoutDistributionMembers,
    GroupDoesNotExist,
    TransferError,
}

} // verus!
