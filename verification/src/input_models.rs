use vstd::prelude::*;

use crate::expense::DistributionType;
use crate::group::AccountId;

verus! {

/// One member's row in a requested expense split: who, and (under the
/// weighted policy) how much they must pay. Doubles as a transfer
/// instruction when settling: who receives, and how much.
#[derive(Clone, Copy, PartialEq, Eq, Structural, Debug)]
pub struct DistributionByMemberInput {
    pub member_address: AccountId,
    pub value: u128,
}

/// How a requested expense is split among members.
#[derive(Clone, PartialEq, Eq, Debug)]
pub struct DistributionInput {
    pub distribution_type: DistributionType,
    pub distribution_by_members: Vec<DistributionByMemberInput>,
}

/// A requested expense, as handed in by a caller.
#[derive(Clone, PartialEq, Eq, Debug)]
pub struct ExpenseInput {
    pub group_id: u128,
    pub amount: u128,
    pub payer_address: AccountId,
    pub distribution: DistributionInput,
}

/// The transfers a caller wants executed against one group.
#[derive(Clone, PartialEq, Eq, Debug)]
pub struct GroupDebtsToPay {
    pub group_id: u128,
    pub takers: Vec<DistributionByMemberInput>,
}

} // verus!
