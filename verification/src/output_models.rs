use vstd::prelude::*;

use crate::group::AccountId;
use crate::input_models::DistributionByMemberInput;

verus! {

/// One planned transfer: which taker receives, and how much.
#[derive(Clone, Copy, PartialEq, Eq, Structural, Debug)]
pub struct GroupMemberDistributionTransfer {
    pub member_account: AccountId,
    pub value: u128,
}

/// One giver's part of a settlement plan: who they are, what they owe in
/// total, and the ordered transfers that pay it off.
#[derive(Clone, PartialEq, Eq, Debug)]
pub struct GroupMemberDistribution {
    pub member_account: AccountId,
    pub total_debt: i128,
    pub transfers: Vec<GroupMemberDistributionTransfer>,
}

/// The mathematical shape of a `GroupMemberDistribution`.
pub struct GroupMemberDistributionView {
    pub member_account: AccountId,
    pub total_debt: int,
    pub transfers: Seq<GroupMemberDistributionTransfer>,
}

impl View for GroupMemberDistribution {
    type V = GroupMemberDistributionView;

    open spec fn view(&self) -> GroupMemberDistributionView {
        GroupMemberDistributionView {
            member_account: self.member_account,
            total_debt: self.total_debt as int,
            transfers: self.transfers@,
        }
    }
}

/// The views of a whole plan, element by element.
pub open spec fn dist_views(s: Seq<GroupMemberDistribution>) -> Seq<GroupMemberDistributionView> {
    Seq::new(s.len(), |i: int| s[i]@)
}

/// What one settlement run did against one group: the prefix of transfers
/// that went through, and whether the whole list completed.
#[derive(Clone, PartialEq, Eq, Debug)]
pub struct SettleResult {
    pub succeeded: bool,
    pub applied: Vec<DistributionByMemberInput>,
}

/// The takers that were actually paid in one group during a settlement run.
#[derive(Clone, PartialEq, Eq, Debug)]
pub struct GroupSettledDebts {
    pub group_id: u128,
    pub takers: Vec<AccountId>,
}

/// Outcome of a multi-group settlement request: `result` is true when every
/// transfer of every group went through; the partial record is reported
/// when something failed.
#[derive(Clone, PartialEq, Eq, Debug)]
pub struct SettleUpResult {
    pub result: bool,
    pub total_settled_debts: Option<Vec<GroupSettledDebts>>,
}

/// One group's plan entry for a single member, as reported per group.
#[derive(Clone, PartialEq, Eq, Debug)]
pub struct GroupDistributionByMember {
    pub group_id: u128,
    pub member_distribution: GroupMemberDistribution,
}

} // verus!
