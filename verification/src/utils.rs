use vstd::prelude::*;

use crate::errors::ContractError;
use crate::expense::{Expense, ExpenseMember, spec_delta, spec_obligation};
use crate::group::{
    AccountId, Group, GroupMember, has_member, lemma_member_index,
    lemma_member_index_same_addresses, lemma_sum_debts_update, member_index, sum_debts,
};

verus! {

pub type BaseResult = Result<(), ContractError>;

/// One expense member's effect on the balance list: the first member with the
/// matching address has their balance moved by the member's delta.
pub open spec fn apply_member_share(
    members: Seq<GroupMember>,
    expense: Expense,
    em: ExpenseMember,
) -> Seq<GroupMember> {
    let i = member_index(members, em.member_address);
    if i >= 0 {
        members.update(
            i,
            GroupMember {
                address: members[i].address,
                name: members[i].name,
                debt_value: (members[i].debt_value + spec_delta(expense, em)) as i128,
            },
        )
    } else {
        members
    }
}

/// The balance list after the first `k` expense members have been applied,
/// in expense order.
pub open spec fn apply_expense(members: Seq<GroupMember>, expense: Expense, k: int) -> Seq<
    GroupMember,
>
    decreases k,
{
    if k <= 0 {
        members
    } else {
        apply_member_share(apply_expense(members, expense, k - 1), expense, expense.members@[k - 1])
    }
}

/// Every address the expense distributes over belongs to some group member.
pub open spec fn all_members_present(members: Seq<GroupMember>, expense: Expense) -> bool {
    forall|k: int|
        #![trigger expense.members@[k]]
        0 <= k < expense.members@.len() ==> has_member(members, expense.members@[k].member_address)
}

/// One application step stays within `i128`: the obligation and the paid
/// amount are representable, and so is the updated balance.
pub open spec fn share_fits(members: Seq<GroupMember>, expense: Expense, em: ExpenseMember) -> bool {
    let i = member_index(members, em.member_address);
    &&& spec_obligation(expense, em) <= i128::MAX as int
    &&& em.paid as int <= i128::MAX as int
    &&& (i >= 0 ==> i128::MIN as int <= members[i].debt_value + spec_delta(expense, em)
        <= i128::MAX as int)
}

/// Applying the whole expense never leaves `i128` at any intermediate step.
pub open spec fn posting_fits(members: Seq<GroupMember>, expense: Expense) -> bool {
    forall|k: int|
        #![trigger apply_expense(members, expense, k)]
        0 <= k < expense.members@.len() ==> share_fits(
            apply_expense(members, expense, k),
            expense,
            expense.members@[k],
        )
}

/// Applying an expense changes balances only: length, addresses and names
/// are untouched.
pub proof fn lemma_apply_expense_frame(members: Seq<GroupMember>, expense: Expense, k: int)
    ensures
        apply_expense(members, expense, k).len() == members.len(),
        forall|j: int|
            #![trigger apply_expense(members, expense, k)[j]]
            0 <= j < members.len() ==> apply_expense(members, expense, k)[j].address
                == members[j].address && apply_expense(members, expense, k)[j].name
                == members[j].name,
    decreases k,
{
    if k > 0 {
        lemma_apply_expense_frame(members, expense, k - 1);
        let prev = apply_expense(members, expense, k - 1);
        let em = expense.members@[k - 1];
        let i = member_index(prev, em.member_address);
        if i >= 0 {
            lemma_member_index(prev, em.member_address);
        }
    }
}

/// The sum of obligations over the first `k` expense members.
pub open spec fn total_obligation(expense: Expense, k: int) -> int
    decreases k,
{
    if k <= 0 {
        0
    } else {
        total_obligation(expense, k - 1) + spec_obligation(expense, expense.members@[k - 1])
    }
}

/// The sum of contributions over the first `k` expense members.
pub open spec fn total_paid(expense: Expense, k: int) -> int
    decreases k,
{
    if k <= 0 {
        0
    } else {
        total_paid(expense, k - 1) + expense.members@[k - 1].paid
    }
}

/// Posting moves the group's balance sum by exactly the total obligations
/// minus the total contributions of the expense.
pub proof fn lemma_apply_expense_sum(members: Seq<GroupMember>, expense: Expense, k: int)
    requires
        0 <= k <= expense.members@.len(),
        all_members_present(members, expense),
        posting_fits(members, expense),
    ensures
        sum_debts(apply_expense(members, expense, k)) == sum_debts(members) + total_obligation(
            expense,
            k,
        ) - total_paid(expense, k),
    decreases k,
{
    if k > 0 {
        lemma_apply_expense_sum(members, expense, k - 1);
        let prev = apply_expense(members, expense, k - 1);
        let em = expense.members@[k - 1];
        lemma_apply_expense_frame(members, expense, k - 1);
        lemma_member_index_same_addresses(prev, members, em.member_address);
        lemma_member_index(members, em.member_address);
        let i = member_index(prev, em.member_address);
        assert(has_member(members, em.member_address));
        assert(i >= 0);
        assert(share_fits(prev, expense, em));
        lemma_sum_debts_update(
            prev,
            i,
            GroupMember {
                address: prev[i].address,
                name: prev[i].name,
                debt_value: (prev[i].debt_value + spec_delta(expense, em)) as i128,
            },
        );
    }
}

/// Zero-sum invariant: when an expense's obligations and contributions agree
/// in total, posting it preserves a zero balance sum, so any sequence of such
/// postings keeps the group zero-sum.
pub proof fn lemma_post_expense_zero_sum(members: Seq<GroupMember>, expense: Expense)
    requires
        all_members_present(members, expense),
        posting_fits(members, expense),
        sum_debts(members) == 0,
        total_obligation(expense, expense.members@.len() as int) == total_paid(
            expense,
            expense.members@.len() as int,
        ),
    ensures
        sum_debts(apply_expense(members, expense, expense.members@.len() as int)) == 0,
{
    lemma_apply_expense_sum(members, expense, expense.members@.len() as int);
}

/// Under the equal-split policy the first `k` obligations total
/// `k * floor(amount / member_count)`.
pub proof fn lemma_equal_split_obligation(expense: Expense, k: int)
    requires
        0 <= k <= expense.members@.len(),
        expense.distribution_type == crate::expense::DistributionType::EQUALLY,
    ensures
        total_obligation(expense, k) == k * ((expense.amount as int) / (
        expense.members@.len() as int)),
    decreases k,
{
    let q = (expense.amount as int) / (expense.members@.len() as int);
    if k > 0 {
        lemma_equal_split_obligation(expense, k - 1);
        assert(total_obligation(expense, k) == total_obligation(expense, k - 1) + spec_obligation(
            expense,
            expense.members@[k - 1],
        ));
        assert(spec_obligation(expense, expense.members@[k - 1]) == q);
        assert(k * q == (k - 1) * q + q) by (nonlinear_arith);
    } else {
        assert(k * q == 0) by (nonlinear_arith)
            requires
                k == 0,
        ;
    }
}

/// EQUAL-split rounding: posting an equally split expense whose
/// contributions cover the full amount lowers the balance sum by exactly the
/// division remainder — the remainder is collected from nobody.
pub proof fn lemma_equal_split_leak(members: Seq<GroupMember>, expense: Expense)
    requires
        all_members_present(members, expense),
        posting_fits(members, expense),
        expense.distribution_type == crate::expense::DistributionType::EQUALLY,
        expense.members@.len() > 0,
        total_paid(expense, expense.members@.len() as int) == expense.amount,
    ensures
        sum_debts(apply_expense(members, expense, expense.members@.len() as int)) == sum_debts(
            members,
        ) - (expense.amount as int) % (expense.members@.len() as int),
{
    let n = expense.members@.len() as int;
    let a = expense.amount as int;
    lemma_apply_expense_sum(members, expense, n);
    lemma_equal_split_obligation(expense, n);
    vstd::arithmetic::div_mod::lemma_fundamental_div_mod(a, n);
    assert(n * (a / n) == (a / n) * n) by (nonlinear_arith);
}

/// Index of the first group member with the given address, if any.
pub(crate) fn find_member_index(members: &Vec<GroupMember>, address: AccountId) -> (r: Option<usize>)
    ensures
        match r {
            Some(i) => i as int == member_index(members@, address) && i < members@.len()
                && members@[i as int].address == address,
            None => member_index(members@, address) == -1,
        },
{
    proof {
        lemma_member_index(members@, address);
    }
    let mut k: usize = 0;
    while k < members.len()
        invariant
            k <= members@.len(),
            member_index(members@, address) >= -1,
            member_index(members@, address) >= 0 ==> {
                let i = member_index(members@, address);
                &&& i < members@.len()
                &&& members@[i].address == address
                &&& forall|j: int| 0 <= j < i ==> members@[j].address != address
            },
            member_index(members@, address) == -1 ==> forall|j: int|
                0 <= j < members@.len() ==> members@[j].address != address,
            forall|j: int| 0 <= j < k ==> members@[j].address != address,
        decreases members@.len() - k,
    {
        if members[k].address == address {
            return Some(k);
        }
        k = k + 1;
    }
    None
}

/// Result of pre-computing an expense's balance changes.
enum StagedPosting {
    /// Some distributed address is not a member of the group.
    Missing,
    /// The posting would leave `i128` at some step.
    Overflow,
    /// The new balance of every member, in member order.
    Staged(Vec<i128>),
}

/// Computes, without touching the group, what every member's balance becomes
/// once the expense is applied — or why it cannot be applied.
fn stage_expense_debts(group: &Group, expense: &Expense) -> (r: StagedPosting)
    ensures
        match r {
            StagedPosting::Missing => !all_members_present(group.members@, *expense),
            StagedPosting::Overflow => all_members_present(group.members@, *expense)
                && !posting_fits(group.members@, *expense),
            StagedPosting::Staged(v) => {
                &&& all_members_present(group.members@, *expense)
                &&& posting_fits(group.members@, *expense)
                &&& v@.len() == group.members@.len()
                &&& forall|j: int|
                    0 <= j < v@.len() ==> v@[j] == apply_expense(
                        group.members@,
                        *expense,
                        expense.members@.len() as int,
                    )[j].debt_value
            },
        },
{
    let ghost m0 = group.members@;
    let n = expense.members.len();

    // Membership pass: find any distributed address outside the group.
    let mut k: usize = 0;
    while k < n
        invariant
            n == expense.members@.len(),
            k <= n,
            forall|j: int|
                #![trigger expense.members@[j]]
                0 <= j < k ==> has_member(m0, expense.members@[j].member_address),
            m0 == group.members@,
        decreases n - k,
    {
        if find_member_index(&group.members, expense.members[k].member_address).is_none() {
            assert(!has_member(m0, expense.members@[k as int].member_address));
            return StagedPosting::Missing;
        }
        k = k + 1;
    }
    assert(all_members_present(m0, *expense));

    // Copy the current balances.
    let mut staged: Vec<i128> = Vec::new();
    let mut j: usize = 0;
    while j < group.members.len()
        invariant
            j <= group.members@.len(),
            staged@.len() == j,
            forall|i: int| 0 <= i < j ==> staged@[i] == group.members@[i].debt_value,
            m0 == group.members@,
        decreases group.members@.len() - j,
    {
        staged.push(group.members[j].debt_value);
        j = j + 1;
    }

    // Apply every expense member's delta with checked arithmetic.
    let mut k: usize = 0;
    while k < n
        invariant
            n == expense.members@.len(),
            k <= n,
            m0 == group.members@,
            all_members_present(m0, *expense),
            staged@.len() == m0.len(),
            forall|i: int|
                0 <= i < staged@.len() ==> staged@[i] == apply_expense(
                    m0,
                    *expense,
                    k as int,
                )[i].debt_value,
            forall|t: int|
                #![trigger apply_expense(m0, *expense, t)]
                0 <= t < k ==> share_fits(
                    apply_expense(m0, *expense, t),
                    *expense,
                    expense.members@[t],
                ),
        decreases n - k,
    {
        let em = expense.members[k];
        let ghost cur_state = apply_expense(m0, *expense, k as int);
        proof {
            lemma_apply_expense_frame(m0, *expense, k as int);
            lemma_member_index_same_addresses(cur_state, m0, em.member_address);
        }
        let i = match find_member_index(&group.members, em.member_address) {
            Some(i) => i,
            None => {
                proof {
                    assert(has_member(m0, em.member_address));
                }
                unreached()
            },
        };
        let obligation: u128 = match expense.distribution_type {
            crate::expense::DistributionType::EQUALLY => expense.amount / (n as u128),
            crate::expense::DistributionType::UNEQUALLY => em.must_pay,
        };
        assert(obligation as int == spec_obligation(*expense, em));
        if obligation > (i128::MAX as u128) || em.paid > (i128::MAX as u128) {
            assert(!share_fits(cur_state, *expense, em));
            return StagedPosting::Overflow;
        }
        let delta: i128 = (obligation as i128) - (em.paid as i128);
        assert(delta == spec_delta(*expense, em));
        let cur: i128 = staged[i];
        assert(cur == cur_state[member_index(cur_state, em.member_address)].debt_value);
        match cur.checked_add(delta) {
            Some(nv) => {
                staged.set(i, nv);
                proof {
                    assert(share_fits(cur_state, *expense, em));
                    assert(apply_expense(m0, *expense, k + 1) == apply_member_share(
                        cur_state,
                        *expense,
                        em,
                    ));
                    assert forall|t: int|
                        0 <= t < staged@.len() implies staged@[t] == apply_expense(
                        m0,
                        *expense,
                        k + 1,
                    )[t].debt_value by {
                        lemma_member_index(cur_state, em.member_address);
                    }
                }
            },
            None => {
                assert(!share_fits(cur_state, *expense, em));
                return StagedPosting::Overflow;
            },
        }
        k = k + 1;
    }
    assert(posting_fits(m0, *expense));
    StagedPosting::Staged(staged)
}

/// Writes a pre-computed balance for every member; addresses, names and
/// member order stay as they are.
fn commit_debts(members: &mut Vec<GroupMember>, debts: &Vec<i128>)
    requires
        debts@.len() == old(members)@.len(),
    ensures
        final(members)@.len() == old(members)@.len(),
        forall|j: int|
            #![trigger final(members)@[j]]
            0 <= j < old(members)@.len() ==> final(members)@[j] == (GroupMember {
                address: old(members)@[j].address,
                name: old(members)@[j].name,
                debt_value: debts@[j],
            }),
{
    let ghost m0 = members@;
    let mut j: usize = 0;
    while j < members.len()
        invariant
            debts@.len() == m0.len(),
            members@.len() == m0.len(),
            j <= m0.len(),
            forall|i: int|
                #![trigger members@[i]]
                0 <= i < j ==> members@[i] == (GroupMember {
                    address: m0[i].address,
                    name: m0[i].name,
                    debt_value: debts@[i],
                }),
            forall|i: int| #![trigger members@[i]] j <= i < m0.len() ==> members@[i] == m0[i],
        decreases m0.len() - j,
    {
        let ghost before = members@;
        let mut m = members.remove(j);
        m.debt_value = debts[j];
        members.insert(j, m);
        proof {
            assert(members@ =~= before.update(j as int, m));
        }
        j = j + 1;
    }
}

/// The state a successful posting leaves the member list in.
pub open spec fn posted_members(members: Seq<GroupMember>, expense: Expense) -> Seq<GroupMember> {
    apply_expense(members, expense, expense.members@.len() as int)
}

/// Applies one expense's balance deltas to the group, all or nothing: if any
/// distributed address is not a member, the group is left untouched and the
/// operation fails. Only balances change; membership, order, names and the
/// group's other fields stay as they are.
pub fn process_expense_debts(group: &mut Group, expense: &Expense) -> (r: BaseResult)
    requires
        all_members_present(old(group).members@, *expense) ==> posting_fits(
            old(group).members@,
            *expense,
        ),
    ensures
        match r {
            Ok(()) => {
                &&& all_members_present(old(group).members@, *expense)
                &&& final(group).members@ == posted_members(old(group).members@, *expense)
            },
            Err(e) => {
                &&& e == ContractError::ExpenseDistributionMemberIsNotInTheGroup
                &&& !all_members_present(old(group).members@, *expense)
                &&& *final(group) == *old(group)
            },
        },
        final(group).id == old(group).id,
        final(group).name == old(group).name,
        final(group).next_expense_id == old(group).next_expense_id,
{
    let ghost m0 = group.members@;
    match stage_expense_debts(group, expense) {
        StagedPosting::Missing => Err(ContractError::ExpenseDistributionMemberIsNotInTheGroup),
        StagedPosting::Overflow => unreached(),
        StagedPosting::Staged(debts) => {
            commit_debts(&mut group.members, &debts);
            proof {
                lemma_apply_expense_frame(m0, *expense, expense.members@.len() as int);
                assert(group.members@ =~= posted_members(m0, *expense));
            }
            Ok(())
        },
    }
}

/// Posts one expense: validates it, then applies its balance deltas.
/// Rejection — a zero total, an empty distribution, or an address outside
/// the group — leaves the group exactly as it was.
pub fn post_expense(group: &mut Group, expense: &Expense) -> (r: BaseResult)
    requires
        expense.spec_valid() && all_members_present(old(group).members@, *expense)
            ==> posting_fits(old(group).members@, *expense),
    ensures
        match r {
            Ok(()) => {
                &&& expense.spec_valid()
                &&& all_members_present(old(group).members@, *expense)
                &&& final(group).members@ == posted_members(old(group).members@, *expense)
            },
            Err(e) => {
                &&& *final(group) == *old(group)
                &&& (e == ContractError::ExpenseAmountIsZero <==> expense.amount == 0)
                &&& (e == ContractError::ExpenseWithoutDistributionMembers <==> expense.amount > 0
                    && expense.members@.len() == 0)
                &&& (e == ContractError::ExpenseDistributionMemberIsNotInTheGroup
                    <==> expense.spec_valid() && !all_members_present(
                    old(group).members@,
                    *expense,
                ))
            },
        },
        r is Ok <==> expense.spec_valid() && all_members_present(old(group).members@, *expense),
        final(group).id == old(group).id,
        final(group).name == old(group).name,
        final(group).next_expense_id == old(group).next_expense_id,
{
    match expense.validate() {
        Ok(()) => process_expense_debts(group, expense),
        Err(e) => Err(e),
    }
}

/// `post_expense` with the arithmetic bound checked at run time instead of
/// assumed: `None` reports a posting that validates but would overflow a
/// balance, and leaves the group untouched.
pub fn post_expense_checked(group: &mut Group, expense: &Expense) -> (r: Option<BaseResult>)
    ensures
        match r {
            None => {
                &&& expense.spec_valid()
                &&& all_members_present(old(group).members@, *expense)
                &&& !posting_fits(old(group).members@, *expense)
                &&& *final(group) == *old(group)
            },
            Some(Ok(())) => {
                &&& expense.spec_valid()
                &&& all_members_present(old(group).members@, *expense)
                &&& posting_fits(old(group).members@, *expense)
                &&& final(group).members@ == posted_members(old(group).members@, *expense)
            },
            Some(Err(e)) => {
                &&& *final(group) == *old(group)
                &&& !(expense.spec_valid() && all_members_present(old(group).members@, *expense))
                &&& (e == ContractError::ExpenseAmountIsZero <==> expense.amount == 0)
                &&& (e == ContractError::ExpenseWithoutDistributionMembers <==> expense.amount > 0
                    && expense.members@.len() == 0)
                &&& (e == ContractError::ExpenseDistributionMemberIsNotInTheGroup
                    <==> expense.spec_valid() && !all_members_present(
                    old(group).members@,
                    *expense,
                ))
            },
        },
        final(group).id == old(group).id,
        final(group).name == old(group).name,
        final(group).next_expense_id == old(group).next_expense_id,
{
    let ghost m0 = group.members@;
    match expense.validate() {
        Ok(()) => {},
        Err(e) => {
            return Some(Err(e));
        },
    }
    match stage_expense_debts(group, expense) {
        StagedPosting::Missing => Some(
            Err(ContractError::ExpenseDistributionMemberIsNotInTheGroup),
        ),
        StagedPosting::Overflow => None,
        StagedPosting::Staged(debts) => {
            commit_debts(&mut group.members, &debts);
            proof {
                lemma_apply_expense_frame(m0, *expense, expense.members@.len() as int);
                assert(group.members@ =~= posted_members(m0, *expense));
            }
            Some(Ok(()))
        },
    }
}

/// How much one expense member has to pay: the floored equal share under
/// `EQUALLY`, their own `must_pay` under `UNEQUALLY`.
pub fn calculate_amount_to_pay_by_member(expense: &Expense, split_member: ExpenseMember) -> (r:
    u128)
    requires
        expense.members@.len() > 0,
    ensures
        r as int == spec_obligation(*expense, split_member),
{
    match expense.distribution_type {
        crate::expense::DistributionType::EQUALLY => expense.amount / (
        expense.members.len() as u128),
        crate::expense::DistributionType::UNEQUALLY => split_member.must_pay,
    }
}

/// Moves one member's balance by `amount`: up for a taker that was just
/// paid, down for the caller that paid. The first member with the matching
/// address is changed and nothing else.
pub fn update_group_debt(group: &mut Group, member_address: AccountId, is_taker: bool, amount: u128)
    requires
        has_member(old(group).members@, member_address),
        amount <= i128::MAX as u128,
        ({
            let i = member_index(old(group).members@, member_address);
            if is_taker {
                old(group).members@[i].debt_value + amount <= i128::MAX as int
            } else {
                old(group).members@[i].debt_value - amount >= i128::MIN as int
            }
        }),
    ensures
        ({
            let i = member_index(old(group).members@, member_address);
            let m = old(group).members@[i];
            final(group).members@ == old(group).members@.update(
                i,
                GroupMember {
                    address: m.address,
                    name: m.name,
                    debt_value: if is_taker {
                        (m.debt_value + amount) as i128
                    } else {
                        (m.debt_value - amount) as i128
                    },
                },
            )
        }),
        final(group).id == old(group).id,
        final(group).name == old(group).name,
        final(group).next_expense_id == old(group).next_expense_id,
{
    proof {
        lemma_member_index(group.members@, member_address);
    }
    let i = match find_member_index(&group.members, member_address) {
        Some(i) => i,
        None => unreached(),
    };
    let ghost before = group.members@;
    let mut member = group.members.remove(i);
    member.debt_value = if is_taker {
        member.debt_value + (amount as i128)
    } else {
        member.debt_value - (amount as i128)
    };
    group.members.insert(i, member);
    proof {
        assert(group.members@ =~= before.update(i as int, member));
    }
}

/// The membership gate's second half: the stored group (if any) was already
/// fetched, the caller's group list (if any) was already fetched; decide
/// whether the caller may act on the group.
pub fn check_group_membership(
    group: Option<Group>,
    member_groups: Option<Vec<u128>>,
    group_id: u128,
) -> (r: Result<Group, ContractError>)
    ensures
        match r {
            Ok(g) => {
                &&& group == Some(g)
                &&& member_groups is Some
                &&& member_groups.unwrap()@.contains(group_id)
            },
            Err(e) => {
                &&& (e == ContractError::GroupDoesNotExist <==> group is None)
                &&& (e == ContractError::MemberIsNotInTheGroup <==> group is Some && (
                member_groups is None || !member_groups.unwrap()@.contains(group_id)))
                &&& (e == ContractError::GroupDoesNotExist || e
                    == ContractError::MemberIsNotInTheGroup)
            },
        },
{
    let g = match group {
        Some(g) => g,
        None => {
            return Err(ContractError::GroupDoesNotExist);
        },
    };
    match member_groups {
        Some(ids) => {
            let mut k: usize = 0;
            while k < ids.len()
                invariant
                    group == Some(g),
                    member_groups == Some(ids),
                    k <= ids@.len(),
                    forall|j: int| 0 <= j < k ==> ids@[j] != group_id,
                decreases ids@.len() - k,
            {
                if ids[k] == group_id {
                    assert(ids@[k as int] == group_id);
                    return Ok(g);
                }
                k = k + 1;
            }
            Err(ContractError::MemberIsNotInTheGroup)
        },
        None => Err(ContractError::MemberIsNotInTheGroup),
    }
}

/// Turns a store lookup into the ledger's answer: the group, or
/// `GroupDoesNotExist`.
pub fn get_group_by_id(group: Option<Group>) -> (r: Result<Group, ContractError>)
    ensures
        match r {
            Ok(g) => group == Some(g),
            Err(e) => group is None && e == ContractError::GroupDoesNotExist,
        },
{
    match group {
        Some(g) => Ok(g),
        None => Err(ContractError::GroupDoesNotExist),
    }
}

/// Appends a group id to a member's (possibly still missing) group list.
pub fn add_to_member_groups(member_groups: Option<Vec<u128>>, group_id: u128) -> (r: Vec<u128>)
    ensures
        r@ == (match member_groups {
            Some(ids) => ids@,
            None => Seq::<u128>::empty(),
        }).push(group_id),
{
    let mut ids = match member_groups {
        Some(ids) => ids,
        None => Vec::new(),
    };
    ids.push(group_id);
    ids
}

} // verus!
