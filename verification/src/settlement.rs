use vstd::prelude::*;

use crate::group::{
    AccountId, Group, GroupMember, has_member, lemma_member_index,
    lemma_member_index_same_addresses, member_index,
};
use crate::input_models::DistributionByMemberInput;
use crate::output_models::SettleResult;
use crate::utils::{find_member_index, update_group_debt};

verus! {

/// One successful rail transfer's effect on the ledger: the first member
/// with the taker's address has their balance raised by the amount — their
/// debt toward the caller shrinks.
pub open spec fn pay_taker(
    members: Seq<GroupMember>,
    address: AccountId,
    amount: u128,
) -> Seq<GroupMember> {
    let i = member_index(members, address);
    if i >= 0 {
        members.update(
            i,
            GroupMember {
                address: members[i].address,
                name: members[i].name,
                debt_value: (members[i].debt_value + amount) as i128,
            },
        )
    } else {
        members
    }
}

/// The ledger after the first `k` transfers have been paid out, in order.
pub open spec fn settle_takers(
    members: Seq<GroupMember>,
    transfers: Seq<DistributionByMemberInput>,
    k: int,
) -> Seq<GroupMember>
    decreases k,
{
    if k <= 0 {
        members
    } else {
        pay_taker(
            settle_takers(members, transfers, k - 1),
            transfers[k - 1].member_address,
            transfers[k - 1].value,
        )
    }
}

/// The total amount of the first `k` transfers.
pub open spec fn settled_sum(transfers: Seq<DistributionByMemberInput>, k: int) -> int
    decreases k,
{
    if k <= 0 {
        0
    } else {
        settled_sum(transfers, k - 1) + transfers[k - 1].value
    }
}

/// The caller's side of the settlement: their balance drops by everything
/// that was actually transferred.
pub open spec fn charge_caller(
    members: Seq<GroupMember>,
    caller: AccountId,
    total: int,
) -> Seq<GroupMember> {
    let i = member_index(members, caller);
    if i >= 0 {
        members.update(
            i,
            GroupMember {
                address: members[i].address,
                name: members[i].name,
                debt_value: (members[i].debt_value - total) as i128,
            },
        )
    } else {
        members
    }
}

/// The ledger a settlement run leaves behind when exactly the first `k`
/// transfers succeeded: those takers are paid, and the caller is charged
/// their sum — never the full requested total.
pub open spec fn settle_applied(
    members: Seq<GroupMember>,
    caller: AccountId,
    transfers: Seq<DistributionByMemberInput>,
    k: int,
) -> Seq<GroupMember> {
    charge_caller(settle_takers(members, transfers, k), caller, settled_sum(transfers, k))
}

/// Settling the first `n` transfers stays within `i128` and addresses only
/// members of the group: caller and takers are present, every taker's
/// balance update and the caller's final charge are representable.
pub open spec fn settle_fits(
    members: Seq<GroupMember>,
    caller: AccountId,
    transfers: Seq<DistributionByMemberInput>,
    n: int,
) -> bool {
    &&& has_member(members, caller)
    &&& forall|k: int|
        #![trigger transfers[k]]
        0 <= k < n ==> {
            let ms = settle_takers(members, transfers, k);
            let t = transfers[k];
            &&& has_member(members, t.member_address)
            &&& t.value <= i128::MAX as int
            &&& ms[member_index(ms, t.member_address)].debt_value + t.value <= i128::MAX as int
        }
    &&& settled_sum(transfers, n) <= u128::MAX as int
    &&& settled_sum(transfers, n) <= i128::MAX as int
    &&& ({
        let ms = settle_takers(members, transfers, n);
        ms[member_index(ms, caller)].debt_value - settled_sum(transfers, n) >= i128::MIN as int
    })
}

/// Paying takers changes balances only: length, addresses and names are
/// untouched.
pub proof fn lemma_settle_takers_frame(
    members: Seq<GroupMember>,
    transfers: Seq<DistributionByMemberInput>,
    k: int,
)
    ensures
        settle_takers(members, transfers, k).len() == members.len(),
        forall|j: int|
            #![trigger settle_takers(members, transfers, k)[j]]
            0 <= j < members.len() ==> settle_takers(members, transfers, k)[j].address
                == members[j].address && settle_takers(members, transfers, k)[j].name
                == members[j].name,
    decreases k,
{
    if k > 0 {
        lemma_settle_takers_frame(members, transfers, k - 1);
        let prev = settle_takers(members, transfers, k - 1);
        let i = member_index(prev, transfers[k - 1].member_address);
        if i >= 0 {
            lemma_member_index(prev, transfers[k - 1].member_address);
        }
    }
}

/// The settled total only grows as more transfers succeed.
pub proof fn lemma_settled_sum_monotone(
    transfers: Seq<DistributionByMemberInput>,
    k: int,
    n: int,
)
    requires
        k <= n,
    ensures
        settled_sum(transfers, k) <= settled_sum(transfers, n),
    decreases n - k,
{
    if k < n {
        lemma_settled_sum_monotone(transfers, k, n - 1);
    }
}

/// Executes the ledger side of a settlement run in which exactly the first
/// `paid_count` transfers went through on the payment rail (processing stops
/// at the first failure, so the successes are always a prefix). Each paid
/// taker's balance rises by the amount they received, the caller's balance
/// drops by the sum of what was actually paid, and the result reports
/// success exactly when the whole list completed, with the applied prefix.
pub fn settle_up(
    group: &mut Group,
    caller: AccountId,
    transfers: &Vec<DistributionByMemberInput>,
    paid_count: usize,
) -> (r: SettleResult)
    requires
        paid_count <= transfers@.len(),
        settle_fits(old(group).members@, caller, transfers@, paid_count as int),
    ensures
        r.succeeded == (paid_count == transfers@.len()),
        r.applied@ == transfers@.take(paid_count as int),
        final(group).members@ == settle_applied(
            old(group).members@,
            caller,
            transfers@,
            paid_count as int,
        ),
        final(group).id == old(group).id,
        final(group).name == old(group).name,
        final(group).next_expense_id == old(group).next_expense_id,
{
    let ghost m0 = group.members@;
    let mut applied: Vec<DistributionByMemberInput> = Vec::new();
    let mut total: u128 = 0;
    let mut k: usize = 0;
    proof {
        assert(transfers@.take(0) =~= Seq::<DistributionByMemberInput>::empty());
    }
    while k < paid_count
        invariant
            k <= paid_count <= transfers@.len(),
            settle_fits(m0, caller, transfers@, paid_count as int),
            group.members@ == settle_takers(m0, transfers@, k as int),
            total == settled_sum(transfers@, k as int),
            applied@ == transfers@.take(k as int),
            group.id == old(group).id,
            group.name == old(group).name,
            group.next_expense_id == old(group).next_expense_id,
            m0 == old(group).members@,
        decreases paid_count - k,
    {
        let t = transfers[k];
        let ghost ms = group.members@;
        proof {
            assert(transfers@[k as int] == t);
            lemma_settle_takers_frame(m0, transfers@, k as int);
            lemma_member_index_same_addresses(ms, m0, t.member_address);
            lemma_member_index(ms, t.member_address);
            lemma_settled_sum_monotone(transfers@, k + 1, paid_count as int);
        }
        update_group_debt(group, t.member_address, true, t.value);
        proof {
            assert(group.members@ == pay_taker(ms, t.member_address, t.value));
            assert(group.members@ == settle_takers(m0, transfers@, k + 1));
            assert(transfers@.take(k + 1) =~= transfers@.take(k as int).push(t));
        }
        applied.push(t);
        total = total + t.value;
        k = k + 1;
    }
    let ghost ms = group.members@;
    proof {
        lemma_settle_takers_frame(m0, transfers@, paid_count as int);
        lemma_member_index_same_addresses(ms, m0, caller);
        lemma_member_index(ms, caller);
    }
    update_group_debt(group, caller, false, total);
    proof {
        assert(group.members@ == charge_caller(ms, caller, settled_sum(
            transfers@,
            paid_count as int,
        )));
    }
    SettleResult { succeeded: paid_count == transfers.len(), applied }
}

/// Decides, without touching the group, whether `settle_up` may run: the
/// successful prefix is no longer than the list, and every balance update it
/// would make stays within `i128`.
fn settle_check(
    group: &Group,
    caller: AccountId,
    transfers: &Vec<DistributionByMemberInput>,
    paid_count: usize,
) -> (r: bool)
    ensures
        r == (paid_count <= transfers@.len() && settle_fits(
            group.members@,
            caller,
            transfers@,
            paid_count as int,
        )),
{
    let ghost m0 = group.members@;
    if paid_count > transfers.len() {
        return false;
    }
    if find_member_index(&group.members, caller).is_none() {
        return false;
    }

    // Copy the current balances.
    let mut staged: Vec<i128> = Vec::new();
    let mut j: usize = 0;
    while j < group.members.len()
        invariant
            j <= m0.len(),
            staged@.len() == j,
            forall|i: int| 0 <= i < j ==> staged@[i] == m0[i].debt_value,
            m0 == group.members@,
        decreases m0.len() - j,
    {
        staged.push(group.members[j].debt_value);
        j = j + 1;
    }

    // Replay the taker payments with checked arithmetic.
    let mut total: u128 = 0;
    let mut k: usize = 0;
    while k < paid_count
        invariant
            k <= paid_count <= transfers@.len(),
            m0 == group.members@,
            has_member(m0, caller),
            staged@.len() == m0.len(),
            total == settled_sum(transfers@, k as int),
            forall|i: int|
                0 <= i < staged@.len() ==> staged@[i] == settle_takers(
                    m0,
                    transfers@,
                    k as int,
                )[i].debt_value,
            forall|t: int|
                #![trigger transfers@[t]]
                0 <= t < k ==> {
                    let ms = settle_takers(m0, transfers@, t);
                    let tr = transfers@[t];
                    &&& has_member(m0, tr.member_address)
                    &&& tr.value <= i128::MAX as int
                    &&& ms[member_index(ms, tr.member_address)].debt_value + tr.value
                        <= i128::MAX as int
                },
        decreases paid_count - k,
    {
        let t = transfers[k];
        let ghost ms = settle_takers(m0, transfers@, k as int);
        proof {
            assert(transfers@[k as int] == t);
            lemma_settle_takers_frame(m0, transfers@, k as int);
            lemma_member_index_same_addresses(ms, m0, t.member_address);
        }
        let i = match find_member_index(&group.members, t.member_address) {
            Some(i) => i,
            None => {
                return false;
            },
        };
        if t.value > (i128::MAX as u128) {
            return false;
        }
        let cur: i128 = staged[i];
        proof {
            lemma_member_index(ms, t.member_address);
            assert(cur == ms[member_index(ms, t.member_address)].debt_value);
        }
        match cur.checked_add(t.value as i128) {
            Some(nv) => {
                staged.set(i, nv);
                proof {
                    assert(settle_takers(m0, transfers@, k + 1) == pay_taker(
                        ms,
                        t.member_address,
                        t.value,
                    ));
                    assert forall|x: int| 0 <= x < staged@.len() implies staged@[x]
                        == settle_takers(m0, transfers@, k + 1)[x].debt_value by {
                        lemma_member_index(ms, t.member_address);
                    }
                }
            },
            None => {
                return false;
            },
        }
        match total.checked_add(t.value) {
            Some(nt) => {
                total = nt;
            },
            None => {
                proof {
                    lemma_settled_sum_monotone(transfers@, k + 1, paid_count as int);
                }
                return false;
            },
        }
        k = k + 1;
    }

    // The caller's charge.
    if total > (i128::MAX as u128) {
        return false;
    }
    let ghost ms = settle_takers(m0, transfers@, paid_count as int);
    proof {
        lemma_settle_takers_frame(m0, transfers@, paid_count as int);
        lemma_member_index_same_addresses(ms, m0, caller);
        lemma_member_index(ms, caller);
    }
    let ci = match find_member_index(&group.members, caller) {
        Some(i) => i,
        None => unreached(),
    };
    let cur: i128 = staged[ci];
    proof {
        assert(cur == ms[member_index(ms, caller)].debt_value);
    }
    match cur.checked_sub(total as i128) {
        Some(_) => true,
        None => false,
    }
}

/// `settle_up` with the arithmetic bounds checked at run time instead of
/// assumed: `None` reports a run whose ledger updates would not fit, and
/// leaves the group untouched.
pub fn settle_up_checked(
    group: &mut Group,
    caller: AccountId,
    transfers: &Vec<DistributionByMemberInput>,
    paid_count: usize,
) -> (r: Option<SettleResult>)
    ensures
        match r {
            Some(res) => {
                &&& paid_count <= transfers@.len()
                &&& settle_fits(old(group).members@, caller, transfers@, paid_count as int)
                &&& res.succeeded == (paid_count == transfers@.len())
                &&& res.applied@ == transfers@.take(paid_count as int)
                &&& final(group).members@ == settle_applied(
                    old(group).members@,
                    caller,
                    transfers@,
                    paid_count as int,
                )
            },
            None => {
                &&& !(paid_count <= transfers@.len() && settle_fits(
                    old(group).members@,
                    caller,
                    transfers@,
                    paid_count as int,
                ))
                &&& *final(group) == *old(group)
            },
        },
        final(group).id == old(group).id,
        final(group).name == old(group).name,
        final(group).next_expense_id == old(group).next_expense_id,
{
    if settle_check(group, caller, transfers, paid_count) {
        Some(settle_up(group, caller, transfers, paid_count))
    } else {
        None
    }
}

} // verus!
