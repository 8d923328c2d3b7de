use vstd::prelude::*;

use crate::group::{AccountId, Group, GroupMember};
use crate::output_models::{
    GroupMemberDistribution, GroupMemberDistributionTransfer, GroupMemberDistributionView,
    dist_views,
};

verus! {

/// A member that still owes money: their address and what remains of their
/// debt. Processed in group-member order by the planner.
#[derive(Clone, Copy, PartialEq, Eq, Structural, Debug)]
pub struct Giver {
    pub address: AccountId,
    pub debt_value: i128,
}

/// A member the group owes money to, tracked by the magnitude that is still
/// owed. The planner consumes takers, whole or in part, as it matches them
/// against givers.
#[derive(Clone, Copy, PartialEq, Eq, Structural, Debug)]
pub struct Taker {
    pub address: AccountId,
    pub remaining: u128,
}

/// The givers of a member list: everyone with a positive balance, in order.
pub open spec fn givers_of(members: Seq<GroupMember>) -> Seq<Giver>
    decreases members.len(),
{
    if members.len() == 0 {
        Seq::empty()
    } else {
        let rest = givers_of(members.drop_last());
        let m = members.last();
        if m.debt_value > 0 {
            rest.push(Giver { address: m.address, debt_value: m.debt_value })
        } else {
            rest
        }
    }
}

/// The takers of a member list: everyone with a negative balance, in order,
/// carried by the magnitude they are owed.
pub open spec fn takers_of(members: Seq<GroupMember>) -> Seq<Taker>
    decreases members.len(),
{
    if members.len() == 0 {
        Seq::empty()
    } else {
        let rest = takers_of(members.drop_last());
        let m = members.last();
        if m.debt_value < 0 {
            rest.push(Taker { address: m.address, remaining: (-m.debt_value) as u128 })
        } else {
            rest
        }
    }
}

/// Inserts a taker behind every taker owed at least as much: the insertion
/// step of a stable sort by descending magnitude (equivalently, ascending
/// balance, most negative first).
pub open spec fn insert_taker(t: Taker, s: Seq<Taker>) -> Seq<Taker>
    decreases s.len(),
{
    if s.len() == 0 {
        seq![t]
    } else if s[0].remaining >= t.remaining {
        seq![s[0]] + insert_taker(t, s.drop_first())
    } else {
        seq![t] + s
    }
}

/// Stable insertion sort of the takers by descending remaining magnitude;
/// ties keep their original relative order.
pub open spec fn sort_takers(s: Seq<Taker>) -> Seq<Taker>
    decreases s.len(),
{
    if s.len() == 0 {
        Seq::empty()
    } else {
        insert_taker(s.last(), sort_takers(s.drop_last()))
    }
}

/// Whether a taker satisfies the planner's search: owed exactly the pending
/// amount, or strictly more than it.
pub open spec fn taker_matches(t: Taker, pending: u128, strictly_greater: bool) -> bool {
    if strictly_greater {
        t.remaining > pending
    } else {
        t.remaining == pending
    }
}

/// Index of the first taker matching the search, or -1 when none does.
pub open spec fn find_taker_index(takers: Seq<Taker>, pending: u128, strictly_greater: bool) -> int
    decreases takers.len(),
{
    if takers.len() == 0 {
        -1
    } else if taker_matches(takers[0], pending, strictly_greater) {
        0
    } else {
        let rest = find_taker_index(takers.drop_first(), pending, strictly_greater);
        if rest == -1 {
            -1
        } else {
            rest + 1
        }
    }
}

/// `find_taker_index` returns either -1 with no match anywhere, or the first
/// matching position.
pub proof fn lemma_find_taker_index(takers: Seq<Taker>, pending: u128, strictly_greater: bool)
    ensures
        find_taker_index(takers, pending, strictly_greater) >= -1,
        find_taker_index(takers, pending, strictly_greater) == -1 ==> forall|j: int|
            0 <= j < takers.len() ==> !taker_matches(takers[j], pending, strictly_greater),
        find_taker_index(takers, pending, strictly_greater) >= 0 ==> {
            let i = find_taker_index(takers, pending, strictly_greater);
            &&& i < takers.len()
            &&& taker_matches(takers[i], pending, strictly_greater)
            &&& forall|j: int| 0 <= j < i ==> !taker_matches(takers[j], pending, strictly_greater)
        },
    decreases takers.len(),
{
    if takers.len() > 0 && !taker_matches(takers[0], pending, strictly_greater) {
        let rest = takers.drop_first();
        assert(rest.len() == takers.len() - 1);
        assert(forall|j: int| 0 <= j < rest.len() ==> rest[j] == takers[j + 1]);
        lemma_find_taker_index(rest, pending, strictly_greater);
        let ri = find_taker_index(rest, pending, strictly_greater);
        if ri == -1 {
            assert forall|j: int| 0 <= j < takers.len() implies !taker_matches(
                takers[j],
                pending,
                strictly_greater,
            ) by {
                if j > 0 {
                    assert(takers[j] == rest[j - 1]);
                }
            }
        } else {
            assert(takers[ri + 1] == rest[ri]);
            assert forall|j: int| 0 <= j < ri + 1 implies !taker_matches(
                takers[j],
                pending,
                strictly_greater,
            ) by {
                if j > 0 {
                    assert(takers[j] == rest[j - 1]);
                }
            }
        }
    }
}

/// The transfer one planning step emits for the given pending amount:
/// against the first exact match, else the first strictly-greater taker (for
/// the full pending amount either way), else the front taker for everything
/// that taker is owed.
pub open spec fn plan_step_transfer(pending: u128, takers: Seq<Taker>) -> GroupMemberDistributionTransfer {
    let e = find_taker_index(takers, pending, false);
    let g = find_taker_index(takers, pending, true);
    if e >= 0 {
        GroupMemberDistributionTransfer { member_account: takers[e].address, value: pending }
    } else if g >= 0 {
        GroupMemberDistributionTransfer { member_account: takers[g].address, value: pending }
    } else if takers.len() > 0 {
        GroupMemberDistributionTransfer {
            member_account: takers[0].address,
            value: takers[0].remaining,
        }
    } else {
        GroupMemberDistributionTransfer { member_account: AccountId(0), value: pending }
    }
}

/// The taker pool after one planning step: an exact match leaves the pool, a
/// strictly-greater taker keeps its place with its remaining magnitude
/// reduced, and a consumed front taker leaves the pool.
pub open spec fn plan_step_takers(pending: u128, takers: Seq<Taker>) -> Seq<Taker> {
    let e = find_taker_index(takers, pending, false);
    let g = find_taker_index(takers, pending, true);
    if e >= 0 {
        takers.remove(e)
    } else if g >= 0 {
        takers.update(
            g,
            Taker { address: takers[g].address, remaining: (takers[g].remaining - pending) as u128 },
        )
    } else if takers.len() > 0 {
        takers.drop_first()
    } else {
        takers
    }
}

/// All transfers emitted for one giver with the given pending debt, paired
/// with the taker pool the giver leaves behind.
pub open spec fn plan_giver(pending: u128, takers: Seq<Taker>) -> (
    Seq<GroupMemberDistributionTransfer>,
    Seq<Taker>,
)
    decreases takers.len(),
{
    if pending == 0 || takers.len() == 0 {
        (Seq::<GroupMemberDistributionTransfer>::empty(), takers)
    } else {
        let t = plan_step_transfer(pending, takers);
        let rest = plan_step_takers(pending, takers);
        if pending <= t.value {
            (seq![t], rest)
        } else {
            let r = plan_giver((pending - t.value) as u128, rest);
            (seq![t] + r.0, r.1)
        }
    }
}

/// The plan entries for a list of givers processed in order, each consuming
/// from the taker pool the previous giver left behind.
pub open spec fn plan_givers(givers: Seq<Giver>, takers: Seq<Taker>) -> Seq<
    GroupMemberDistributionView,
>
    decreases givers.len(),
{
    if givers.len() == 0 {
        Seq::empty()
    } else {
        let g = givers[0];
        let r = plan_giver(g.debt_value as u128, takers);
        seq![
            GroupMemberDistributionView {
                member_account: g.address,
                total_debt: g.debt_value as int,
                transfers: r.0,
            },
        ] + plan_givers(givers.drop_first(), r.1)
    }
}

/// The whole settlement plan of a member list: takers sorted most-owed
/// first (stable), givers processed in member order.
pub open spec fn plan_group(members: Seq<GroupMember>) -> Seq<GroupMemberDistributionView> {
    plan_givers(givers_of(members), sort_takers(takers_of(members)))
}

/// The total debt of a list of givers.
pub open spec fn sum_givers(s: Seq<Giver>) -> int
    decreases s.len(),
{
    if s.len() == 0 {
        0
    } else {
        s[0].debt_value + sum_givers(s.drop_first())
    }
}

/// The total remaining magnitude of a taker pool.
pub open spec fn sum_takers(s: Seq<Taker>) -> int
    decreases s.len(),
{
    if s.len() == 0 {
        0
    } else {
        s[0].remaining + sum_takers(s.drop_first())
    }
}

/// The total value of a list of transfers.
pub open spec fn sum_transfers(s: Seq<GroupMemberDistributionTransfer>) -> int
    decreases s.len(),
{
    if s.len() == 0 {
        0
    } else {
        s[0].value + sum_transfers(s.drop_first())
    }
}

/// Every giver still owes something.
pub open spec fn all_givers_positive(s: Seq<Giver>) -> bool {
    forall|j: int| 0 <= j < s.len() ==> s[j].debt_value > 0
}

/// Every taker is still owed something.
pub open spec fn all_takers_positive(s: Seq<Taker>) -> bool {
    forall|j: int| 0 <= j < s.len() ==> s[j].remaining > 0
}

/// The total positive balance of a member list.
pub open spec fn sum_pos_debts(members: Seq<GroupMember>) -> int
    decreases members.len(),
{
    if members.len() == 0 {
        0
    } else {
        sum_pos_debts(members.drop_last()) + if members.last().debt_value > 0 {
            members.last().debt_value as int
        } else {
            0
        }
    }
}

/// The total magnitude of the negative balances of a member list.
pub open spec fn sum_neg_mags(members: Seq<GroupMember>) -> int
    decreases members.len(),
{
    if members.len() == 0 {
        0
    } else {
        sum_neg_mags(members.drop_last()) + if members.last().debt_value < 0 {
            -(members.last().debt_value as int)
        } else {
            0
        }
    }
}

/// A plan exists for the whole giver side: the takers are owed at least as
/// much as the givers owe. A zero-sum group satisfies this with equality.
pub open spec fn plan_feasible(members: Seq<GroupMember>) -> bool {
    sum_pos_debts(members) <= sum_neg_mags(members)
}

proof fn lemma_sum_takers_push(s: Seq<Taker>, t: Taker)
    ensures
        sum_takers(s.push(t)) == sum_takers(s) + t.remaining,
    decreases s.len(),
{
    if s.len() == 0 {
        assert(s.push(t) =~= seq![t]);
        assert(seq![t].drop_first() =~= Seq::<Taker>::empty());
        assert(sum_takers(Seq::<Taker>::empty()) == 0);
    } else {
        assert(s.push(t).drop_first() =~= s.drop_first().push(t));
        lemma_sum_takers_push(s.drop_first(), t);
    }
}

proof fn lemma_sum_givers_push(s: Seq<Giver>, g: Giver)
    ensures
        sum_givers(s.push(g)) == sum_givers(s) + g.debt_value,
    decreases s.len(),
{
    if s.len() == 0 {
        assert(s.push(g) =~= seq![g]);
        assert(seq![g].drop_first() =~= Seq::<Giver>::empty());
        assert(sum_givers(Seq::<Giver>::empty()) == 0);
    } else {
        assert(s.push(g).drop_first() =~= s.drop_first().push(g));
        lemma_sum_givers_push(s.drop_first(), g);
    }
}

proof fn lemma_sum_takers_remove(s: Seq<Taker>, i: int)
    requires
        0 <= i < s.len(),
    ensures
        sum_takers(s.remove(i)) == sum_takers(s) - s[i].remaining,
    decreases s.len(),
{
    if i == 0 {
        assert(s.remove(0) =~= s.drop_first());
    } else {
        assert(s.remove(i)[0] == s[0]);
        assert(s.remove(i).drop_first() =~= s.drop_first().remove(i - 1));
        lemma_sum_takers_remove(s.drop_first(), i - 1);
    }
}

proof fn lemma_sum_takers_update(s: Seq<Taker>, i: int, t: Taker)
    requires
        0 <= i < s.len(),
    ensures
        sum_takers(s.update(i, t)) == sum_takers(s) - s[i].remaining + t.remaining,
    decreases s.len(),
{
    if i == 0 {
        assert(s.update(0, t)[0] == t);
        assert(s.update(0, t).drop_first() =~= s.drop_first());
    } else {
        assert(s.update(i, t)[0] == s[0]);
        assert(s.update(i, t).drop_first() =~= s.drop_first().update(i - 1, t));
        lemma_sum_takers_update(s.drop_first(), i - 1, t);
    }
}

/// What one planning step guarantees: the emitted transfer is positive, no
/// larger than the pending amount, reduces the pool's total by exactly its
/// value, keeps every remaining taker positive, and consumes a taker unless
/// it closed the pending amount.
pub proof fn lemma_plan_step(pending: u128, takers: Seq<Taker>)
    requires
        pending > 0,
        takers.len() > 0,
        all_takers_positive(takers),
    ensures
        0 < plan_step_transfer(pending, takers).value <= pending,
        sum_takers(plan_step_takers(pending, takers)) == sum_takers(takers) - plan_step_transfer(
            pending,
            takers,
        ).value,
        all_takers_positive(plan_step_takers(pending, takers)),
        plan_step_takers(pending, takers).len() <= takers.len(),
        plan_step_transfer(pending, takers).value < pending ==> plan_step_takers(
            pending,
            takers,
        ).len() < takers.len(),
{
    lemma_find_taker_index(takers, pending, false);
    lemma_find_taker_index(takers, pending, true);
    let e = find_taker_index(takers, pending, false);
    let g = find_taker_index(takers, pending, true);
    if e >= 0 {
        lemma_sum_takers_remove(takers, e);
        assert forall|j: int| 0 <= j < takers.remove(e).len() implies takers.remove(
            e,
        )[j].remaining > 0 by {
            if j < e {
                assert(takers.remove(e)[j] == takers[j]);
            } else {
                assert(takers.remove(e)[j] == takers[j + 1]);
            }
        }
    } else if g >= 0 {
        let t = Taker {
            address: takers[g].address,
            remaining: (takers[g].remaining - pending) as u128,
        };
        lemma_sum_takers_update(takers, g, t);
        assert forall|j: int| 0 <= j < takers.len() implies takers.update(g, t)[j].remaining
            > 0 by {}
    } else {
        assert(!taker_matches(takers[0], pending, false));
        assert(!taker_matches(takers[0], pending, true));
        assert(takers[0].remaining < pending);
        assert(takers.drop_first() =~= takers.remove(0));
        lemma_sum_takers_remove(takers, 0);
        assert forall|j: int| 0 <= j < takers.drop_first().len() implies takers.drop_first()[
            j].remaining > 0 by {
            assert(takers.drop_first()[j] == takers[j + 1]);
        }
    }
}

/// The givers' total is never negative when every giver is positive.
proof fn lemma_sum_givers_nonneg(s: Seq<Giver>)
    requires
        all_givers_positive(s),
    ensures
        sum_givers(s) >= 0,
    decreases s.len(),
{
    if s.len() > 0 {
        assert(forall|j: int| 0 <= j < s.drop_first().len() ==> s.drop_first()[j] == s[j + 1]);
        lemma_sum_givers_nonneg(s.drop_first());
    }
}

/// One giver's plan pays off their pending amount exactly, drawing exactly
/// that much from the taker pool.
pub proof fn lemma_plan_giver_conservation(pending: u128, takers: Seq<Taker>)
    requires
        pending <= sum_takers(takers),
        all_takers_positive(takers),
    ensures
        sum_transfers(plan_giver(pending, takers).0) == pending,
        sum_takers(plan_giver(pending, takers).1) == sum_takers(takers) - pending,
        all_takers_positive(plan_giver(pending, takers).1),
    decreases takers.len(),
{
    if pending == 0 {
        assert(sum_transfers(Seq::<GroupMemberDistributionTransfer>::empty()) == 0);
    } else if takers.len() == 0 {
        assert(sum_takers(takers) == 0);
    } else {
        lemma_plan_step(pending, takers);
        let t = plan_step_transfer(pending, takers);
        let rest = plan_step_takers(pending, takers);
        if pending <= t.value {
            assert(t.value == pending);
            assert(seq![t].drop_first() =~= Seq::<GroupMemberDistributionTransfer>::empty());
            assert(sum_transfers(Seq::<GroupMemberDistributionTransfer>::empty()) == 0);
            assert(sum_transfers(seq![t]) == t.value);
        } else {
            lemma_plan_giver_conservation((pending - t.value) as u128, rest);
            let r = plan_giver((pending - t.value) as u128, rest);
            assert((seq![t] + r.0)[0] == t);
            assert((seq![t] + r.0).drop_first() =~= r.0);
        }
    }
}

/// Every giver's plan entry names that giver, carries their debt as its
/// total, and its transfers sum exactly to that total.
pub proof fn lemma_plan_givers_entries(givers: Seq<Giver>, takers: Seq<Taker>)
    requires
        sum_givers(givers) <= sum_takers(takers),
        all_givers_positive(givers),
        all_takers_positive(takers),
    ensures
        plan_givers(givers, takers).len() == givers.len(),
        forall|i: int|
            #![trigger plan_givers(givers, takers)[i]]
            0 <= i < givers.len() ==> {
                let entry = plan_givers(givers, takers)[i];
                &&& entry.member_account == givers[i].address
                &&& entry.total_debt == givers[i].debt_value
                &&& sum_transfers(entry.transfers) == entry.total_debt
            },
    decreases givers.len(),
{
    if givers.len() > 0 {
        let g = givers[0];
        let pending = g.debt_value as u128;
        let grest = givers.drop_first();
        assert(forall|j: int| 0 <= j < grest.len() ==> grest[j] == givers[j + 1]);
        lemma_sum_givers_nonneg(grest);
        assert(pending <= sum_takers(takers));
        lemma_plan_giver_conservation(pending, takers);
        let r = plan_giver(pending, takers);
        lemma_plan_givers_entries(grest, r.1);
        let head = GroupMemberDistributionView {
            member_account: g.address,
            total_debt: g.debt_value as int,
            transfers: r.0,
        };
        let whole = plan_givers(givers, takers);
        assert(whole == seq![head] + plan_givers(grest, r.1));
        assert forall|i: int| 0 <= i < givers.len() implies {
            let entry = #[trigger] whole[i];
            &&& entry.member_account == givers[i].address
            &&& entry.total_debt == givers[i].debt_value
            &&& sum_transfers(entry.transfers) == entry.total_debt
        } by {
            if i == 0 {
                assert(whole[0] == head);
            } else {
                assert(whole[i] == plan_givers(grest, r.1)[i - 1]);
                assert(givers[i] == grest[i - 1]);
            }
        }
    }
}

proof fn lemma_insert_taker_sum(t: Taker, s: Seq<Taker>)
    ensures
        sum_takers(insert_taker(t, s)) == sum_takers(s) + t.remaining,
        insert_taker(t, s).len() == s.len() + 1,
        all_takers_positive(s) && t.remaining > 0 ==> all_takers_positive(insert_taker(t, s)),
    decreases s.len(),
{
    if s.len() == 0 {
        assert(insert_taker(t, s) =~= seq![t]);
        assert(seq![t].drop_first() =~= Seq::<Taker>::empty());
        assert(sum_takers(Seq::<Taker>::empty()) == 0);
    } else if s[0].remaining >= t.remaining {
        let rest = s.drop_first();
        lemma_insert_taker_sum(t, rest);
        let r = insert_taker(t, s);
        assert(r == seq![s[0]] + insert_taker(t, rest));
        assert(r[0] == s[0]);
        assert(r.drop_first() =~= insert_taker(t, rest));
        assert forall|j: int|
            0 <= j < r.len() && all_takers_positive(s) && t.remaining > 0 implies r[j].remaining
            > 0 by {
            if j > 0 {
                assert(r[j] == insert_taker(t, rest)[j - 1]);
                assert(forall|i: int| 0 <= i < rest.len() ==> rest[i] == s[i + 1]);
            }
        }
    } else {
        let r = insert_taker(t, s);
        assert(r == seq![t] + s);
        assert(r[0] == t);
        assert(r.drop_first() =~= s);
    }
}

proof fn lemma_sort_takers_sum(s: Seq<Taker>)
    ensures
        sum_takers(sort_takers(s)) == sum_takers(s),
        sort_takers(s).len() == s.len(),
        all_takers_positive(s) ==> all_takers_positive(sort_takers(s)),
    decreases s.len(),
{
    if s.len() > 0 {
        let rest = s.drop_last();
        assert(forall|j: int| 0 <= j < rest.len() ==> rest[j] == s[j]);
        lemma_sort_takers_sum(rest);
        lemma_sum_takers_push(rest, s.last());
        assert(rest.push(s.last()) =~= s);
        lemma_insert_taker_sum(s.last(), sort_takers(rest));
    }
}

proof fn lemma_givers_of_sum(members: Seq<GroupMember>)
    ensures
        sum_givers(givers_of(members)) == sum_pos_debts(members),
        all_givers_positive(givers_of(members)),
    decreases members.len(),
{
    if members.len() > 0 {
        lemma_givers_of_sum(members.drop_last());
        if members.last().debt_value > 0 {
            lemma_sum_givers_push(
                givers_of(members.drop_last()),
                Giver { address: members.last().address, debt_value: members.last().debt_value },
            );
        }
    }
}

proof fn lemma_takers_of_sum(members: Seq<GroupMember>)
    ensures
        sum_takers(takers_of(members)) == sum_neg_mags(members),
        all_takers_positive(takers_of(members)),
    decreases members.len(),
{
    if members.len() > 0 {
        lemma_takers_of_sum(members.drop_last());
        if members.last().debt_value < 0 {
            lemma_sum_takers_push(
                takers_of(members.drop_last()),
                Taker {
                    address: members.last().address,
                    remaining: (-members.last().debt_value) as u128,
                },
            );
        }
    }
}

/// Plan conservation: in a feasible group's plan, every entry belongs to the
/// matching giver and its emitted transfer values sum exactly to that
/// giver's total debt.
pub proof fn lemma_plan_conservation(members: Seq<GroupMember>)
    requires
        plan_feasible(members),
    ensures
        plan_group(members).len() == givers_of(members).len(),
        forall|i: int|
            #![trigger plan_group(members)[i]]
            0 <= i < plan_group(members).len() ==> {
                let entry = plan_group(members)[i];
                &&& entry.member_account == givers_of(members)[i].address
                &&& entry.total_debt == givers_of(members)[i].debt_value
                &&& sum_transfers(entry.transfers) == entry.total_debt
            },
{
    lemma_givers_of_sum(members);
    lemma_takers_of_sum(members);
    lemma_sort_takers_sum(takers_of(members));
    lemma_plan_givers_entries(givers_of(members), sort_takers(takers_of(members)));
}

/// Finds the first taker, in current pool order, owed exactly `debt_value`
/// (or, with `strictly_greater`, owed more than it).
pub fn find_taker_by(takers: &Vec<Taker>, debt_value: u128, strictly_greater: bool) -> (r: Option<
    usize,
>)
    ensures
        match r {
            Some(i) => i as int == find_taker_index(takers@, debt_value, strictly_greater) && i
                < takers@.len(),
            None => find_taker_index(takers@, debt_value, strictly_greater) == -1,
        },
{
    proof {
        lemma_find_taker_index(takers@, debt_value, strictly_greater);
    }
    let ghost fi = find_taker_index(takers@, debt_value, strictly_greater);
    let mut k: usize = 0;
    while k < takers.len()
        invariant
            k <= takers@.len(),
            fi == find_taker_index(takers@, debt_value, strictly_greater),
            fi >= -1,
            fi >= 0 ==> fi < takers@.len() && taker_matches(
                takers@[fi],
                debt_value,
                strictly_greater,
            ) && forall|j: int| 0 <= j < fi ==> !taker_matches(
                takers@[j],
                debt_value,
                strictly_greater,
            ),
            fi == -1 ==> forall|j: int|
                0 <= j < takers@.len() ==> !taker_matches(
                    takers@[j],
                    debt_value,
                    strictly_greater,
                ),
            forall|j: int| 0 <= j < k ==> !taker_matches(takers@[j], debt_value, strictly_greater),
        decreases takers@.len() - k,
    {
        let matched = if strictly_greater {
            takers[k].remaining > debt_value
        } else {
            takers[k].remaining == debt_value
        };
        if matched {
            return Some(k);
        }
        k = k + 1;
    }
    None
}

/// One planning step: emits the transfer for the given pending amount and
/// consumes the matched taker from the pool — wholly for an exact match or a
/// front-of-queue fallback, partially (the remaining magnitude is reduced in
/// place) for a strictly-greater match.
pub fn process_giver_debt(debt_value: u128, takers: &mut Vec<Taker>) -> (r:
    GroupMemberDistributionTransfer)
    requires
        debt_value > 0,
        old(takers)@.len() > 0,
    ensures
        r == plan_step_transfer(debt_value, old(takers)@),
        final(takers)@ == plan_step_takers(debt_value, old(takers)@),
{
    proof {
        lemma_find_taker_index(takers@, debt_value, false);
        lemma_find_taker_index(takers@, debt_value, true);
    }
    match find_taker_by(takers, debt_value, false) {
        Some(i) => {
            let address = takers[i].address;
            takers.remove(i);
            return GroupMemberDistributionTransfer { member_account: address, value: debt_value };
        },
        None => {},
    }
    match find_taker_by(takers, debt_value, true) {
        Some(i) => {
            let t = takers[i];
            takers.set(i, Taker { address: t.address, remaining: t.remaining - debt_value });
            return GroupMemberDistributionTransfer { member_account: t.address, value: debt_value };
        },
        None => {},
    }
    let t = takers[0];
    takers.remove(0);
    proof {
        assert(final(takers)@ =~= old(takers)@.drop_first());
    }
    GroupMemberDistributionTransfer { member_account: t.address, value: t.remaining }
}

/// Places a taker into a pool sorted by descending remaining magnitude,
/// behind every taker owed at least as much.
fn insert_taker_sorted(sorted: &mut Vec<Taker>, t: Taker)
    ensures
        final(sorted)@ == insert_taker(t, old(sorted)@),
{
    let mut k: usize = 0;
    while k < sorted.len() && sorted[k].remaining >= t.remaining
        invariant
            k <= sorted@.len(),
            forall|j: int| 0 <= j < k ==> sorted@[j].remaining >= t.remaining,
        decreases sorted@.len() - k,
    {
        k = k + 1;
    }
    proof {
        lemma_insert_taker_at(t, sorted@, k as int);
    }
    sorted.insert(k, t);
}

/// `insert_taker` places the new taker exactly at the first position whose
/// remaining magnitude is below the new taker's.
proof fn lemma_insert_taker_at(t: Taker, s: Seq<Taker>, k: int)
    requires
        0 <= k <= s.len(),
        forall|j: int| 0 <= j < k ==> s[j].remaining >= t.remaining,
        k < s.len() ==> s[k].remaining < t.remaining,
    ensures
        insert_taker(t, s) == s.insert(k, t),
    decreases s.len(),
{
    if s.len() == 0 {
        assert(insert_taker(t, s) =~= s.insert(0, t));
    } else if s[0].remaining >= t.remaining {
        let rest = s.drop_first();
        assert(forall|j: int| 0 <= j < rest.len() ==> rest[j] == s[j + 1]);
        assert(k >= 1);
        lemma_insert_taker_at(t, rest, k - 1);
        assert(s.insert(k, t) =~= seq![s[0]] + rest.insert(k - 1, t));
    } else {
        assert(k == 0);
        assert(seq![t] + s =~= s.insert(0, t));
    }
}

/// Produces the group's settlement plan: for each member that owes money, in
/// member order, the ordered transfers that route their whole debt to the
/// members the group owes, most-owed takers first. A pure function of the
/// member list: the result is pinned exactly by `plan_group`, so repeated
/// calls on an unchanged group return identical output.
pub fn plan_group_distribution(group: &Group) -> (r: Vec<GroupMemberDistribution>)
    requires
        plan_feasible(group.members@),
    ensures
        dist_views(r@) == plan_group(group.members@),
{
    let ghost m0 = group.members@;

    // Partition: givers in member order.
    let mut givers: Vec<Giver> = Vec::new();
    let mut i: usize = 0;
    while i < group.members.len()
        invariant
            i <= m0.len(),
            group.members@ == m0,
            givers@ == givers_of(m0.take(i as int)),
        decreases m0.len() - i,
    {
        let d = group.members[i].debt_value;
        let a = group.members[i].address;
        proof {
            assert(m0.take(i + 1).drop_last() =~= m0.take(i as int));
            assert(m0.take(i + 1).last() == m0[i as int]);
        }
        if d > 0 {
            givers.push(Giver { address: a, debt_value: d });
        }
        i = i + 1;
    }
    proof {
        assert(m0.take(m0.len() as int) =~= m0);
    }

    // Partition: takers in member order, carried by magnitude.
    let mut takers: Vec<Taker> = Vec::new();
    let mut i: usize = 0;
    while i < group.members.len()
        invariant
            i <= m0.len(),
            group.members@ == m0,
            takers@ == takers_of(m0.take(i as int)),
        decreases m0.len() - i,
    {
        let d = group.members[i].debt_value;
        let a = group.members[i].address;
        proof {
            assert(m0.take(i + 1).drop_last() =~= m0.take(i as int));
            assert(m0.take(i + 1).last() == m0[i as int]);
        }
        if d < 0 {
            let mag: u128 = if d == i128::MIN {
                0x8000_0000_0000_0000_0000_0000_0000_0000u128
            } else {
                (-d) as u128
            };
            assert(mag == (-m0[i as int].debt_value) as u128);
            takers.push(Taker { address: a, remaining: mag });
        }
        i = i + 1;
    }
    proof {
        assert(m0.take(m0.len() as int) =~= m0);
    }

    // Stable sort by descending remaining magnitude.
    let ghost t0 = takers@;
    let mut pool: Vec<Taker> = Vec::new();
    let mut i: usize = 0;
    while i < takers.len()
        invariant
            i <= t0.len(),
            takers@ == t0,
            pool@ == sort_takers(t0.take(i as int)),
        decreases t0.len() - i,
    {
        proof {
            assert(t0.take(i + 1).drop_last() =~= t0.take(i as int));
            assert(t0.take(i + 1).last() == t0[i as int]);
        }
        insert_taker_sorted(&mut pool, takers[i]);
        i = i + 1;
    }
    proof {
        assert(t0.take(t0.len() as int) =~= t0);
    }

    // Greedy matching, giver by giver.
    let ghost g0 = givers@;
    let ghost pool0 = pool@;
    proof {
        lemma_givers_of_sum(m0);
        lemma_takers_of_sum(m0);
        lemma_sort_takers_sum(takers_of(m0));
    }
    let mut result: Vec<GroupMemberDistribution> = Vec::new();
    let mut gi: usize = 0;
    proof {
        assert(g0.skip(0) =~= g0);
        assert(dist_views(result@) =~= Seq::<GroupMemberDistributionView>::empty());
        assert(dist_views(result@) + plan_givers(g0, pool0) =~= plan_givers(g0, pool0));
    }
    while gi < givers.len()
        invariant
            gi <= g0.len(),
            givers@ == g0,
            all_givers_positive(g0),
            all_takers_positive(pool@),
            sum_givers(g0.skip(gi as int)) <= sum_takers(pool@),
            plan_givers(g0, pool0) == dist_views(result@) + plan_givers(
                g0.skip(gi as int),
                pool@,
            ),
            result@.len() == gi,
        decreases g0.len() - gi,
    {
        let g = givers[gi];
        assert(g.debt_value > 0);
        let mut pending: u128 = g.debt_value as u128;
        let ghost pend0 = pending;
        let ghost entry_pool = pool@;
        proof {
            assert(g0.skip(gi as int)[0] == g0[gi as int]);
            assert(g0.skip(gi as int).drop_first() =~= g0.skip(gi + 1));
            lemma_sum_givers_nonneg_skip(g0, gi + 1);
            assert(sum_givers(g0.skip(gi as int)) == g.debt_value + sum_givers(g0.skip(gi + 1)));
        }
        let mut transfers: Vec<GroupMemberDistributionTransfer> = Vec::new();
        while pending > 0
            invariant
                all_takers_positive(pool@),
                pending <= sum_takers(pool@),
                plan_giver(pend0, entry_pool).0 == transfers@ + plan_giver(pending, pool@).0,
                plan_giver(pend0, entry_pool).1 == plan_giver(pending, pool@).1,
            decreases pool@.len(), pending,
        {
            proof {
                if pool@.len() == 0 {
                    assert(sum_takers(pool@) == 0);
                }
            }
            let ghost pb = pool@;
            let ghost pp = pending;
            let ghost tacc = transfers@;
            let t = process_giver_debt(pending, &mut pool);
            transfers.push(t);
            proof {
                lemma_plan_step(pp, pb);
                assert(tacc.push(t) =~= tacc + seq![t]);
                if pp <= t.value {
                    assert(plan_giver(pp, pb).0 == seq![t]);
                    assert(plan_giver(pp, pb).1 == pool@);
                    assert(tacc + seq![t] + plan_giver((pp - t.value) as u128, pool@).0 =~= tacc
                        + seq![t]);
                    assert(tacc + (seq![t]) =~= transfers@);
                } else {
                    let r = plan_giver((pp - t.value) as u128, pool@);
                    assert(plan_giver(pp, pb).0 == seq![t] + r.0);
                    assert(plan_giver(pp, pb).1 == r.1);
                    assert(tacc + (seq![t] + r.0) =~= (tacc + seq![t]) + r.0);
                }
            }
            pending = pending - t.value;
        }
        proof {
            assert(plan_giver(0, pool@).0 =~= Seq::<GroupMemberDistributionTransfer>::empty());
            assert(transfers@ + plan_giver(0, pool@).0 =~= transfers@);
            assert(plan_giver(pend0, entry_pool).0 == transfers@);
            assert(plan_giver(pend0, entry_pool).1 == pool@);
        }
        let ghost racc = result@;
        result.push(
            GroupMemberDistribution {
                member_account: g.address,
                total_debt: g.debt_value,
                transfers,
            },
        );
        proof {
            let head = GroupMemberDistributionView {
                member_account: g.address,
                total_debt: g.debt_value as int,
                transfers: plan_giver(pend0, entry_pool).0,
            };
            assert(plan_givers(g0.skip(gi as int), entry_pool) == seq![head] + plan_givers(
                g0.skip(gi + 1),
                pool@,
            ));
            assert(result@[racc.len() as int]@ == head);
            assert(dist_views(result@) =~= dist_views(racc) + seq![head]);
            assert(dist_views(racc) + (seq![head] + plan_givers(g0.skip(gi + 1), pool@)) =~= (
            dist_views(racc) + seq![head]) + plan_givers(g0.skip(gi + 1), pool@));
            lemma_plan_giver_conservation(pend0, entry_pool);
        }
        gi = gi + 1;
    }
    proof {
        assert(g0.skip(g0.len() as int) =~= Seq::<Giver>::empty());
        assert(plan_givers(Seq::<Giver>::empty(), pool@) =~= Seq::<
            GroupMemberDistributionView,
        >::empty());
        assert(dist_views(result@) + plan_givers(g0.skip(g0.len() as int), pool@) =~= dist_views(
            result@,
        ));
    }
    result
}

/// The tail sums of the giver list are never negative.
proof fn lemma_sum_givers_nonneg_skip(s: Seq<Giver>, k: int)
    requires
        0 <= k <= s.len(),
        all_givers_positive(s),
    ensures
        sum_givers(s.skip(k)) >= 0,
{
    assert(forall|j: int| 0 <= j < s.skip(k).len() ==> s.skip(k)[j] == s[j + k]);
    lemma_sum_givers_nonneg(s.skip(k));
}

/// Longer member prefixes can only grow the positive and negative totals.
proof fn lemma_sum_debts_prefix(members: Seq<GroupMember>, k: int)
    requires
        0 <= k <= members.len(),
    ensures
        sum_pos_debts(members.take(k)) <= sum_pos_debts(members),
        sum_neg_mags(members.take(k)) <= sum_neg_mags(members),
    decreases members.len() - k,
{
    if k < members.len() {
        assert(members.take(k + 1).drop_last() =~= members.take(k));
        assert(members.take(k + 1).last() == members[k]);
        lemma_sum_debts_prefix(members, k + 1);
    } else {
        assert(members.take(k) =~= members);
    }
}

/// Decides, with machine arithmetic, whether a plan may be produced: the
/// givers' total is representable and no larger than the takers' total.
fn plan_check(group: &Group) -> (r: bool)
    ensures
        r == (sum_pos_debts(group.members@) <= u128::MAX as int && plan_feasible(group.members@)),
{
    let ghost m0 = group.members@;
    let mut pos: u128 = 0;
    let mut neg: u128 = 0;
    let mut big_neg = false;
    let mut i: usize = 0;
    while i < group.members.len()
        invariant
            i <= m0.len(),
            m0 == group.members@,
            pos == sum_pos_debts(m0.take(i as int)),
            !big_neg ==> neg == sum_neg_mags(m0.take(i as int)),
            big_neg ==> sum_neg_mags(m0.take(i as int)) > u128::MAX as int,
        decreases m0.len() - i,
    {
        let d = group.members[i].debt_value;
        proof {
            assert(m0.take(i + 1).drop_last() =~= m0.take(i as int));
            assert(m0.take(i + 1).last() == m0[i as int]);
        }
        if d > 0 {
            match pos.checked_add(d as u128) {
                Some(p) => {
                    pos = p;
                },
                None => {
                    proof {
                        lemma_sum_debts_prefix(m0, i + 1);
                    }
                    return false;
                },
            }
        } else if d < 0 {
            let mag: u128 = if d == i128::MIN {
                0x8000_0000_0000_0000_0000_0000_0000_0000u128
            } else {
                (-d) as u128
            };
            assert(mag == -(m0[i as int].debt_value as int));
            if !big_neg {
                match neg.checked_add(mag) {
                    Some(x) => {
                        neg = x;
                    },
                    None => {
                        big_neg = true;
                    },
                }
            }
        }
        i = i + 1;
    }
    proof {
        assert(m0.take(m0.len() as int) =~= m0);
    }
    if big_neg {
        true
    } else {
        pos <= neg
    }
}

/// `plan_group_distribution` with its feasibility tested at run time:
/// `None` reports a group whose givers are owed more than its takers owe (or
/// whose giver total cannot even be represented), and plans nothing.
pub fn plan_group_distribution_checked(group: &Group) -> (r: Option<Vec<GroupMemberDistribution>>)
    ensures
        match r {
            Some(v) => plan_feasible(group.members@) && dist_views(v@) == plan_group(
                group.members@,
            ),
            None => sum_pos_debts(group.members@) > u128::MAX as int || !plan_feasible(
                group.members@,
            ),
        },
{
    if plan_check(group) {
        Some(plan_group_distribution(group))
    } else {
        None
    }
}

/// Whether the member owes money in this member list (and so owns a plan
/// entry).
pub open spec fn is_giver_in(members: Seq<GroupMember>, address: AccountId) -> bool {
    exists|i: int|
        0 <= i < givers_of(members).len() && givers_of(members)[i].address == address
}

/// Index of the first plan entry belonging to the address, or -1.
pub open spec fn first_entry_index(
    plan: Seq<GroupMemberDistributionView>,
    address: AccountId,
) -> int
    decreases plan.len(),
{
    if plan.len() == 0 {
        -1
    } else if plan[0].member_account == address {
        0
    } else {
        let rest = first_entry_index(plan.drop_first(), address);
        if rest == -1 {
            -1
        } else {
            rest + 1
        }
    }
}

/// `first_entry_index` returns either -1 with no entry at all, or the first
/// position belonging to the address.
pub proof fn lemma_first_entry_index(plan: Seq<GroupMemberDistributionView>, address: AccountId)
    ensures
        first_entry_index(plan, address) >= -1,
        first_entry_index(plan, address) == -1 ==> forall|j: int|
            0 <= j < plan.len() ==> plan[j].member_account != address,
        first_entry_index(plan, address) >= 0 ==> {
            let i = first_entry_index(plan, address);
            &&& i < plan.len()
            &&& plan[i].member_account == address
            &&& forall|j: int| 0 <= j < i ==> plan[j].member_account != address
        },
    decreases plan.len(),
{
    if plan.len() > 0 && plan[0].member_account != address {
        let rest = plan.drop_first();
        assert(rest.len() == plan.len() - 1);
        assert(forall|j: int| 0 <= j < rest.len() ==> rest[j] == plan[j + 1]);
        lemma_first_entry_index(rest, address);
        let ri = first_entry_index(rest, address);
        if ri == -1 {
            assert forall|j: int| 0 <= j < plan.len() implies plan[j].member_account != address by {
                if j > 0 {
                    assert(plan[j] == rest[j - 1]);
                }
            }
        } else {
            assert(plan[ri + 1] == rest[ri]);
            assert forall|j: int| 0 <= j < ri + 1 implies plan[j].member_account != address by {
                if j > 0 {
                    assert(plan[j] == rest[j - 1]);
                }
            }
        }
    }
}

/// For each group in the list, the plan entry that belongs to the given
/// member: their own total debt and the transfers that would pay it off.
/// Only meaningful for a member that owes money in every listed group.
pub fn get_member_group_distributions(groups: &Vec<Group>, member_address: AccountId) -> (r: Vec<
    crate::output_models::GroupDistributionByMember,
>)
    requires
        forall|g: int|
            #![trigger groups@[g]]
            0 <= g < groups@.len() ==> plan_feasible(groups@[g].members@) && is_giver_in(
                groups@[g].members@,
                member_address,
            ),
    ensures
        r@.len() == groups@.len(),
        forall|g: int|
            #![trigger r@[g]]
            0 <= g < groups@.len() ==> {
                let plan = plan_group(groups@[g].members@);
                &&& r@[g].group_id == groups@[g].id
                &&& first_entry_index(plan, member_address) >= 0
                &&& r@[g].member_distribution@ == plan[first_entry_index(plan, member_address)]
            },
{
    let mut out: Vec<crate::output_models::GroupDistributionByMember> = Vec::new();
    let mut gi: usize = 0;
    while gi < groups.len()
        invariant
            gi <= groups@.len(),
            forall|g: int|
                #![trigger groups@[g]]
                0 <= g < groups@.len() ==> plan_feasible(groups@[g].members@) && is_giver_in(
                    groups@[g].members@,
                    member_address,
                ),
            out@.len() == gi,
            forall|g: int|
                #![trigger out@[g]]
                0 <= g < gi ==> {
                    let plan = plan_group(groups@[g].members@);
                    &&& out@[g].group_id == groups@[g].id
                    &&& first_entry_index(plan, member_address) >= 0
                    &&& out@[g].member_distribution@ == plan[first_entry_index(
                        plan,
                        member_address,
                    )]
                },
        decreases groups@.len() - gi,
    {
        let group = &groups[gi];
        let ghost plan_model = plan_group(group.members@);
        let mut plan = plan_group_distribution(group);
        proof {
            lemma_plan_conservation(group.members@);
            lemma_first_entry_index(plan_model, member_address);
            let w = choose|i: int|
                0 <= i < givers_of(group.members@).len() && givers_of(
                    group.members@,
                )[i].address == member_address;
            assert(plan_model[w].member_account == member_address);
            assert(first_entry_index(plan_model, member_address) >= 0);
        }
        let ghost fe = first_entry_index(plan_model, member_address);
        let mut k: usize = 0;
        while k < plan.len() && plan[k].member_account != member_address
            invariant
                dist_views(plan@) == plan_model,
                0 <= fe < plan_model.len(),
                fe == first_entry_index(plan_model, member_address),
                plan_model[fe].member_account == member_address,
                forall|j: int| 0 <= j < fe ==> plan_model[j].member_account != member_address,
                k <= fe,
            decreases plan@.len() - k,
        {
            assert(dist_views(plan@)[k as int].member_account != member_address);
            k = k + 1;
        }
        assert(k < plan@.len());
        assert(plan@[k as int]@ == dist_views(plan@)[k as int]);
        assert(plan@[k as int]@.member_account == member_address);
        assert(k as int == fe) by {
            if (k as int) < fe {
                assert(plan_model[k as int].member_account != member_address);
            }
        }
        let entry = plan.remove(k);
        assert(entry@ == plan_model[fe]);
        out.push(
            crate::output_models::GroupDistributionByMember {
                group_id: group.id,
                member_distribution: entry,
            },
        );
        gi = gi + 1;
    }
    out
}

/// Determinism: the plan is a function of the member list alone — two groups
/// with the same members get the identical plan.
pub proof fn lemma_plan_deterministic(a: Seq<GroupMember>, b: Seq<GroupMember>)
    requires
        a == b,
    ensures
        plan_group(a) == plan_group(b),
{
}

} // verus!
