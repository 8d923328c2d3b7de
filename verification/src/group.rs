use vstd::prelude::*;

verus! {

/// An opaque external identity. The ledger never inspects it beyond equality,
/// so it is carried as a plain number.
#[derive(Clone, Copy, PartialEq, Eq, Structural, Debug, Hash)]
pub struct AccountId(pub u128);

/// One member of a group together with their running net balance.
///
/// `debt_value > 0` means the member still owes money to the group (they will
/// pay during settlement); `debt_value < 0` means the group owes them;
/// `0` means settled.
#[derive(Clone, PartialEq, Eq, Debug)]
pub struct GroupMember {
    pub address: AccountId,
    pub name: String,
    /// The total member balance/debt.
    pub debt_value: i128,
}

/// A group of members sharing one balance sheet.
#[derive(Clone, PartialEq, Eq, Debug)]
pub struct Group {
    pub id: u128,
    pub name: String,
    pub members: Vec<GroupMember>,
    pub next_expense_id: u32,
}

/// Index of the first member with the given address, or -1 when absent.
pub open spec fn member_index(members: Seq<GroupMember>, address: AccountId) -> int
    decreases members.len(),
{
    if members.len() == 0 {
        -1
    } else if members[0].address == address {
        0
    } else {
        let rest = member_index(members.drop_first(), address);
        if rest == -1 {
            -1
        } else {
            rest + 1
        }
    }
}

/// Whether some member of `members` has the given address.
pub open spec fn has_member(members: Seq<GroupMember>, address: AccountId) -> bool {
    member_index(members, address) >= 0
}

/// The sum of all members' balances; zero for a consistently posted group.
pub open spec fn sum_debts(members: Seq<GroupMember>) -> int
    decreases members.len(),
{
    if members.len() == 0 {
        0
    } else {
        sum_debts(members.drop_last()) + members.last().debt_value
    }
}

/// `member_index` returns either -1 with no occurrence at all, or the first
/// position holding the address.
pub proof fn lemma_member_index(members: Seq<GroupMember>, address: AccountId)
    ensures
        member_index(members, address) >= -1,
        member_index(members, address) == -1 ==> forall|j: int|
            0 <= j < members.len() ==> members[j].address != address,
        member_index(members, address) >= 0 ==> {
            let i = member_index(members, address);
            &&& i < members.len()
            &&& members[i].address == address
            &&& forall|j: int| 0 <= j < i ==> members[j].address != address
        },
    decreases members.len(),
{
    if members.len() > 0 && members[0].address != address {
        let rest = members.drop_first();
        assert(rest.len() == members.len() - 1);
        assert(forall|j: int| 0 <= j < rest.len() ==> rest[j] == members[j + 1]);
        lemma_member_index(rest, address);
        let ri = member_index(rest, address);
        if ri == -1 {
            assert forall|j: int| 0 <= j < members.len() implies members[j].address
                != address by {
                if j > 0 {
                    assert(members[j] == rest[j - 1]);
                }
            }
        } else {
            assert(members[ri + 1] == rest[ri]);
            assert forall|j: int| 0 <= j < ri + 1 implies members[j].address != address by {
                if j > 0 {
                    assert(members[j] == rest[j - 1]);
                }
            }
        }
    }
}

/// Two member lists with the same addresses in the same positions agree on
/// where any address first occurs.
pub proof fn lemma_member_index_same_addresses(
    a: Seq<GroupMember>,
    b: Seq<GroupMember>,
    address: AccountId,
)
    requires
        a.len() == b.len(),
        forall|j: int| 0 <= j < a.len() ==> a[j].address == b[j].address,
    ensures
        member_index(a, address) == member_index(b, address),
    decreases a.len(),
{
    if a.len() > 0 {
        assert(a[0].address == b[0].address);
        lemma_member_index_same_addresses(a.drop_first(), b.drop_first(), address);
    }
}

/// Updating one member's balance moves the list's sum by the difference.
pub proof fn lemma_sum_debts_update(members: Seq<GroupMember>, i: int, m: GroupMember)
    requires
        0 <= i < members.len(),
    ensures
        sum_debts(members.update(i, m)) == sum_debts(members) - members[i].debt_value
            + m.debt_value,
    decreases members.len(),
{
    let upd = members.update(i, m);
    if i == members.len() - 1 {
        assert(upd.drop_last() =~= members.drop_last());
    } else {
        assert(upd.drop_last() =~= members.drop_last().update(i, m));
        lemma_sum_debts_update(members.drop_last(), i, m);
    }
}

impl Group {
    /// A freshly created group: the given members, expense counter at one.
    pub fn new(id: u128, name: String, members: Vec<GroupMember>) -> (g: Group)
        ensures
            g.id == id,
            g.name == name,
            g.members == members,
            g.next_expense_id == 1,
    {
        Group { id, name, members, next_expense_id: 1 }
    }

    /// Adds a member with a settled balance; every other field is unchanged.
    pub fn add_member(&mut self, address: AccountId, name: String)
        ensures
            final(self).members@ == old(self).members@.push(
                GroupMember { address, name, debt_value: 0 },
            ),
            final(self).id == old(self).id,
            final(self).name == old(self).name,
            final(self).next_expense_id == old(self).next_expense_id,
    {
        self.members.push(GroupMember { address, name, debt_value: 0 });
    }
}

} // verus!
