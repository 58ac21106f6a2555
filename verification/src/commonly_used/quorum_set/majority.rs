use vstd::prelude::*;

use crate::apaxos::id_set::ascending_ids;
use crate::apaxos::id_set::contains_id;
use crate::apaxos::id_set::insert_id;
use crate::QuorumSet;

verus! {

/// A quorum set in which a quorum is more than half of the members.
pub struct Majority {
    /// The member ids, ascending.
    members: Vec<u64>,
}

/// How many of `members` are in `ids`.
pub open spec fn count_in(members: Seq<u64>, ids: Set<u64>) -> nat
    decreases members.len(),
{
    if members.len() == 0 {
        0
    } else {
        count_in(members.drop_last(), ids) + if ids.contains(members.last()) {
            1nat
        } else {
            0nat
        }
    }
}

/// `ids` hold more than half of `members`.
pub open spec fn is_majority(members: Seq<u64>, ids: Set<u64>) -> bool {
    count_in(members, ids) * 2 > members.len()
}

impl Majority {
    /// The member ids, ascending.
    pub closed spec fn members(&self) -> Seq<u64> {
        self.members@
    }

    /// A majority quorum set of the given acceptors.
    pub fn new(acceptor_ids: Vec<u64>) -> (r: Self)
        ensures
            ascending_ids(r.members()),
            r.members().to_set() == acceptor_ids@.to_set(),
    {
        let mut members: Vec<u64> = Vec::new();
        let mut i: usize = 0;
        proof {
            assert(members@.to_set() =~= acceptor_ids@.take(0).to_set());
        }
        while i < acceptor_ids.len()
            invariant
                0 <= i <= acceptor_ids@.len(),
                ascending_ids(members@),
                members@.to_set() == acceptor_ids@.take(i as int).to_set(),
            decreases acceptor_ids.len() - i,
        {
            insert_id(&mut members, acceptor_ids[i]);
            proof {
                assert(acceptor_ids@.take(i + 1) =~= acceptor_ids@.take(i as int).push(
                    acceptor_ids@[i as int],
                ));
                vstd::seq::Seq::lemma_push_to_set_commute(
                    acceptor_ids@.take(i as int),
                    acceptor_ids@[i as int],
                );
            }
            i += 1;
        }
        proof {
            assert(acceptor_ids@.take(acceptor_ids@.len() as int) =~= acceptor_ids@);
        }
        Majority { members }
    }

    fn has_majority(&self, acceptor_ids: &Vec<u64>) -> (r: bool)
        ensures
            r == is_majority(self.members(), acceptor_ids@.to_set()),
    {
        let ghost ids = acceptor_ids@.to_set();
        let mut count: usize = 0;
        let mut i: usize = 0;
        while i < self.members.len()
            invariant
                0 <= i <= self.members@.len(),
                count == count_in(self.members@.take(i as int), ids),
                count <= i,
                ids == acceptor_ids@.to_set(),
            decreases self.members.len() - i,
        {
            proof {
                assert(self.members@.take(i + 1).drop_last() =~= self.members@.take(i as int));
            }
            if contains_id(acceptor_ids, self.members[i]) {
                count += 1;
            }
            i += 1;
        }
        proof {
            assert(self.members@.take(self.members@.len() as int) =~= self.members@);
        }
        count > self.members.len() - count
    }
}

impl QuorumSet for Majority {
    open spec fn read_quorum(&self, acceptor_ids: Set<u64>) -> bool {
        is_majority(self.members(), acceptor_ids)
    }

    open spec fn write_quorum(&self, acceptor_ids: Set<u64>) -> bool {
        is_majority(self.members(), acceptor_ids)
    }

    fn is_read_quorum(&self, acceptor_ids: &Vec<u64>) -> (r: bool) {
        self.has_majority(acceptor_ids)
    }

    fn is_write_quorum(&self, acceptor_ids: &Vec<u64>) -> (r: bool) {
        self.has_majority(acceptor_ids)
    }
}

/// Counting members by two sets counts those in either once and those in
/// both twice.
proof fn lemma_count_in_sum(members: Seq<u64>, a: Set<u64>, b: Set<u64>)
    ensures
        count_in(members, a) + count_in(members, b) == count_in(members, a.union(b)) + count_in(
            members,
            a.intersect(b),
        ),
        count_in(members, a.union(b)) <= members.len(),
        count_in(members, a.intersect(b)) > 0 ==> exists|i: int|
            0 <= i < members.len() && a.contains(#[trigger] members[i]) && b.contains(members[i]),
    decreases members.len(),
{
    if members.len() > 0 {
        let rest = members.drop_last();
        lemma_count_in_sum(rest, a, b);
        if count_in(rest, a.intersect(b)) > 0 {
            let i = choose|i: int|
                0 <= i < rest.len() && a.contains(#[trigger] rest[i]) && b.contains(rest[i]);
            assert(members[i] == rest[i]);
        }
        let x = members.last();
        if a.contains(x) && b.contains(x) {
            assert(members[members.len() - 1] == x);
        }
    }
}

/// Every two majorities of the same members share a member: a read quorum
/// and a write quorum always intersect.
pub proof fn law_majorities_intersect(members: Seq<u64>, a: Set<u64>, b: Set<u64>)
    requires
        is_majority(members, a),
        is_majority(members, b),
    ensures
        exists|i: int|
            0 <= i < members.len() && a.contains(#[trigger] members[i]) && b.contains(members[i]),
{
    lemma_count_in_sum(members, a, b);
}

/// Counting members without repetition by `ids` counts the members that
/// are in `ids`, and there are as many members as distinct ids.
proof fn lemma_count_in_is_size(members: Seq<u64>, ids: Set<u64>)
    requires
        members.no_duplicates(),
    ensures
        count_in(members, ids) == members.to_set().intersect(ids).len(),
        members.to_set().len() == members.len(),
    decreases members.len(),
{
    if members.len() == 0 {
        assert(members.to_set() =~= Set::<u64>::empty());
        assert(members.to_set().intersect(ids) =~= Set::<u64>::empty());
    } else {
        let rest = members.drop_last();
        let x = members.last();
        assert(rest.no_duplicates()) by {
            assert forall|i: int, j: int| 0 <= i < rest.len() && 0 <= j < rest.len() && i != j implies rest[i]
                != rest[j] by {
                assert(rest[i] == members[i] && rest[j] == members[j]);
            }
        }
        lemma_count_in_is_size(rest, ids);
        assert(members =~= rest.push(x));
        rest.lemma_push_to_set_commute(x);
        assert(!rest.to_set().contains(x)) by {
            if rest.to_set().contains(x) {
                let i = choose|i: int| 0 <= i < rest.len() && rest[i] == x;
                assert(members[i] == x && members[members.len() - 1] == x);
            }
        }
        vstd::seq_lib::seq_to_set_is_finite(rest);
        if ids.contains(x) {
            assert(members.to_set().intersect(ids) =~= rest.to_set().intersect(ids).insert(x));
        } else {
            assert(members.to_set().intersect(ids) =~= rest.to_set().intersect(ids));
        }
    }
}

/// A set of acceptors is a quorum of a majority quorum set exactly when it
/// holds more than half of the members: every set that holds more than half
/// of them is a read and a write quorum, and no other set is.
pub proof fn law_majority_is_more_than_half(q: Majority, ids: Set<u64>)
    requires
        ascending_ids(q.members()),
    ensures
        q.read_quorum(ids) <==> q.members().to_set().intersect(ids).len() * 2 > q.members().to_set().len(),
        q.write_quorum(ids) <==> q.members().to_set().intersect(ids).len() * 2 > q.members().to_set().len(),
{
    let m = q.members();
    assert(m.no_duplicates()) by {
        assert forall|i: int, j: int| 0 <= i < m.len() && 0 <= j < m.len() && i != j implies m[i] != m[j] by {
            if i < j {
                assert(m[i] < m[j]);
            } else {
                assert(m[j] < m[i]);
            }
        }
    }
    lemma_count_in_is_size(m, ids);
}

} // verus!
