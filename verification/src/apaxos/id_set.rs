use vstd::prelude::*;

verus! {

/// The ids of `s` are strictly ascending: the order and uniqueness in which
/// an ordered map keeps its keys.
pub open spec fn ascending_ids(s: Seq<u64>) -> bool {
    forall|i: int, j: int| 0 <= i < j < s.len() ==> s[i] < s[j]
}

/// An ascending sequence of ids is fixed by the set of its ids: two with the
/// same ids are the same.
pub proof fn law_same_ids_same_order(s1: Seq<u64>, s2: Seq<u64>)
    requires
        ascending_ids(s1),
        ascending_ids(s2),
        s1.to_set() == s2.to_set(),
    ensures
        s1 == s2,
    decreases s1.len(),
{
    if s1.len() == 0 {
        if s2.len() > 0 {
            assert(s2.to_set().contains(s2[0]));
        }
        assert(s1 =~= s2);
    } else {
        assert(s1.to_set().contains(s1[0]));
        let k = choose|k: int| 0 <= k < s2.len() && s2[k] == s1[0];
        assert(s2.to_set().contains(s2[0]));
        let l = choose|l: int| 0 <= l < s1.len() && s1[l] == s2[0];
        if k > 0 {
            assert(s2[0] < s2[k]);
            assert(s1[0] <= s1[l]);
        }
        assert(s1[0] == s2[0]);
        let t1 = s1.drop_first();
        let t2 = s2.drop_first();
        assert forall|x: u64| t1.to_set().contains(x) <==> t2.to_set().contains(x) by {
            if t1.contains(x) {
                let i = choose|i: int| 0 <= i < t1.len() && t1[i] == x;
                assert(s1[i + 1] == x);
                assert(s1[0] < s1[i + 1]);
                assert(s1.to_set().contains(x));
                let j = choose|j: int| 0 <= j < s2.len() && s2[j] == x;
                assert(j != 0);
                assert(t2[j - 1] == x);
            }
            if t2.contains(x) {
                let i = choose|i: int| 0 <= i < t2.len() && t2[i] == x;
                assert(s2[i + 1] == x);
                assert(s2[0] < s2[i + 1]);
                assert(s2.to_set().contains(x));
                let j = choose|j: int| 0 <= j < s1.len() && s1[j] == x;
                assert(j != 0);
                assert(t1[j - 1] == x);
            }
        }
        assert(t1.to_set() =~= t2.to_set());
        law_same_ids_same_order(t1, t2);
        assert(s1.len() == s2.len());
        assert forall|i: int| 0 <= i < s1.len() implies s1[i] == s2[i] by {
            if i > 0 {
                assert(s1[i] == t1[i - 1]);
                assert(s2[i] == t2[i - 1]);
            }
        }
        assert(s1 =~= s2);
    }
}

/// Inserts `id` into the ascending ids `ids`, unless it is there.
pub fn insert_id(ids: &mut Vec<u64>, id: u64)
    requires
        ascending_ids(old(ids)@),
    ensures
        ascending_ids(final(ids)@),
        final(ids)@.to_set() == old(ids)@.to_set().insert(id),
{
    let mut i: usize = 0;
    while i < ids.len() && ids[i] < id
        invariant
            0 <= i <= ids@.len(),
            ascending_ids(ids@),
            forall|j: int| 0 <= j < i ==> ids@[j] < id,
        decreases ids.len() - i,
    {
        i += 1;
    }
    let ghost s = ids@;
    if i < ids.len() && ids[i] == id {
        proof {
            assert(s.to_set().insert(id) =~= s.to_set());
        }
        return;
    }
    ids.insert(i, id);
    proof {
        assert(ids@ =~= s.take(i as int).push(id) + s.skip(i as int));
        assert forall|a: int, b: int| 0 <= a < b < ids@.len() implies ids@[a] < ids@[b] by {
            if b == i {
                assert(ids@[a] == s[a]);
            } else if a == i {
                assert(ids@[b] == s[b - 1]);
                assert(s[i as int] >= id);
                if b - 1 > i {
                    assert(s[i as int] < s[b - 1]);
                }
            } else {
                let aa = if a < i { a } else { a - 1 };
                let bb = if b < i { b } else { b - 1 };
                assert(ids@[a] == s[aa]);
                assert(ids@[b] == s[bb]);
            }
        }
        assert forall|x: u64| ids@.to_set().contains(x) <==> s.to_set().insert(id).contains(x) by {
            if ids@.contains(x) {
                let k = choose|k: int| 0 <= k < ids@.len() && ids@[k] == x;
                if k < i {
                    assert(s[k] == x);
                } else if k > i {
                    assert(s[k - 1] == x);
                }
            }
            if s.contains(x) {
                let k = choose|k: int| 0 <= k < s.len() && s[k] == x;
                if k < i {
                    assert(ids@[k] == x);
                } else {
                    assert(ids@[k + 1] == x);
                }
            }
            if x == id {
                assert(ids@[i as int] == id);
            }
        }
        assert(ids@.to_set() =~= s.to_set().insert(id));
    }
}

/// Returns whether `id` is one of `ids`.
pub fn contains_id(ids: &Vec<u64>, id: u64) -> (r: bool)
    ensures
        r == ids@.contains(id),
{
    let mut i: usize = 0;
    while i < ids.len()
        invariant
            0 <= i <= ids@.len(),
            forall|j: int| 0 <= j < i ==> ids@[j] != id,
        decreases ids.len() - i,
    {
        if ids[i] == id {
            return true;
        }
        i += 1;
    }
    false
}

} // verus!
