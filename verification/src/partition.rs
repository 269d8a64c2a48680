//! Partitioning a report into unique findings and duplicates.
//!
//! The partitioner walks the report once, in input order.  A finding whose
//! (secret, rule id) pair was not seen before is unique; every later finding
//! with the same pair is a duplicate.  Both output sequences keep the relative
//! input order of their members.

use vstd::prelude::*;
use crate::finding::{Finding, same_key};

verus! {

/// The two groups a report is split into.  Every input finding lands in
/// exactly one of them.
pub struct PartitionResult<T> {
    pub unique: Vec<T>,
    pub duplicated: Vec<T>,
}

/// The finding at position `i` of `s` is the first of its (secret, rule id)
/// class: no earlier finding shares its pair.
pub open spec fn first_occurrence(s: Seq<Finding>, i: int) -> bool {
    forall|j: int| 0 <= j < i ==> !same_key(s[i], #[trigger] s[j])
}

/// The unique group of `s`: its first occurrences, in input order.
pub open spec fn spec_unique(s: Seq<Finding>) -> Seq<Finding>
    decreases s.len(),
{
    if s.len() == 0 {
        Seq::empty()
    } else if first_occurrence(s, s.len() - 1) {
        spec_unique(s.drop_last()).push(s.last())
    } else {
        spec_unique(s.drop_last())
    }
}

/// The duplicate group of `s`: its repeated occurrences, in input order.
pub open spec fn spec_duplicated(s: Seq<Finding>) -> Seq<Finding>
    decreases s.len(),
{
    if s.len() == 0 {
        Seq::empty()
    } else if first_occurrence(s, s.len() - 1) {
        spec_duplicated(s.drop_last())
    } else {
        spec_duplicated(s.drop_last()).push(s.last())
    }
}

/// Some finding of `s` shares `x`'s pair exactly when some member of the
/// unique group of `s` does: the unique group holds a representative of every
/// (secret, rule id) class that occurs in `s`.
pub proof fn lemma_unique_covers(s: Seq<Finding>, x: Finding)
    ensures
        (exists|j: int| 0 <= j < s.len() && same_key(x, #[trigger] s[j])) <==> (exists|k: int|
            0 <= k < spec_unique(s).len() && same_key(x, #[trigger] spec_unique(s)[k])),
    decreases s.len(),
{
    if s.len() == 0 {
    } else {
        let t = s.drop_last();
        let last = s[s.len() - 1];
        let u = spec_unique(s);
        let ut = spec_unique(t);
        lemma_unique_covers(t, x);
        if exists|j: int| 0 <= j < s.len() && same_key(x, #[trigger] s[j]) {
            let j = choose|j: int| 0 <= j < s.len() && same_key(x, #[trigger] s[j]);
            if j < s.len() - 1 {
                assert(same_key(x, t[j]));
                let k = choose|k: int| 0 <= k < ut.len() && same_key(x, #[trigger] ut[k]);
                assert(same_key(x, u[k]));
            } else if first_occurrence(s, s.len() - 1) {
                assert(same_key(x, u[u.len() - 1]));
            } else {
                let j2 = choose|j2: int|
                    0 <= j2 < s.len() - 1 && same_key(s[s.len() - 1], #[trigger] s[j2]);
                assert(same_key(x, t[j2]));
                let k = choose|k: int| 0 <= k < ut.len() && same_key(x, #[trigger] ut[k]);
                assert(same_key(x, u[k]));
            }
            assert(exists|k: int| 0 <= k < u.len() && same_key(x, #[trigger] u[k]));
        }
        if exists|k: int| 0 <= k < u.len() && same_key(x, #[trigger] u[k]) {
            let k = choose|k: int| 0 <= k < u.len() && same_key(x, #[trigger] u[k]);
            if first_occurrence(s, s.len() - 1) && k == u.len() - 1 {
                assert(same_key(x, s[s.len() - 1]));
            } else {
                assert(same_key(x, ut[k]));
                let j = choose|j: int| 0 <= j < t.len() && same_key(x, #[trigger] t[j]);
                assert(same_key(x, s[j]));
            }
            assert(exists|j: int| 0 <= j < s.len() && same_key(x, #[trigger] s[j]));
        }
    }
}

/// Scans `list` in order for a finding that `f` is a duplicate of.
fn has_duplicate_in(list: &Vec<Finding>, f: &Finding) -> (r: bool)
    ensures
        r == exists|m: int| 0 <= m < list@.len() && same_key(*f, #[trigger] list@[m]),
{
    let mut k: usize = 0;
    while k < list.len()
        invariant
            k <= list.len(),
            forall|m: int| 0 <= m < k ==> !same_key(*f, #[trigger] list@[m]),
        decreases list.len() - k,
    {
        if f.is_duplicate_of(&list[k]) {
            assert(same_key(*f, list@[k as int]));
            return true;
        }
        k = k + 1;
    }
    false
}

/// Splits `findings` into the unique group and the duplicate group.
///
/// Each finding is tested, in input order, against the unique findings
/// accepted so far; on a match it joins the duplicates, otherwise it joins
/// the unique group and later findings are compared against it too.
pub fn partition_findings(findings: Vec<Finding>) -> (r: PartitionResult<Finding>)
    ensures
        r.unique@ == spec_unique(findings@),
        r.duplicated@ == spec_duplicated(findings@),
{
    let ghost all = findings@;
    let mut rest = findings;
    let mut unique: Vec<Finding> = Vec::new();
    let mut duplicated: Vec<Finding> = Vec::new();
    let ghost mut seen: int = 0;

    proof {
        assert(all.skip(0) =~= all);
        assert(all.take(0) =~= Seq::<Finding>::empty());
    }

    while rest.len() > 0
        invariant
            0 <= seen <= all.len(),
            rest@ == all.skip(seen),
            unique@ == spec_unique(all.take(seen)),
            duplicated@ == spec_duplicated(all.take(seen)),
        decreases rest.len(),
    {
        let finding = rest.remove(0);
        proof {
            assert(all.skip(seen)[0] == all[seen]);
            assert(rest@ =~= all.skip(seen + 1));
        }

        let found = has_duplicate_in(&unique, &finding);

        proof {
            let prefix = all.take(seen);
            lemma_unique_covers(prefix, finding);
            let next = all.take(seen + 1);
            assert(next.drop_last() =~= prefix);
            assert(next[next.len() - 1] == finding);
            assert(found == !first_occurrence(next, seen)) by {
                if found {
                    let j = choose|j: int|
                        0 <= j < prefix.len() && same_key(finding, #[trigger] prefix[j]);
                    assert(same_key(next[seen], next[j]));
                } else {
                    assert forall|j: int| 0 <= j < seen implies !same_key(
                        next[seen],
                        #[trigger] next[j],
                    ) by {
                        assert(next[j] == prefix[j]);
                    }
                }
            }
        }

        if found {
            duplicated.push(finding);
        } else {
            unique.push(finding);
        }
        proof {
            seen = seen + 1;
        }
    }

    proof {
        assert(all.take(seen) =~= all);
    }
    PartitionResult { unique, duplicated }
}

/// Picks the group a caller asked for: the unique findings, or (the default)
/// the duplicates.
pub fn select_group(groups: PartitionResult<Finding>, unique: bool) -> (g: Vec<Finding>)
    ensures
        g == if unique {
            groups.unique
        } else {
            groups.duplicated
        },
{
    if unique {
        groups.unique
    } else {
        groups.duplicated
    }
}

/// Positions of the members of the unique group of `s`, in input order.
pub open spec fn unique_indices(s: Seq<Finding>) -> Seq<int>
    decreases s.len(),
{
    if s.len() == 0 {
        Seq::empty()
    } else if first_occurrence(s, s.len() - 1) {
        unique_indices(s.drop_last()).push(s.len() - 1)
    } else {
        unique_indices(s.drop_last())
    }
}

/// Positions of the members of the duplicate group of `s`, in input order.
pub open spec fn duplicated_indices(s: Seq<Finding>) -> Seq<int>
    decreases s.len(),
{
    if s.len() == 0 {
        Seq::empty()
    } else if first_occurrence(s, s.len() - 1) {
        duplicated_indices(s.drop_last())
    } else {
        duplicated_indices(s.drop_last()).push(s.len() - 1)
    }
}

/// Whether a position holds a first occurrence depends only on the prefix up
/// to it, so dropping the last element does not change it.
proof fn lemma_first_occurrence_prefix(s: Seq<Finding>, i: int)
    requires
        0 <= i < s.len() - 1,
    ensures
        first_occurrence(s.drop_last(), i) == first_occurrence(s, i),
{
    let t = s.drop_last();
    if first_occurrence(t, i) {
        assert forall|j: int| 0 <= j < i implies !same_key(s[i], #[trigger] s[j]) by {
            assert(!same_key(t[i], t[j]));
        }
    }
    if first_occurrence(s, i) {
        assert forall|j: int| 0 <= j < i implies !same_key(t[i], #[trigger] t[j]) by {
            assert(!same_key(s[i], s[j]));
        }
    }
}

/// The whole story of the two index sequences: each group lists the elements
/// of `s` found at its indices; the indices are strictly increasing positions
/// into `s`; and a position is listed under unique exactly when it holds a
/// first occurrence, under duplicated exactly when it does not.
proof fn lemma_indices_facts(s: Seq<Finding>)
    ensures
        unique_indices(s).len() == spec_unique(s).len(),
        duplicated_indices(s).len() == spec_duplicated(s).len(),
        forall|k: int| 0 <= k < unique_indices(s).len() ==> 0 <= #[trigger] unique_indices(s)[k]
            < s.len(),
        forall|k: int| 0 <= k < duplicated_indices(s).len() ==> 0
            <= #[trigger] duplicated_indices(s)[k] < s.len(),
        forall|k: int| 0 <= k < unique_indices(s).len() ==> spec_unique(s)[k] == s[#[trigger] unique_indices(
            s,
        )[k]],
        forall|k: int| 0 <= k < duplicated_indices(s).len() ==> spec_duplicated(s)[k]
            == s[#[trigger] duplicated_indices(s)[k]],
        forall|a: int, b: int|
            0 <= a < b < unique_indices(s).len() ==> #[trigger] unique_indices(s)[a]
                < #[trigger] unique_indices(s)[b],
        forall|a: int, b: int|
            0 <= a < b < duplicated_indices(s).len() ==> #[trigger] duplicated_indices(s)[a]
                < #[trigger] duplicated_indices(s)[b],
        forall|k: int| 0 <= k < unique_indices(s).len() ==> first_occurrence(
            s,
            #[trigger] unique_indices(s)[k],
        ),
        forall|k: int| 0 <= k < duplicated_indices(s).len() ==> !first_occurrence(
            s,
            #[trigger] duplicated_indices(s)[k],
        ),
        forall|i: int|
            0 <= i < s.len() && first_occurrence(s, i) ==> #[trigger] unique_indices(s).contains(i),
        forall|i: int|
            0 <= i < s.len() && !first_occurrence(s, i) ==> #[trigger] duplicated_indices(
                s,
            ).contains(i),
    decreases s.len(),
{
    if s.len() == 0 {
    } else {
        let t = s.drop_last();
        let n = s.len() - 1;
        lemma_indices_facts(t);
        assert forall|i: int| 0 <= i < n implies first_occurrence(t, i) == first_occurrence(
            s,
            i,
        ) by {
            lemma_first_occurrence_prefix(s, i);
        }
        assert forall|i: int|
            0 <= i < s.len() && first_occurrence(s, i) implies #[trigger] unique_indices(
            s,
        ).contains(i) by {
            if i < n {
                assert(first_occurrence(t, i));
                assert(unique_indices(t).contains(i));
                let k = choose|k: int| 0 <= k < unique_indices(t).len() && unique_indices(t)[k] == i;
                assert(unique_indices(s)[k] == i);
            } else {
                assert(unique_indices(s)[unique_indices(s).len() - 1] == i);
            }
        }
        assert forall|i: int|
            0 <= i < s.len() && !first_occurrence(s, i) implies #[trigger] duplicated_indices(
            s,
        ).contains(i) by {
            if i < n {
                assert(!first_occurrence(t, i));
                assert(duplicated_indices(t).contains(i));
                let k = choose|k: int|
                    0 <= k < duplicated_indices(t).len() && duplicated_indices(t)[k] == i;
                assert(duplicated_indices(s)[k] == i);
            } else {
                assert(duplicated_indices(s)[duplicated_indices(s).len() - 1] == i);
            }
        }
    }
}

/// Partition totality: the two groups account for the whole input.  Their
/// lengths sum to the input's length, and together they hold exactly the
/// input's findings, each exactly once.
pub proof fn lemma_partition_totality(s: Seq<Finding>)
    ensures
        spec_unique(s).len() + spec_duplicated(s).len() == s.len(),
        spec_unique(s).to_multiset().add(spec_duplicated(s).to_multiset()) == s.to_multiset(),
    decreases s.len(),
{
    broadcast use vstd::seq_lib::group_to_multiset_ensures;

    if s.len() == 0 {
        assert(spec_unique(s).to_multiset().add(spec_duplicated(s).to_multiset())
            =~= s.to_multiset());
    } else {
        let t = s.drop_last();
        let last = s[s.len() - 1];
        lemma_partition_totality(t);
        assert(t.push(last) =~= s);
        assert(s.to_multiset() == t.to_multiset().insert(last));
        if first_occurrence(s, s.len() - 1) {
            assert(spec_unique(s).to_multiset() == spec_unique(t).to_multiset().insert(last));
            assert(spec_unique(s).to_multiset().add(spec_duplicated(s).to_multiset())
                =~= spec_unique(t).to_multiset().add(spec_duplicated(t).to_multiset()).insert(
                last,
            ));
        } else {
            assert(spec_duplicated(s).to_multiset() == spec_duplicated(t).to_multiset().insert(
                last,
            ));
            assert(spec_unique(s).to_multiset().add(spec_duplicated(s).to_multiset())
                =~= spec_unique(t).to_multiset().add(spec_duplicated(t).to_multiset()).insert(
                last,
            ));
        }
    }
}

/// First occurrence wins: a position of the input joins the unique group
/// exactly when no earlier position shares its (secret, rule id) pair, and
/// joins the duplicate group exactly when an earlier one does.
pub proof fn lemma_first_occurrence_wins(s: Seq<Finding>)
    ensures
        forall|i: int|
            0 <= i < s.len() ==> (#[trigger] unique_indices(s).contains(i) <==> first_occurrence(
                s,
                i,
            )),
        forall|i: int|
            0 <= i < s.len() ==> (#[trigger] duplicated_indices(s).contains(i)
                <==> !first_occurrence(s, i)),
        forall|k: int| 0 <= k < unique_indices(s).len() ==> spec_unique(s)[k] == s[#[trigger] unique_indices(
            s,
        )[k]],
        forall|k: int| 0 <= k < duplicated_indices(s).len() ==> spec_duplicated(s)[k]
            == s[#[trigger] duplicated_indices(s)[k]],
{
    lemma_indices_facts(s);
    assert forall|i: int|
        0 <= i < s.len() && #[trigger] unique_indices(s).contains(i) implies first_occurrence(
        s,
        i,
    ) by {
        let k = choose|k: int| 0 <= k < unique_indices(s).len() && unique_indices(s)[k] == i;
        assert(first_occurrence(s, unique_indices(s)[k]));
    }
    assert forall|i: int|
        0 <= i < s.len() && #[trigger] duplicated_indices(s).contains(i) implies !first_occurrence(
        s,
        i,
    ) by {
        let k = choose|k: int|
            0 <= k < duplicated_indices(s).len() && duplicated_indices(s)[k] == i;
        assert(!first_occurrence(s, duplicated_indices(s)[k]));
    }
}

/// Order preservation: each group lists the input's findings at strictly
/// increasing input positions, so the relative order within a group matches
/// the relative order in the input.
pub proof fn lemma_order_preservation(s: Seq<Finding>)
    ensures
        unique_indices(s).len() == spec_unique(s).len(),
        duplicated_indices(s).len() == spec_duplicated(s).len(),
        forall|k: int| 0 <= k < unique_indices(s).len() ==> 0 <= #[trigger] unique_indices(s)[k]
            < s.len(),
        forall|k: int| 0 <= k < duplicated_indices(s).len() ==> 0
            <= #[trigger] duplicated_indices(s)[k] < s.len(),
        forall|k: int| 0 <= k < unique_indices(s).len() ==> spec_unique(s)[k] == s[#[trigger] unique_indices(
            s,
        )[k]],
        forall|k: int| 0 <= k < duplicated_indices(s).len() ==> spec_duplicated(s)[k]
            == s[#[trigger] duplicated_indices(s)[k]],
        forall|a: int, b: int|
            0 <= a < b < unique_indices(s).len() ==> #[trigger] unique_indices(s)[a]
                < #[trigger] unique_indices(s)[b],
        forall|a: int, b: int|
            0 <= a < b < duplicated_indices(s).len() ==> #[trigger] duplicated_indices(s)[a]
                < #[trigger] duplicated_indices(s)[b],
{
    lemma_indices_facts(s);
}

/// Empty input: a report with no findings has no unique and no duplicated
/// findings.
pub proof fn lemma_empty_input()
    ensures
        spec_unique(Seq::<Finding>::empty()) == Seq::<Finding>::empty(),
        spec_duplicated(Seq::<Finding>::empty()) == Seq::<Finding>::empty(),
{
}

} // verus!
