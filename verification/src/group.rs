//! Grouping of line numbers into maximal runs of consecutive integers.

use vstd::prelude::*;

verus! {

/// The runs of consecutive integers in `s`, in input order: a new run
/// starts whenever an element is not exactly one greater than the last
/// element of the current run.
pub open spec fn group_spec(s: Seq<u32>) -> Seq<Seq<u32>>
    decreases s.len(),
{
    if s.len() == 0 {
        Seq::empty()
    } else {
        let gs = group_spec(s.drop_last());
        let x = s.last();
        if gs.len() > 0 && gs.last().len() > 0 && x == gs.last().last() + 1 {
            gs.update(gs.len() - 1, gs.last().push(x))
        } else {
            gs.push(seq![x])
        }
    }
}

/// All groups concatenated, in order.
pub open spec fn concat_all(gs: Seq<Seq<u32>>) -> Seq<u32>
    decreases gs.len(),
{
    if gs.len() == 0 {
        Seq::empty()
    } else {
        concat_all(gs.drop_last()) + gs.last()
    }
}

/// A well-formed grouping: every group is a non-empty run of consecutive
/// integers, and adjacent groups cannot be joined (maximality).
pub open spec fn groups_wf(gs: Seq<Seq<u32>>) -> bool {
    &&& forall|i: int| 0 <= i < gs.len() ==> (#[trigger] gs[i]).len() > 0
    &&& forall|i: int, k: int|
        0 <= i < gs.len() && 0 < k < gs[i].len() ==> #[trigger] gs[i][k] == gs[i][k - 1] + 1
    &&& forall|i: int|
        0 < i < gs.len() ==> (#[trigger] gs[i])[0] != gs[i - 1].last() + 1
}

/// Grouping is exhaustive and non-overlapping: concatenating all groups'
/// elements, in order, reproduces the original sequence exactly.
pub proof fn lemma_group_spec_concat(s: Seq<u32>)
    ensures
        concat_all(group_spec(s)) == s,
    decreases s.len(),
{
    if s.len() == 0 {
        assert(concat_all(group_spec(s)) =~= s);
    } else {
        lemma_group_spec_concat(s.drop_last());
        let gs = group_spec(s.drop_last());
        let x = s.last();
        if gs.len() > 0 && gs.last().len() > 0 && x == gs.last().last() + 1 {
            let gs2 = gs.update(gs.len() - 1, gs.last().push(x));
            assert(gs2.drop_last() =~= gs.drop_last());
            assert(gs2.last() == gs.last().push(x));
            assert(concat_all(gs2) == concat_all(gs.drop_last()) + gs.last().push(x));
            assert(concat_all(gs.drop_last()) + gs.last().push(x) =~= (concat_all(gs.drop_last())
                + gs.last()) + seq![x]);
            assert(concat_all(group_spec(s)) =~= s.drop_last().push(x));
            assert(s.drop_last().push(x) =~= s);
        } else {
            let gs2 = gs.push(seq![x]);
            assert(gs2.drop_last() =~= gs);
            assert(concat_all(gs2) == concat_all(gs) + seq![x]);
            assert(concat_all(gs) + seq![x] =~= s.drop_last().push(x));
            assert(s.drop_last().push(x) =~= s);
        }
    }
}

/// Every grouping the spec produces is well-formed: non-empty consecutive
/// runs, maximal at each boundary.
pub proof fn lemma_group_spec_wf(s: Seq<u32>)
    ensures
        groups_wf(group_spec(s)),
    decreases s.len(),
{
    if s.len() > 0 {
        lemma_group_spec_wf(s.drop_last());
        let gs = group_spec(s.drop_last());
        let x = s.last();
        if gs.len() > 0 && gs.last().len() > 0 && x == gs.last().last() + 1 {
            let gs2 = gs.update(gs.len() - 1, gs.last().push(x));
            assert forall|i: int, k: int|
                0 <= i < gs2.len() && 0 < k < gs2[i].len() implies #[trigger] gs2[i][k] == gs2[i][k
                - 1] + 1 by {
                if i < gs2.len() - 1 {
                    assert(gs2[i] == gs[i]);
                } else {
                    assert(gs2[i] == gs.last().push(x));
                    if k < gs2[i].len() - 1 {
                        assert(gs2[i][k] == gs.last()[k]);
                        assert(gs2[i][k - 1] == gs.last()[k - 1]);
                    } else {
                        assert(gs2[i][k] == x);
                        assert(gs2[i][k - 1] == gs.last()[k - 1]);
                        assert(gs.last()[k - 1] == gs.last().last());
                    }
                }
            }
            assert forall|i: int| 0 < i < gs2.len() implies (#[trigger] gs2[i])[0] != gs2[i
                - 1].last() + 1 by {
                if i < gs2.len() - 1 {
                    assert(gs2[i] == gs[i]);
                    assert(gs2[i - 1] == gs[i - 1]);
                } else {
                    assert(gs2[i][0] == gs.last()[0]);
                    assert(gs2[i - 1] == gs[i - 1]);
                }
            }
        } else {
            let gs2 = gs.push(seq![x]);
            assert forall|i: int, k: int|
                0 <= i < gs2.len() && 0 < k < gs2[i].len() implies #[trigger] gs2[i][k] == gs2[i][k
                - 1] + 1 by {
                if i < gs2.len() - 1 {
                    assert(gs2[i] == gs[i]);
                }
            }
            assert forall|i: int| 0 < i < gs2.len() implies (#[trigger] gs2[i])[0] != gs2[i
                - 1].last() + 1 by {
                if i < gs2.len() - 1 {
                    assert(gs2[i] == gs[i]);
                    assert(gs2[i - 1] == gs[i - 1]);
                }
            }
        }
    }
}

/// The view of a vector of groups.
pub open spec fn groups_view(gs: Seq<Vec<u32>>) -> Seq<Seq<u32>> {
    gs.map_values(|v: Vec<u32>| v@)
}

/// Groups an ordered sequence of line numbers into maximal runs of
/// consecutive integers, preserving input order.
pub fn group_consecutive_lines(lines: &Vec<u32>) -> (grouped: Vec<Vec<u32>>)
    ensures
        groups_view(grouped@) == group_spec(lines@),
{
    let mut grouped: Vec<Vec<u32>> = Vec::new();
    let mut current: Vec<u32> = Vec::new();
    let mut k: usize = 0;
    proof {
        assert(lines@.take(0) =~= Seq::<u32>::empty());
    }
    while k < lines.len()
        invariant
            0 <= k <= lines@.len(),
            current@.len() == 0 ==> k == 0 && grouped@.len() == 0,
            current@.len() > 0 ==> groups_view(grouped@).push(current@) == group_spec(
                lines@.take(k as int),
            ),
        decreases lines@.len() - k,
    {
        let line = lines[k];
        proof {
            assert(lines@.take(k + 1).drop_last() =~= lines@.take(k as int));
            assert(lines@.take(k + 1).last() == lines@[k as int]);
        }
        if current.len() == 0 {
            proof {
                assert(group_spec(lines@.take(k as int)) =~= Seq::<Seq<u32>>::empty());
            }
            current.push(line);
            proof {
                assert(current@ =~= seq![line]);
                assert(groups_view(grouped@).push(current@) =~= Seq::<Seq<u32>>::empty().push(
                    seq![line],
                ));
            }
        } else {
            let last = current[current.len() - 1];
            proof {
                assert(group_spec(lines@.take(k as int)).last() == current@);
            }
            if last < u32::MAX && line == last + 1 {
                current.push(line);
                proof {
                    let gs = group_spec(lines@.take(k as int));
                    assert(group_spec(lines@.take(k + 1)) == gs.update(
                        gs.len() - 1,
                        gs.last().push(line),
                    ));
                    assert(groups_view(grouped@).push(current@) =~= gs.update(
                        gs.len() - 1,
                        gs.last().push(line),
                    ));
                }
            } else {
                proof {
                    let gs = group_spec(lines@.take(k as int));
                    assert(!(line == gs.last().last() + 1));
                    assert(group_spec(lines@.take(k + 1)) == gs.push(seq![line]));
                }
                grouped.push(current);
                current = Vec::new();
                current.push(line);
                proof {
                    let gs = group_spec(lines@.take(k as int));
                    assert(current@ =~= seq![line]);
                    assert(groups_view(grouped@).push(current@) =~= gs.push(seq![line]));
                }
            }
        }
        k = k + 1;
    }
    proof {
        assert(lines@.take(lines@.len() as int) =~= lines@);
    }
    if current.len() > 0 {
        grouped.push(current);
        proof {
            assert(groups_view(grouped@) =~= groups_view(grouped@.drop_last()).push(
                grouped@.last()@,
            ));
        }
    } else {
        proof {
            assert(groups_view(grouped@) =~= group_spec(lines@));
        }
    }
    grouped
}

} // verus!
