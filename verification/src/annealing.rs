//! The local-search state over per-group path selections, and one
//! annealing transition. The temperature schedule and the randomized
//! accept/reject draw live with the caller; the state, its cost, the
//! neighbor generation and the acceptance rule are verified here.

use vstd::prelude::*;

use crate::records::Group;

verus! {

/// The cost a selection pays for each group left without a path.
pub const UNASSIGNED_PENALTY: u64 = 10000;

/// A selection assigns each group one of its candidate paths, or no path
/// exactly when it has no candidates.
pub open spec fn valid_selection(groups: Seq<Group>, sel: Seq<Option<usize>>) -> bool {
    &&& sel.len() == groups.len()
    &&& forall|i: int|
        0 <= i < sel.len() ==> match #[trigger] sel[i] {
            Some(j) => groups[i].paths@.len() > 0 && j < groups[i].paths@.len(),
            None => groups[i].paths@.len() == 0,
        }
}

/// The cost of the first `n` groups under a selection: the duration of the
/// chosen path, or a fixed penalty for a group without one.
pub open spec fn spec_selection_cost(groups: Seq<Group>, sel: Seq<Option<usize>>, n: int) -> int
    decreases n,
{
    if n <= 0 {
        0
    } else {
        spec_selection_cost(groups, sel, n - 1) + match sel[n - 1] {
            Some(j) => groups[n - 1].paths@[j as int].duration as int,
            None => UNASSIGNED_PENALTY as int,
        }
    }
}

/// Two selections are neighbors when both are valid and they differ in
/// exactly one group's assignment.
pub open spec fn is_neighbor(
    groups: Seq<Group>,
    a: Seq<Option<usize>>,
    b: Seq<Option<usize>>,
) -> bool {
    &&& valid_selection(groups, a)
    &&& valid_selection(groups, b)
    &&& exists|i: int| 0 <= i < a.len() && a[i] != b[i] && b =~= a.update(i, b[i])
}

/// Copies a selection.
fn clone_selection(v: &Vec<Option<usize>>) -> (r: Vec<Option<usize>>)
    ensures
        r@ == v@,
{
    let mut r: Vec<Option<usize>> = Vec::new();
    let n = v.len();
    for i in 0..n
        invariant
            n == v@.len(),
            r@ == v@.subrange(0, i as int),
    {
        r.push(v[i]);
        proof {
            assert(r@ =~= v@.subrange(0, i + 1));
        }
    }
    proof {
        assert(r@ =~= v@);
    }
    r
}

/// The selection every annealing run starts from: each group takes its
/// best-ranked candidate, groups without candidates stay unassigned.
pub fn initial_selection(groups: &Vec<Group>) -> (r: Vec<Option<usize>>)
    ensures
        valid_selection(groups@, r@),
        forall|i: int|
            0 <= i < groups@.len() ==> r@[i] == if (#[trigger] groups@[i]).paths@.len() > 0 {
                Some(0usize)
            } else {
                None::<usize>
            },
{
    let mut r: Vec<Option<usize>> = Vec::new();
    let n = groups.len();
    for i in 0..n
        invariant
            n == groups@.len(),
            r@.len() == i,
            forall|ii: int|
                0 <= ii < i ==> r@[ii] == if (#[trigger] groups@[ii]).paths@.len() > 0 {
                    Some(0usize)
                } else {
                    None::<usize>
                },
    {
        if groups[i].paths.len() > 0 {
            r.push(Some(0usize));
        } else {
            r.push(None);
        }
    }
    r
}

/// Computes the exact cost of a valid selection.
pub fn selection_cost(groups: &Vec<Group>, sel: &Vec<Option<usize>>) -> (c: u128)
    requires
        valid_selection(groups@, sel@),
        groups@.len() <= 0xffff_ffff,
    ensures
        c == spec_selection_cost(groups@, sel@, groups@.len() as int),
{
    let mut c: u128 = 0;
    let n = groups.len();
    for i in 0..n
        invariant
            n == groups@.len(),
            n <= 0xffff_ffff,
            valid_selection(groups@, sel@),
            c == spec_selection_cost(groups@, sel@, i as int),
            c <= (i as int) * 0x1_0000_0000_0000_2710,
    {
        let term: u128 = match sel[i] {
            Some(j) => groups[i].paths[j].duration as u128,
            None => UNASSIGNED_PENALTY as u128,
        };
        proof {
            let ci = c as int;
            let ii = i as int;
            assert(ci + 0x1_0000_0000_0000_2710 <= (ii + 1) * 0x1_0000_0000_0000_2710)
                by (nonlinear_arith)
                requires
                    0 <= ii,
                    ci <= ii * 0x1_0000_0000_0000_2710,
            ;
        }
        c = c + term;
    }
    c
}

/// Finds the lowest-cost neighbor of the current selection, trying each
/// group's other candidates in order and keeping the first minimum. `None`
/// when the current selection has no neighbor at all.
pub fn best_neighbor(groups: &Vec<Group>, current: &Vec<Option<usize>>) -> (r: Option<
    (Vec<Option<usize>>, u128),
>)
    requires
        valid_selection(groups@, current@),
        groups@.len() <= 0xffff_ffff,
    ensures
        r matches Some(p) ==> {
            &&& is_neighbor(groups@, current@, p.0@)
            &&& p.1 == spec_selection_cost(groups@, p.0@, groups@.len() as int)
            &&& forall|other: Seq<Option<usize>>|
                is_neighbor(groups@, current@, other) ==> spec_selection_cost(
                    groups@,
                    other,
                    groups@.len() as int,
                ) >= p.1
        },
        r is None ==> forall|other: Seq<Option<usize>>| !is_neighbor(groups@, current@, other),
{
    let ghost glen = groups@.len() as int;
    let mut best: Option<(Vec<Option<usize>>, u128)> = None;
    let n = groups.len();
    for gi in 0..n
        invariant
            n == groups@.len(),
            n <= 0xffff_ffff,
            valid_selection(groups@, current@),
            match best {
                Some(p) => {
                    &&& is_neighbor(groups@, current@, p.0@)
                    &&& p.1 == spec_selection_cost(groups@, p.0@, groups@.len() as int)
                    &&& forall|other: Seq<Option<usize>>, i: int|
                        0 <= i < gi && current@[i] != other[i] && other =~= current@.update(
                            i,
                            other[i],
                        ) && valid_selection(groups@, other) ==> spec_selection_cost(
                            groups@,
                            other,
                            groups@.len() as int,
                        ) >= p.1
                },
                None => forall|other: Seq<Option<usize>>, i: int|
                    0 <= i < gi && current@[i] != other[i] && other =~= current@.update(
                        i,
                        other[i],
                    ) && valid_selection(groups@, other) ==> false,
            },
    {
        let np = groups[gi].paths.len();
        for j in 0..np
            invariant
                n == groups@.len(),
                n <= 0xffff_ffff,
                gi < n,
                np == groups@[gi as int].paths@.len(),
                valid_selection(groups@, current@),
                match best {
                    Some(p) => {
                        &&& is_neighbor(groups@, current@, p.0@)
                        &&& p.1 == spec_selection_cost(groups@, p.0@, groups@.len() as int)
                        &&& forall|other: Seq<Option<usize>>, i: int|
                            0 <= i < gi && current@[i] != other[i] && other =~= current@.update(
                                i,
                                other[i],
                            ) && valid_selection(groups@, other) ==> spec_selection_cost(
                                groups@,
                                other,
                                groups@.len() as int,
                            ) >= p.1
                        &&& forall|jj: usize|
                            jj < j && current@[gi as int] != Some(jj) ==> #[trigger] spec_selection_cost(
                                groups@,
                                current@.update(gi as int, Some(jj)),
                                groups@.len() as int,
                            ) >= p.1
                    },
                    None => {
                        &&& forall|other: Seq<Option<usize>>, i: int|
                            0 <= i < gi && current@[i] != other[i] && other =~= current@.update(
                                i,
                                other[i],
                            ) && valid_selection(groups@, other) ==> false
                        &&& j <= 1
                        &&& (j == 1 ==> (current@[gi as int] matches Some(cj) && cj == 0))
                    },
                },
        {
            let keep = match current[gi] {
                Some(cj) => cj == j,
                None => false,
            };
            if !keep {
                let mut cand = clone_selection(current);
                cand.set(gi, Some(j));
                proof {
                    assert(cand@ =~= current@.update(gi as int, Some(j)));
                    assert(valid_selection(groups@, cand@));
                }
                let cost = selection_cost(groups, &cand);
                proof {
                    assert(is_neighbor(groups@, current@, cand@)) by {
                        assert((gi as int) < current@.len() && current@[gi as int]
                            != cand@[gi as int] && cand@ =~= current@.update(
                            gi as int,
                            cand@[gi as int],
                        ));
                    }
                }
                let take = match &best {
                    Some(p) => cost < p.1,
                    None => true,
                };
                if take {
                    best = Some((cand, cost));
                }
            }
        }
        proof {
            // Every neighbor differing at this group is one of the tried
            // candidates.
            if best is Some {
                let p = best.get_Some_0();
                assert forall|other: Seq<Option<usize>>, i: int|
                    0 <= i < gi + 1 && current@[i] != other[i] && other =~= current@.update(
                        i,
                        other[i],
                    ) && valid_selection(groups@, other) implies spec_selection_cost(
                    groups@,
                    other,
                    groups@.len() as int,
                ) >= p.1 by {
                    if i == gi as int {
                        assert(other.len() == groups@.len());
                        if other[i] is Some {
                            let jj = other[i].get_Some_0();
                            assert(jj < groups@[i].paths@.len());
                            assert(other =~= current@.update(gi as int, Some(jj)));
                            assert(spec_selection_cost(
                                groups@,
                                current@.update(gi as int, Some(jj)),
                                groups@.len() as int,
                            ) >= p.1);
                            assert(other == current@.update(gi as int, Some(jj)));
                        } else {
                            assert(groups@[i].paths@.len() == 0);
                            assert(current@[i] is None);
                        }
                    }
                }
            } else {
                assert forall|other: Seq<Option<usize>>, i: int|
                    0 <= i < gi + 1 && current@[i] != other[i] && other =~= current@.update(
                        i,
                        other[i],
                    ) && valid_selection(groups@, other) implies false by {
                    if i == gi as int {
                        if other[i] is Some {
                            let jj = other[i].get_Some_0();
                            assert(jj < groups@[i].paths@.len());
                        } else {
                            assert(groups@[i].paths@.len() == 0);
                            assert(current@[i] is None);
                        }
                    }
                }
            }
        }
    }
    proof {
        if best is Some {
            assert forall|other: Seq<Option<usize>>|
                is_neighbor(groups@, current@, other) implies spec_selection_cost(
                groups@,
                other,
                glen,
            ) >= best.get_Some_0().1 by {
                let i = choose|i: int|
                    0 <= i < current@.len() && current@[i] != other[i] && other
                        =~= current@.update(i, other[i]);
            }
        } else {
            assert forall|other: Seq<Option<usize>>|
                !is_neighbor(groups@, current@, other) by {
                if is_neighbor(groups@, current@, other) {
                    let i = choose|i: int|
                        0 <= i < current@.len() && current@[i] != other[i] && other
                            =~= current@.update(i, other[i]);
                }
            }
        }
    }
    best
}

/// One annealing transition: the lowest-cost neighbor replaces the current
/// selection when it improves on it, or when the caller's randomized draw
/// accepts a worsening move; otherwise the current selection stays. A
/// move happens exactly when some neighbor exists and it either improves
/// on the current cost or the draw accepts it.
pub fn anneal_step(
    groups: &Vec<Group>,
    current: Vec<Option<usize>>,
    current_cost: u128,
    accept_worse: bool,
) -> (r: (Vec<Option<usize>>, u128, bool))
    requires
        valid_selection(groups@, current@),
        groups@.len() <= 0xffff_ffff,
        current_cost == spec_selection_cost(groups@, current@, groups@.len() as int),
    ensures
        valid_selection(groups@, r.0@),
        r.1 == spec_selection_cost(groups@, r.0@, groups@.len() as int),
        r.2 ==> is_neighbor(groups@, current@, r.0@) && (r.1 < current_cost || accept_worse)
            && forall|other: Seq<Option<usize>>|
            is_neighbor(groups@, current@, other) ==> spec_selection_cost(
                groups@,
                other,
                groups@.len() as int,
            ) >= r.1,
        !r.2 ==> r.0@ == current@ && r.1 == current_cost,
        r.2 <==> exists|o: Seq<Option<usize>>|
            #[trigger] is_neighbor(groups@, current@, o) && (accept_worse || spec_selection_cost(
                groups@,
                o,
                groups@.len() as int,
            ) < current_cost),
{
    match best_neighbor(groups, &current) {
        Some(p) => {
            if p.1 < current_cost || accept_worse {
                proof {
                    assert(is_neighbor(groups@, current@, p.0@) && (accept_worse
                        || spec_selection_cost(groups@, p.0@, groups@.len() as int)
                        < current_cost));
                }
                (p.0, p.1, true)
            } else {
                proof {
                    assert forall|o: Seq<Option<usize>>|
                        !(#[trigger] is_neighbor(groups@, current@, o) && (accept_worse
                            || spec_selection_cost(groups@, o, groups@.len() as int)
                            < current_cost)) by {
                        if is_neighbor(groups@, current@, o) {
                            assert(spec_selection_cost(groups@, o, groups@.len() as int) >= p.1);
                        }
                    }
                }
                (current, current_cost, false)
            }
        },
        None => (current, current_cost, false),
    }
}

} // verus!
