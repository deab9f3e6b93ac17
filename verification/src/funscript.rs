//! Motion waypoints and the windowed motion-to-intensity signal processor.
//!
//! A funscript is an ordered sequence of motion waypoints. Positions are
//! fixed-point milli-units: a position of `42.5` on the usual `0.0 ..= 100.0`
//! scale is stored as `42_500`, so the valid position range is
//! `0 ..= 100_000`.

use vstd::prelude::*;

verus! {

/// Highest valid waypoint position: `100.0` on the percent scale,
/// in milli-units.
pub const POS_MAX: u64 = 100_000;

/// A single motion waypoint: a position held at a point in time.
#[derive(Clone, Copy, PartialEq, Eq, Structural, Debug)]
pub struct Action {
    /// Timestamp in milliseconds.
    pub at: u64,
    /// Position (or derived intensity) in milli-units.
    pub pos: u64,
}

/// An ordered collection of motion waypoints.
#[derive(Clone, Debug)]
pub struct FunscriptData {
    pub actions: Vec<Action>,
}

/// A motion waypoint's position lies on the `0 ..= 100_000` milli-unit scale.
pub open spec fn pos_valid(a: Action) -> bool {
    a.pos <= POS_MAX
}

/// Every waypoint of the sequence has a valid position.
pub open spec fn all_pos_valid(s: Seq<Action>) -> bool {
    forall|i: int| 0 <= i < s.len() ==> pos_valid(#[trigger] s[i])
}

/// The sequence is ordered by non-decreasing timestamp.
pub open spec fn sorted_by_at(s: Seq<Action>) -> bool {
    forall|i: int, j: int| 0 <= i < j < s.len() ==> #[trigger] s[i].at <= #[trigger] s[j].at
}

/// Linear interpolation between two optional neighbouring waypoints,
/// evaluated at time `t`. Outside the span of the two waypoints the nearer
/// waypoint's position is held; a degenerate span yields the earlier
/// position. Division truncates toward zero.
pub open spec fn interp_spec(a0: Option<Action>, a1: Option<Action>, t: u64) -> int {
    match (a0, a1) {
        (None, None) => 0,
        (None, Some(b)) => b.pos as int,
        (Some(a), None) => a.pos as int,
        (Some(a), Some(b)) => {
            if t <= a.at {
                a.pos as int
            } else if t >= b.at {
                b.pos as int
            } else if a.at == b.at {
                a.pos as int
            } else {
                if b.pos >= a.pos {
                    a.pos + (b.pos - a.pos) * (t - a.at) / (b.at - a.at)
                } else {
                    a.pos - (a.pos - b.pos) * (t - a.at) / (b.at - a.at)
                }
            }
        },
    }
}

/// The interpolated position always lies between the two endpoint positions.
pub proof fn lemma_interp_bounds(a: Action, b: Action, t: u64)
    requires
        a.at < t < b.at,
    ensures
        a.pos <= b.pos ==> a.pos <= interp_spec(Some(a), Some(b), t) <= b.pos,
        a.pos > b.pos ==> b.pos <= interp_spec(Some(a), Some(b), t) <= a.pos,
{
    let dt = (t - a.at) as int;
    let span = (b.at - a.at) as int;
    if a.pos <= b.pos {
        let d = (b.pos - a.pos) as int;
        assert(0 <= d * dt / span <= d) by (nonlinear_arith)
            requires
                0 <= d,
                0 < dt < span,
        ;
    } else {
        let d = (a.pos - b.pos) as int;
        assert(0 <= d * dt / span <= d) by (nonlinear_arith)
            requires
                0 <= d,
                0 < dt < span,
        ;
    }
}

/// Calculates the interpolated position at a given time between two
/// neighbouring waypoints.
pub fn interpolate_position(a0: Option<&Action>, a1: Option<&Action>, time: u64) -> (r: u64)
    ensures
        r == interp_spec(
            match a0 { Some(a) => Some(*a), None => None },
            match a1 { Some(a) => Some(*a), None => None },
            time,
        ),
        (match a0 { Some(a) => pos_valid(*a), None => true })
            && (match a1 { Some(a) => pos_valid(*a), None => true }) ==> r <= POS_MAX,
{
    match (a0, a1) {
        (None, None) => 0,
        (None, Some(act1)) => act1.pos,
        (Some(act0), None) => act0.pos,
        (Some(act0), Some(act1)) => {
            if time <= act0.at {
                act0.pos
            } else if time >= act1.at {
                act1.pos
            } else if act0.at == act1.at {
                act0.pos
            } else {
                proof {
                    lemma_interp_bounds(*act0, *act1, time);
                }
                let dt = (time - act0.at) as u128;
                let span = (act1.at - act0.at) as u128;
                if act1.pos >= act0.pos {
                    let d = (act1.pos - act0.pos) as u128;
                    assert(d * dt <= 0xFFFF_FFFF_FFFF_FFFFu128 * 0xFFFF_FFFF_FFFF_FFFFu128)
                        by (nonlinear_arith)
                        requires
                            d <= 0xFFFF_FFFF_FFFF_FFFFu128,
                            dt <= 0xFFFF_FFFF_FFFF_FFFFu128,
                    ;
                    let q = d * dt / span;
                    act0.pos + (q as u64)
                } else {
                    let d = (act0.pos - act1.pos) as u128;
                    assert(d * dt <= 0xFFFF_FFFF_FFFF_FFFFu128 * 0xFFFF_FFFF_FFFF_FFFFu128)
                        by (nonlinear_arith)
                        requires
                            d <= 0xFFFF_FFFF_FFFF_FFFFu128,
                            dt <= 0xFFFF_FFFF_FFFF_FFFFu128,
                    ;
                    let q = d * dt / span;
                    act0.pos - (q as u64)
                }
            }
        },
    }
}

/// `a` inserted into `s` before every element with a strictly later
/// timestamp. On a sorted `s` this keeps the order and is stable:
/// `a` lands after existing elements that share its timestamp.
pub open spec fn insert_sorted(s: Seq<Action>, a: Action) -> Seq<Action>
    decreases s.len(),
{
    if s.len() == 0 {
        seq![a]
    } else if s.last().at > a.at {
        insert_sorted(s.drop_last(), a).push(s.last())
    } else {
        s.push(a)
    }
}

/// The sequence stably sorted by timestamp: each element in turn inserted
/// into the sorted prefix before it.
pub open spec fn sort_by_at_spec(s: Seq<Action>) -> Seq<Action>
    decreases s.len(),
{
    if s.len() == 0 {
        Seq::empty()
    } else {
        insert_sorted(sort_by_at_spec(s.drop_last()), s.last())
    }
}

proof fn lemma_insert_sorted_props(s: Seq<Action>, a: Action)
    ensures
        insert_sorted(s, a).len() == s.len() + 1,
        insert_sorted(s, a).to_multiset() == s.to_multiset().insert(a),
        sorted_by_at(s) ==> sorted_by_at(insert_sorted(s, a)),
        forall|k: int|
            0 <= k < s.len() + 1 ==> (#[trigger] insert_sorted(s, a)[k] == a
                || exists|j: int| 0 <= j < s.len() && insert_sorted(s, a)[k] == s[j]),
    decreases s.len(),
{
    broadcast use vstd::seq_lib::group_to_multiset_ensures;

    if s.len() == 0 {
        assert(seq![a].drop_last() =~= Seq::<Action>::empty());
        assert(seq![a] =~= Seq::<Action>::empty().push(a));
    } else if s.last().at > a.at {
        lemma_insert_sorted_props(s.drop_last(), a);
        let r = insert_sorted(s.drop_last(), a).push(s.last());
        assert(s.drop_last().push(s.last()) =~= s);
        if sorted_by_at(s) {
            assert(sorted_by_at(s.drop_last()));
            let r0 = insert_sorted(s.drop_last(), a);
            assert forall|i: int, j: int| 0 <= i < j < r.len() implies #[trigger] r[i].at
                <= #[trigger] r[j].at by {
                if j < r.len() - 1 {
                    assert(r[i] == r0[i] && r[j] == r0[j]);
                } else {
                    // r[j] == s.last(); r[i] is a or some element of s.drop_last()
                    if r0[i] == a {
                    } else {
                        let w = choose|w: int|
                            0 <= w < s.drop_last().len() && r0[i] == s.drop_last()[w];
                        assert(s[w].at <= s.last().at);
                    }
                }
            }
        }
    } else {
        broadcast use vstd::seq_lib::group_to_multiset_ensures;

    }
}

proof fn lemma_sort_by_at_spec_props(s: Seq<Action>)
    ensures
        sort_by_at_spec(s).len() == s.len(),
        sort_by_at_spec(s).to_multiset() == s.to_multiset(),
        sorted_by_at(sort_by_at_spec(s)),
        all_pos_valid(s) ==> all_pos_valid(sort_by_at_spec(s)),
    decreases s.len(),
{
    broadcast use vstd::seq_lib::group_to_multiset_ensures;

    if s.len() > 0 {
        let h = s.drop_last();
        lemma_sort_by_at_spec_props(h);
        lemma_insert_sorted_props(sort_by_at_spec(h), s.last());
        assert(h.push(s.last()) =~= s);
        if all_pos_valid(s) {
            assert(all_pos_valid(h)) by {
                assert(forall|i: int| 0 <= i < h.len() ==> #[trigger] h[i] == s[i]);
            }
            let r0 = sort_by_at_spec(h);
            let r = insert_sorted(r0, s.last());
            assert forall|k: int| 0 <= k < r.len() implies pos_valid(#[trigger] r[k]) by {
                if r[k] != s.last() {
                    let j = choose|j: int| 0 <= j < r0.len() && r[k] == r0[j];
                    assert(pos_valid(r0[j]));
                }
            }
        }
    }
}

/// Inserts `a` into a timestamp-sorted vector, keeping the order.
fn insert_action_sorted(out: &mut Vec<Action>, a: Action)
    ensures
        final(out)@ == insert_sorted(old(out)@, a),
{
    let ghost s = out@;
    let mut idx: usize = out.len();
    proof {
        assert(s.take(s.len() as int) =~= s);
        assert(insert_sorted(s, a) + s.skip(s.len() as int) =~= insert_sorted(s, a));
    }
    while idx > 0 && out[idx - 1].at > a.at
        invariant
            out@ == s,
            idx <= s.len(),
            insert_sorted(s, a) == insert_sorted(s.take(idx as int), a) + s.skip(idx as int),
        decreases idx,
    {
        proof {
            let i = idx as int;
            assert(s.take(i).last() == s[i - 1]);
            assert(s.take(i).drop_last() =~= s.take(i - 1));
            assert(insert_sorted(s.take(i), a) == insert_sorted(s.take(i - 1), a).push(s[i - 1]));
            assert(insert_sorted(s.take(i - 1), a).push(s[i - 1]) + s.skip(i) =~= insert_sorted(
                s.take(i - 1),
                a,
            ) + s.skip(i - 1));
        }
        idx -= 1;
    }
    proof {
        let i = idx as int;
        if idx > 0 {
            assert(s.take(i).last() == s[i - 1]);
            assert(insert_sorted(s.take(i), a) == s.take(i).push(a));
        } else {
            assert(s.take(0) =~= Seq::<Action>::empty());
        }
        assert(insert_sorted(s, a) =~= s.take(i).push(a) + s.skip(i));
    }
    out.insert(idx, a);
    proof {
        assert(out@ =~= insert_sorted(s, a));
    }
}

/// Stably sorts the waypoints by timestamp, in place. The result is a
/// permutation of the input.
pub fn sort_actions_by_at(actions: &mut Vec<Action>)
    ensures
        final(actions)@ == sort_by_at_spec(old(actions)@),
        sorted_by_at(final(actions)@),
        final(actions)@.to_multiset() == old(actions)@.to_multiset(),
        final(actions)@.len() == old(actions)@.len(),
        all_pos_valid(old(actions)@) ==> all_pos_valid(final(actions)@),
{
    let ghost input = actions@;
    let mut out: Vec<Action> = Vec::new();
    let n = actions.len();
    let mut i: usize = 0;
    while i < n
        invariant
            n == actions.len(),
            actions@ == input,
            i <= n,
            out@ == sort_by_at_spec(input.take(i as int)),
        decreases n - i,
    {
        insert_action_sorted(&mut out, actions[i]);
        proof {
            assert(input.take(i as int + 1).drop_last() =~= input.take(i as int));
        }
        i += 1;
    }
    proof {
        assert(input.take(n as int) =~= input);
        lemma_sort_by_at_spec_props(input);
    }
    *actions = out;
}

/// Whether waypoint `a` joins the run ending at `prev`: same position and
/// at most `gap` milliseconds later.
pub open spec fn can_merge(prev: Action, a: Action, gap: u64) -> bool {
    a.pos == prev.pos && prev.at <= a.at && a.at - prev.at <= gap
}

/// Every waypoint of the group shares the first one's position.
pub open spec fn same_pos(g: Seq<Action>) -> bool {
    forall|i: int| 0 <= i < g.len() ==> #[trigger] g[i].pos == g[0].pos
}

/// Sum of the group's timestamps.
pub open spec fn sum_at(g: Seq<Action>) -> int
    decreases g.len(),
{
    if g.len() == 0 {
        0
    } else {
        sum_at(g.drop_last()) + g.last().at
    }
}

/// A run of same-position waypoints collapsed to one waypoint at the
/// truncated arithmetic mean of the run's timestamps.
pub open spec fn collapse_group(g: Seq<Action>) -> Action
    recommends
        g.len() > 0,
{
    Action { at: (sum_at(g) / g.len() as int) as u64, pos: g[0].pos }
}

/// The condensation of `g + s` where `g` is the currently open run:
/// each maximal run of mergeable waypoints becomes one collapsed waypoint.
pub open spec fn condense_rec(s: Seq<Action>, gap: u64, g: Seq<Action>) -> Seq<Action>
    recommends
        g.len() > 0,
    decreases s.len(),
{
    if s.len() == 0 {
        seq![collapse_group(g)]
    } else if can_merge(g.last(), s[0], gap) {
        condense_rec(s.drop_first(), gap, g.push(s[0]))
    } else {
        seq![collapse_group(g)] + condense_rec(s.drop_first(), gap, seq![s[0]])
    }
}

/// The condensation of a sorted waypoint sequence.
pub open spec fn condense_spec(s: Seq<Action>, gap: u64) -> Seq<Action> {
    if s.len() == 0 {
        s
    } else {
        condense_rec(s.drop_first(), gap, seq![s[0]])
    }
}

proof fn lemma_sum_at_bounds(g: Seq<Action>)
    requires
        g.len() > 0,
        sorted_by_at(g),
    ensures
        g.len() * g[0].at <= sum_at(g) <= g.len() * g.last().at,
    decreases g.len(),
{
    if g.len() == 1 {
        assert(sum_at(g) == sum_at(g.drop_last()) + g.last().at);
        assert(sum_at(g.drop_last()) == 0);
    } else {
        let h = g.drop_last();
        assert(sorted_by_at(h));
        lemma_sum_at_bounds(h);
        assert(h[0] == g[0]);
        assert(h.last().at <= g.last().at);
        assert((g.len() - 1) * g[0].at + g[0].at == g.len() * g[0].at) by (nonlinear_arith);
        assert((g.len() - 1) * g.last().at + g.last().at == g.len() * g.last().at)
            by (nonlinear_arith);
        assert(h.len() * h.last().at <= h.len() * g.last().at) by (nonlinear_arith)
            requires
                h.len() >= 0,
                h.last().at <= g.last().at,
        ;
    }
}

proof fn lemma_collapse_bounds(g: Seq<Action>)
    requires
        g.len() > 0,
        sorted_by_at(g),
    ensures
        g[0].at <= collapse_group(g).at <= g.last().at,
        collapse_group(g).pos == g[0].pos,
        g.len() == 1 ==> collapse_group(g) == g[0],
{
    lemma_sum_at_bounds(g);
    let n = g.len() as int;
    let lo = g[0].at as int;
    let hi = g.last().at as int;
    let s = sum_at(g);
    assert(lo <= s / n <= hi) by (nonlinear_arith)
        requires
            n > 0,
            n * lo <= s <= n * hi,
    ;
    if g.len() == 1 {
        assert(sum_at(g) == g[0].at);
        assert(s / n == g[0].at);
    }
}

#[verifier::rlimit(60)]
proof fn lemma_condense_rec_props(s: Seq<Action>, gap: u64, g: Seq<Action>)
    requires
        g.len() > 0,
        same_pos(g),
        sorted_by_at(g + s),
    ensures
        condense_rec(s, gap, g).len() >= 1,
        sorted_by_at(condense_rec(s, gap, g)),
        all_pos_valid(g + s) ==> all_pos_valid(condense_rec(s, gap, g)),
        condense_rec(s, gap, g)[0].pos == g[0].pos,
        condense_rec(s, gap, g)[0].at >= g[0].at,
        condense_rec(s, gap, g).last().at <= (if s.len() > 0 {
            s.last().at
        } else {
            g.last().at
        }),
        condense_rec(s, gap, g).last().pos == (if s.len() > 0 {
            s.last().pos
        } else {
            g[0].pos
        }),
        (s.len() == 0 || !can_merge(g.last(), s[0], gap)) ==> condense_rec(s, gap, g)[0]
            == collapse_group(g),
        s.len() >= 1 && !can_merge(
            if s.len() >= 2 {
                s[s.len() - 2]
            } else {
                g.last()
            },
            s.last(),
            gap,
        ) ==> condense_rec(s, gap, g).last() == s.last(),
    decreases s.len(),
{
    let r = condense_rec(s, gap, g);
    assert(sorted_by_at(g)) by {
        assert(forall|i: int| 0 <= i < g.len() ==> (g + s)[i] == g[i]);
    }
    assert(forall|i: int| 0 <= i < s.len() ==> (g + s)[g.len() + i] == #[trigger] s[i]);
    if s.len() == 0 {
        lemma_collapse_bounds(g);
    } else if can_merge(g.last(), s[0], gap) {
        let g2 = g.push(s[0]);
        assert(g2 + s.drop_first() =~= g + s);
        assert(same_pos(g2)) by {
            assert(s[0].pos == g.last().pos);
            assert(g.last().pos == g[0].pos);
            assert(forall|i: int| 0 <= i < g.len() ==> g2[i] == g[i]);
        }
        lemma_condense_rec_props(s.drop_first(), gap, g2);
        if s.len() == 1 {
            lemma_collapse_bounds(g2);
        }
    } else {
        let rest = condense_rec(s.drop_first(), gap, seq![s[0]]);
        assert(seq![s[0]] + s.drop_first() =~= s);
        assert(sorted_by_at(s)) by {
            assert(forall|i: int, j: int|
                0 <= i < j < s.len() ==> s[i].at == (g + s)[g.len() + i].at && s[j].at == (g
                    + s)[g.len() + j].at);
        }
        lemma_condense_rec_props(s.drop_first(), gap, seq![s[0]]);
        lemma_collapse_bounds(g);
        assert(r == seq![collapse_group(g)] + rest);
        assert(r[0] == collapse_group(g));
        assert(forall|i: int| 0 <= i < rest.len() ==> r[1 + i] == #[trigger] rest[i]);
        assert(collapse_group(g).at <= g.last().at);
        assert((g + s)[g.len() - 1] == g.last());
        assert((g + s)[g.len() as int] == s[0]);
        assert(g.last().at <= s[0].at);
        assert(sorted_by_at(r)) by {
            assert(forall|j: int| 1 <= j < r.len() ==> #[trigger] r[j].at >= rest[0].at >= s[0].at
                >= r[0].at);
            assert(forall|i: int, j: int|
                1 <= i < j < r.len() ==> #[trigger] r[i].at <= #[trigger] r[j].at);
        }
        if all_pos_valid(g + s) {
            assert(pos_valid(collapse_group(g))) by {
                assert((g + s)[0] == g[0]);
            }
            assert(all_pos_valid(seq![s[0]] + s.drop_first()));
            assert(all_pos_valid(r)) by {
                assert(forall|i: int| 0 <= i < rest.len() ==> r[1 + i] == #[trigger] rest[i]);
            }
        }
        if s.len() >= 2 {
            assert(s.drop_first().len() >= 1);
            assert(s.drop_first().last() == s.last());
            if s.len() >= 3 {
                assert(s.drop_first()[s.drop_first().len() - 2] == s[s.len() - 2]);
            } else {
                assert(seq![s[0]].last() == s[s.len() - 2]);
            }
        }
    }
}

/// Condensation of a sorted sequence is sorted, keeps positions valid,
/// collapses nothing away entirely, and never changes the endpoint
/// positions. A first or last waypoint that cannot merge with its
/// neighbour is kept entirely unchanged, timestamp included.
pub proof fn lemma_condense_preserves_endpoints(s: Seq<Action>, gap: u64)
    requires
        s.len() > 0,
        sorted_by_at(s),
    ensures
        condense_spec(s, gap).len() >= 1,
        sorted_by_at(condense_spec(s, gap)),
        all_pos_valid(s) ==> all_pos_valid(condense_spec(s, gap)),
        condense_spec(s, gap)[0].pos == s[0].pos,
        condense_spec(s, gap).last().pos == s.last().pos,
        condense_spec(s, gap)[0].at >= s[0].at,
        condense_spec(s, gap).last().at <= s.last().at,
        s.len() == 1 ==> condense_spec(s, gap) == seq![s[0]],
        s.len() >= 2 && !can_merge(s[0], s[1], gap) ==> condense_spec(s, gap)[0] == s[0],
        s.len() >= 2 && !can_merge(s[s.len() - 2], s.last(), gap) ==> condense_spec(s, gap).last()
            == s.last(),
{
    let g = seq![s[0]];
    let rest = s.drop_first();
    assert(g + rest =~= s);
    lemma_condense_rec_props(rest, gap, g);
    lemma_collapse_bounds(g);
    if s.len() == 1 {
        assert(condense_spec(s, gap) =~= seq![s[0]]);
    }
    if s.len() >= 2 {
        assert(rest[0] == s[1]);
        assert(rest.last() == s.last());
        if s.len() >= 3 {
            assert(rest[rest.len() - 2] == s[s.len() - 2]);
        } else {
            assert(g.last() == s[s.len() - 2]);
        }
        if all_pos_valid(s) {
            assert(all_pos_valid(g + rest));
        }
    }
}

/// Collapses a nonempty run of waypoints to one waypoint at the mean
/// timestamp.
fn collapse_group_exec(group: &Vec<Action>) -> (r: Action)
    requires
        group@.len() > 0,
    ensures
        r == collapse_group(group@),
{
    let ghost gs = group@;
    let mut sum: u128 = 0;
    let mut k: usize = 0;
    while k < group.len()
        invariant
            k <= gs.len(),
            gs.len() == group@.len(),
            group@ == gs,
            sum == sum_at(gs.take(k as int)),
            sum <= k * 0xFFFF_FFFF_FFFF_FFFFu128,
        decreases group.len() - k,
    {
        proof {
            assert(gs.take(k as int + 1).drop_last() =~= gs.take(k as int));
            assert(gs.take(k as int + 1).last() == gs[k as int]);
        }
        sum = sum + group[k] .at as u128;
        k += 1;
    }
    proof {
        assert(gs.take(gs.len() as int) =~= gs);
        let n = gs.len() as int;
        assert(0 <= sum_at(gs) / n <= 0xFFFF_FFFF_FFFF_FFFFu128) by (nonlinear_arith)
            requires
                n > 0,
                0 <= sum_at(gs) <= n * 0xFFFF_FFFF_FFFF_FFFFu128,
        ;
    }
    let avg = (sum / group.len() as u128) as u64;
    Action { at: avg, pos: group[0].pos }
}

/// Optimizes a sorted waypoint sequence by collapsing each run of
/// consecutive same-position waypoints, spaced by at most `max_gap_ms`,
/// into one waypoint at the run's mean timestamp.
pub fn condense_identical_positions(actions: &mut Vec<Action>, max_gap_ms: u64)
    requires
        sorted_by_at(old(actions)@),
    ensures
        final(actions)@ == condense_spec(old(actions)@, max_gap_ms),
{
    if actions.len() == 0 {
        return ;
    }
    let ghost s = actions@;
    let n = actions.len();
    let mut condensed: Vec<Action> = Vec::new();
    let mut group: Vec<Action> = Vec::new();
    group.push(actions[0]);
    let mut i: usize = 1;
    let ghost mut gs0: int = 0;
    proof {
        assert(group@ =~= s.subrange(0, 1));
        assert(s.skip(1) =~= s.drop_first());
    }
    while i < n
        invariant
            1 <= i <= n,
            n == actions.len(),
            actions@ == s,
            sorted_by_at(s),
            group@.len() > 0,
            0 <= gs0 < i,
            group@ == s.subrange(gs0, i as int),
            condense_spec(s, max_gap_ms) == condensed@ + condense_rec(
                s.skip(i as int),
                max_gap_ms,
                group@,
            ),
        decreases n - i,
    {
        let a = actions[i];
        proof {
            assert(group@.last() == s[i as int - 1]);
            assert(s.skip(i as int)[0] == s[i as int]);
            assert(s.skip(i as int).drop_first() =~= s.skip(i as int + 1));
        }
        let last = group[group.len() - 1];
        if a.pos == last.pos && a.at - last.at <= max_gap_ms {
            group.push(a);
            proof {
                assert(group@ =~= s.subrange(gs0, i as int + 1));
            }
        } else {
            proof {
                assert(!can_merge(s[i as int - 1], s[i as int], max_gap_ms));
            }
            let ghost old_g = group@;
            let ghost old_c = condensed@;
            let c = collapse_group_exec(&group);
            condensed.push(c);
            group.clear();
            group.push(a);
            proof {
                gs0 = i as int;
                assert(group@ =~= s.subrange(gs0, i as int + 1));
                let rest = condense_rec(s.skip(i as int + 1), max_gap_ms, group@);
                assert(old_c + (seq![collapse_group(old_g)] + rest) =~= condensed@ + rest);
            }
        }
        i += 1;
    }
    let c = collapse_group_exec(&group);
    condensed.push(c);
    proof {
        assert(s.skip(n as int) =~= Seq::<Action>::empty());
        assert(condense_rec(s.skip(n as int), max_gap_ms, group@) == seq![collapse_group(group@)]);
    }
    *actions = condensed;
}

/// Scaling constant of the intensity signal: a full-range position speed of
/// one percent per millisecond maps to an intensity of `125.0` units, so
/// four full back-and-forth motions within one second yield intensity 100.
pub const SCALING_FACTOR: u64 = 125;

/// Index of the last waypoint at or before `t`; 0 when there is none.
pub open spec fn rindex_at_most(c: Seq<Action>, t: u64) -> int
    decreases c.len(),
{
    if c.len() == 0 {
        0
    } else if c.last().at <= t {
        c.len() - 1
    } else {
        rindex_at_most(c.drop_last(), t)
    }
}

/// Index of the first waypoint at or after `t`; the last index when there
/// is none.
pub open spec fn index_at_least(c: Seq<Action>, t: u64) -> int
    decreases c.len(),
{
    if c.len() == 0 {
        0
    } else if c[0].at >= t {
        0
    } else if c.len() == 1 {
        0
    } else {
        1 + index_at_least(c.drop_first(), t)
    }
}

/// Index of the last waypoint strictly before `t`; `-1` when there is none.
pub open spec fn rindex_below(c: Seq<Action>, t: u64) -> int
    decreases c.len(),
{
    if c.len() == 0 {
        -1
    } else if c.last().at < t {
        c.len() - 1
    } else {
        rindex_below(c.drop_last(), t)
    }
}

/// The waypoints strictly inside the window `(ws, we)`, in order.
pub open spec fn interior(c: Seq<Action>, ws: u64, we: u64) -> Seq<Action>
    decreases c.len(),
{
    if c.len() == 0 {
        c
    } else {
        let rest = interior(c.drop_last(), ws, we);
        if ws < c.last().at && c.last().at < we {
            rest.push(c.last())
        } else {
            rest
        }
    }
}

proof fn lemma_rindex_below_range(s: Seq<Action>, t: u64)
    ensures
        -1 <= rindex_below(s, t) < s.len(),
    decreases s.len(),
{
    if s.len() > 0 {
        lemma_rindex_below_range(s.drop_last(), t);
    }
}

proof fn lemma_interior_props(c: Seq<Action>, ws: u64, we: u64)
    ensures
        interior(c, ws, we).len() <= c.len(),
        forall|i: int|
            0 <= i < interior(c, ws, we).len() ==> ws < #[trigger] interior(c, ws, we)[i].at < we,
        all_pos_valid(c) ==> all_pos_valid(interior(c, ws, we)),
        sorted_by_at(c) ==> sorted_by_at(interior(c, ws, we)),
        sorted_by_at(c) && c.len() > 0 ==> forall|i: int|
            0 <= i < interior(c, ws, we).len() ==> #[trigger] interior(c, ws, we)[i].at
                <= c.last().at,
    decreases c.len(),
{
    if c.len() > 0 {
        let h = c.drop_last();
        lemma_interior_props(h, ws, we);
        if sorted_by_at(c) {
            assert(sorted_by_at(h));
            assert(forall|i: int| 0 <= i < h.len() ==> #[trigger] h[i].at <= c.last().at);
        }
        if all_pos_valid(c) {
            assert(all_pos_valid(h)) by {
                assert(forall|i: int| 0 <= i < h.len() ==> #[trigger] h[i] == c[i]);
            }
        }
    }
}

/// The effective point list of the window `(ws, we)`: the interpolated
/// position at the window start, the waypoints strictly inside the window,
/// and the interpolated position at the window end.
pub open spec fn window_pts(c: Seq<Action>, ws: u64, we: u64) -> Seq<Action>
    recommends
        c.len() > 0,
{
    let si = rindex_at_most(c, ws);
    let ei = index_at_least(c, we);
    let snext = if si + 1 < c.len() {
        Some(c[si + 1])
    } else {
        None
    };
    let first = Action { at: ws, pos: interp_spec(Some(c[si]), snext, ws) as u64 };
    let j = rindex_below(c.take(ei), we);
    let pe = if j >= 0 {
        c[j]
    } else {
        c[si]
    };
    let last = Action { at: we, pos: interp_spec(Some(pe), Some(c[ei]), we) as u64 };
    seq![first] + interior(c, ws, we) + seq![last]
}

/// Sum of the absolute position differences between consecutive effective
/// points, counting only pairs whose timestamps strictly increase.
pub open spec fn delta_sum(p: Seq<Action>) -> int
    decreases p.len(),
{
    if p.len() <= 1 {
        0
    } else {
        delta_sum(p.drop_last()) + if p.last().at > p[p.len() - 2].at {
            vstd::math::abs(p.last().pos - p[p.len() - 2].pos) as int
        } else {
            0
        }
    }
}

/// The raw intensity of the window `(ws, we)`: the total absolute motion of
/// the effective point list over the window duration, scaled.
pub open spec fn window_intensity_spec(c: Seq<Action>, ws: u64, we: u64) -> int
    recommends
        c.len() > 0,
        ws < we,
{
    delta_sum(window_pts(c, ws, we)) * SCALING_FACTOR / (we - ws)
}

proof fn lemma_delta_sum_bound(p: Seq<Action>)
    requires
        sorted_by_at(p),
        all_pos_valid(p),
    ensures
        0 <= delta_sum(p),
        p.len() > 0 ==> delta_sum(p) <= POS_MAX * (p.last().at - p[0].at),
    decreases p.len(),
{
    if p.len() > 1 {
        let h = p.drop_last();
        assert(sorted_by_at(h));
        assert(all_pos_valid(h)) by {
            assert(forall|i: int| 0 <= i < h.len() ==> #[trigger] h[i] == p[i]);
        }
        lemma_delta_sum_bound(h);
        assert(h.last() == p[p.len() - 2]);
        if p.last().at > p[p.len() - 2].at {
            assert(vstd::math::abs(p.last().pos - p[p.len() - 2].pos) <= POS_MAX);
            assert(POS_MAX * (p[p.len() - 2].at - p[0].at) + POS_MAX * 1 <= POS_MAX * (
            p.last().at - p[0].at)) by (nonlinear_arith)
                requires
                    p[p.len() - 2].at + 1 <= p.last().at,
            ;
        }
    }
}


/// Finds the index of the last waypoint at or before `t` (0 when every
/// waypoint lies after `t`).
fn find_rindex_at_most(actions: &Vec<Action>, t: u64) -> (r: usize)
    requires
        actions@.len() > 0,
    ensures
        r == rindex_at_most(actions@, t),
        r < actions@.len(),
{
    let ghost c = actions@;
    let n = actions.len();
    let mut j: usize = n;
    proof {
        assert(c.take(n as int) =~= c);
    }
    while j > 0 && actions[j - 1].at > t
        invariant
            j <= n,
            n == actions@.len(),
            actions@ == c,
            rindex_at_most(c, t) == rindex_at_most(c.take(j as int), t),
        decreases j,
    {
        proof {
            assert(c.take(j as int).last() == c[j as int - 1]);
            assert(c.take(j as int).drop_last() =~= c.take(j as int - 1));
        }
        j -= 1;
    }
    proof {
        if j > 0 {
            assert(c.take(j as int).last() == c[j as int - 1]);
        } else {
            assert(c.take(0) =~= Seq::<Action>::empty());
        }
    }
    if j == 0 {
        0
    } else {
        j - 1
    }
}

/// Finds the index of the first waypoint at or after `t` (the last index
/// when every waypoint lies before `t`).
fn find_index_at_least(actions: &Vec<Action>, t: u64) -> (r: usize)
    requires
        actions@.len() > 0,
    ensures
        r == index_at_least(actions@, t),
        r < actions@.len(),
{
    let ghost c = actions@;
    let n = actions.len();
    let mut k: usize = 0;
    proof {
        assert(c.skip(0) =~= c);
    }
    while k < n - 1 && actions[k].at < t
        invariant
            k <= n - 1,
            n == actions@.len(),
            actions@ == c,
            index_at_least(c, t) == k + index_at_least(c.skip(k as int), t),
        decreases n - k,
    {
        proof {
            let s = c.skip(k as int);
            assert(s[0] == c[k as int]);
            assert(s.drop_first() =~= c.skip(k as int + 1));
        }
        k += 1;
    }
    proof {
        let s = c.skip(k as int);
        assert(s[0] == c[k as int]);
        assert(s.len() == n - k);
        assert(index_at_least(s, t) == 0);
    }
    k
}

/// Finds the waypoint the end boundary interpolates from: the last
/// waypoint strictly before `t` among the first `end_idx` ones, or the
/// start waypoint when there is none.
fn find_prev_for_end(actions: &Vec<Action>, end_idx: usize, start_idx: usize, t: u64) -> (r:
    Action)
    requires
        start_idx < actions@.len(),
        end_idx < actions@.len(),
    ensures
        ({
            let j = rindex_below(actions@.take(end_idx as int), t);
            r == if j >= 0 {
                actions@[j]
            } else {
                actions@[start_idx as int]
            }
        }),
{
    let ghost c = actions@;
    let mut p: usize = end_idx;
    while p > 0 && actions[p - 1].at >= t
        invariant
            p <= end_idx < c.len(),
            actions@ == c,
            rindex_below(c.take(end_idx as int), t) == rindex_below(c.take(p as int), t),
        decreases p,
    {
        proof {
            assert(c.take(p as int).last() == c[p as int - 1]);
            assert(c.take(p as int).drop_last() =~= c.take(p as int - 1));
        }
        p -= 1;
    }
    proof {
        if p > 0 {
            assert(c.take(p as int).last() == c[p as int - 1]);
        } else {
            assert(c.take(0) =~= Seq::<Action>::empty());
        }
    }
    if p == 0 {
        actions[start_idx]
    } else {
        actions[p - 1]
    }
}

/// Builds the effective point list of the window `(ws, we)`.
fn build_window_pts(actions: &Vec<Action>, ws: u64, we: u64) -> (pts: Vec<Action>)
    requires
        actions@.len() > 0,
        sorted_by_at(actions@),
        all_pos_valid(actions@),
        ws < we,
    ensures
        pts@ == window_pts(actions@, ws, we),
        all_pos_valid(pts@),
        sorted_by_at(pts@),
        pts@.len() >= 2,
        pts@[0].at == ws,
        pts@.last().at == we,
{
    let ghost c = actions@;
    let n = actions.len();
    let start_idx = find_rindex_at_most(actions, ws);
    let end_idx = find_index_at_least(actions, we);

    let mut pts: Vec<Action> = Vec::new();
    let start_next = if start_idx + 1 < n {
        Some(&actions[start_idx + 1])
    } else {
        None
    };
    let first_pos = interpolate_position(Some(&actions[start_idx]), start_next, ws);
    let first = Action { at: ws, pos: first_pos };
    pts.push(first);
    proof {
        assert(interior(c.take(0), ws, we) =~= Seq::<Action>::empty());
        assert(pts@ =~= seq![first] + interior(c.take(0), ws, we));
    }
    let mut m: usize = 0;
    while m < n
        invariant
            m <= n,
            n == actions@.len(),
            actions@ == c,
            pts@ == seq![first] + interior(c.take(m as int), ws, we),
        decreases n - m,
    {
        proof {
            assert(c.take(m as int + 1).drop_last() =~= c.take(m as int));
            assert(c.take(m as int + 1).last() == c[m as int]);
        }
        let a = actions[m];
        if a.at > ws && a.at < we {
            pts.push(a);
            proof {
                assert(pts@ =~= seq![first] + interior(c.take(m as int + 1), ws, we));
            }
        }
        m += 1;
    }
    let prev_for_end = find_prev_for_end(actions, end_idx, start_idx, we);
    let last_pos = interpolate_position(Some(&prev_for_end), Some(&actions[end_idx]), we);
    let last = Action { at: we, pos: last_pos };
    pts.push(last);
    proof {
        assert(c.take(n as int) =~= c);
        assert(pts@ =~= window_pts(c, ws, we));
        lemma_interior_props(c, ws, we);
        let mid = interior(c, ws, we);
        assert(forall|i: int| 1 <= i < pts@.len() - 1 ==> pts@[i] == #[trigger] mid[i - 1]);
        assert(pts@[0] == first && pts@.last() == last);
        assert(all_pos_valid(pts@)) by {
            assert(pos_valid(c[start_idx as int]) && pos_valid(c[end_idx as int]));
            assert(start_idx + 1 < n ==> pos_valid(c[start_idx as int + 1]));
            assert(pos_valid(first) && pos_valid(last)) by {
                let j = rindex_below(c.take(end_idx as int), we);
                lemma_rindex_below_range(c.take(end_idx as int), we);
                if j >= 0 {
                    assert(pos_valid(c[j]));
                }
            }
        }
        assert(sorted_by_at(pts@)) by {
            assert(forall|i: int| 0 <= i < mid.len() ==> ws < #[trigger] mid[i].at < we);
        }
    }
    pts
}

/// Sums the absolute position differences between consecutive effective
/// points whose timestamps strictly increase.
fn sum_abs_deltas(pts: &Vec<Action>) -> (r: u128)
    requires
        all_pos_valid(pts@),
    ensures
        r == delta_sum(pts@),
{
    let ghost ps = pts@;
    let mut sum: u128 = 0;
    let mut w: usize = 1;
    proof {
        if ps.len() >= 1 {
            assert(delta_sum(ps.take(1)) == 0);
        }
    }
    if pts.len() == 0 {
        return 0;
    }
    while w < pts.len()
        invariant
            1 <= w <= ps.len(),
            pts@ == ps,
            all_pos_valid(ps),
            sum == delta_sum(ps.take(w as int)),
            sum <= (w as int - 1) * 100_000,
        decreases pts.len() - w,
    {
        proof {
            assert(ps.take(w as int + 1).drop_last() =~= ps.take(w as int));
            assert(ps.take(w as int + 1).last() == ps[w as int]);
            assert(ps.take(w as int + 1)[w as int - 1] == ps[w as int - 1]);
            assert(pos_valid(ps[w as int]) && pos_valid(ps[w as int - 1]));
            assert(sum + 100_000 <= (w as int) * 100_000) by (nonlinear_arith)
                requires
                    w >= 1,
                    sum <= (w as int - 1) * 100_000,
            ;
            assert((w as int) * 100_000 < 0xFFFF_FFFF_FFFF_FFFF_FFFF_FFFF_FFFF_FFFFu128)
                by (nonlinear_arith)
                requires
                    1 <= w <= 0xFFFF_FFFF_FFFF_FFFFu64,
            ;
        }
        let prev = pts[w - 1];
        let cur = pts[w];
        if cur.at > prev.at {
            let d = if cur.pos >= prev.pos {
                cur.pos - prev.pos
            } else {
                prev.pos - cur.pos
            };
            sum = sum + d as u128;
        }
        w += 1;
    }
    proof {
        assert(ps.take(ps.len() as int) =~= ps);
    }
    sum
}

/// Calculates the raw intensity of one analysis window: interpolates the
/// positions at the window boundaries, sums the absolute position deltas
/// between consecutive effective points, and scales by the window
/// duration.
pub fn calculate_window_intensity(
    actions: &Vec<Action>,
    window_start: u64,
    window_end: u64,
    window_duration_ms: u64,
) -> (r: u64)
    requires
        actions@.len() > 0,
        sorted_by_at(actions@),
        all_pos_valid(actions@),
        window_start < window_end,
        window_duration_ms == window_end - window_start,
    ensures
        r == window_intensity_spec(actions@, window_start, window_end),
        r <= POS_MAX * SCALING_FACTOR,
{
    let pts = build_window_pts(actions, window_start, window_end);
    let sum = sum_abs_deltas(&pts);
    proof {
        lemma_delta_sum_bound(pts@);
        assert(delta_sum(pts@) <= POS_MAX * (window_end - window_start));
    }
    let raw = sum * (SCALING_FACTOR as u128) / (window_duration_ms as u128);
    proof {
        let dur = (window_end - window_start) as int;
        assert(delta_sum(pts@) * SCALING_FACTOR / dur <= POS_MAX * SCALING_FACTOR)
            by (nonlinear_arith)
            requires
                dur > 0,
                0 <= delta_sum(pts@) <= POS_MAX * dur,
        ;
    }
    raw as u64
}


/// Gap threshold of the condensation pre-pass, in milliseconds.
pub const MERGE_GAP_MS: u64 = 200;

/// Cap on how fast the emitted intensity may rise: 40 milli-units per
/// millisecond, i.e. 40 units per second.
pub const MAX_RISE_PER_MS: u64 = 40;

/// Highest intensity the signal processor can emit, in milli-units.
pub const INTENSITY_MAX: u64 = 12_500_000;

/// The raw window intensity capped so that it rises by at most
/// `MAX_RISE_PER_MS * sr` above the previously emitted value. A sample
/// rate of zero disables the cap.
pub open spec fn rate_limited(prev: int, raw: int, sr: u64) -> int {
    if sr > 0 && raw > prev + MAX_RISE_PER_MS * sr {
        prev + MAX_RISE_PER_MS * sr
    } else {
        raw
    }
}

/// Exponentially weighted moving average with weight `3/5` toward the new
/// raw value; division truncates toward the previous smoothed value.
pub open spec fn smoothed(prev_s: int, raw: int) -> int {
    if raw >= prev_s {
        prev_s + 3 * (raw - prev_s) / 5
    } else {
        prev_s - 3 * (prev_s - raw) / 5
    }
}

/// The samples emitted from time `t` on, given the condensed waypoints
/// `c`, the sample rate `sr`, the window radius `wr`, the last waypoint
/// time `max_t`, the previously emitted value `prev` and the previous
/// smoothed value `prev_s`. One sample per step: the raw window intensity
/// is rate-limited against `prev`, and the emitted value is the maximum of
/// that and the smoothed value, so smoothing never suppresses a fast rise.
/// A sample rate of zero yields exactly one sample.
pub open spec fn derive_samples(
    c: Seq<Action>,
    sr: u64,
    wr: u64,
    max_t: u64,
    t: int,
    prev: int,
    prev_s: int,
) -> Seq<Action>
    decreases max_t + sr - t,
{
    if t < 0 || t > max_t {
        Seq::empty()
    } else {
        let ws = if t >= wr {
            (t - wr) as u64
        } else {
            0
        };
        let we = if max_t <= t + wr {
            max_t
        } else {
            (t + wr) as u64
        };
        let raw0 = if ws < we {
            window_intensity_spec(c, ws, we)
        } else {
            0
        };
        let raw = rate_limited(prev, raw0, sr);
        let sm = smoothed(prev_s, raw);
        let fin = vstd::math::max(raw, sm);
        let sample = Action { at: t as u64, pos: fin as u64 };
        if sr == 0 {
            seq![sample]
        } else {
            seq![sample] + derive_samples(c, sr, wr, max_t, t + sr, fin, sm)
        }
    }
}

/// The full intensity derivation: fewer than two waypoints yield an empty
/// sequence; otherwise the input is sorted, condensed, and sampled from
/// time zero to the last condensed waypoint. Each sample time occurs once:
/// the implicit zero point of a track whose motion starts after time zero
/// is the time-zero sample itself, whose value is rate-limited up from
/// zero.
pub open spec fn derive_intensity_spec(s: Seq<Action>, sr: u64, wr: u64) -> Seq<Action> {
    if s.len() < 2 {
        Seq::empty()
    } else {
        let c = condense_spec(sort_by_at_spec(s), MERGE_GAP_MS);
        let max_t = c.last().at;
        derive_samples(c, sr, wr, max_t, 0, 0, 0)
    }
}

proof fn lemma_sample_step_bounds(prev: int, prev_s: int, raw0: int, sr: u64)
    requires
        0 <= prev_s <= prev,
        0 <= raw0,
    ensures
        ({
            let raw = rate_limited(prev, raw0, sr);
            let sm = smoothed(prev_s, raw);
            let fin = vstd::math::max(raw, sm);
            &&& 0 <= raw
            &&& 0 <= sm <= fin
            &&& sm <= vstd::math::max(prev_s, raw)
            &&& fin <= vstd::math::max(prev, raw)
            &&& raw0 <= INTENSITY_MAX ==> fin <= vstd::math::max(prev, INTENSITY_MAX as int)
            &&& sr > 0 ==> fin <= prev + MAX_RISE_PER_MS * sr
        }),
{
    let raw = rate_limited(prev, raw0, sr);
    let sm = smoothed(prev_s, raw);
    if raw >= prev_s {
        let d = raw - prev_s;
        assert(0 <= 3 * d / 5 <= d);
    } else {
        let d = prev_s - raw;
        assert(0 <= 3 * d / 5 <= d);
    }
}

/// The emitted intensity never rises by more than `MAX_RISE_PER_MS * sr`
/// from one sample to the next, and every sample is bounded by
/// `INTENSITY_MAX`.
#[verifier::rlimit(100)]
proof fn lemma_derive_samples_rate_limit(
    c: Seq<Action>,
    sr: u64,
    wr: u64,
    max_t: u64,
    t: int,
    prev: int,
    prev_s: int,
)
    requires
        c.len() > 0,
        sorted_by_at(c),
        all_pos_valid(c),
        0 <= prev_s <= prev <= INTENSITY_MAX,
    ensures
        ({
            let out = derive_samples(c, sr, wr, max_t, t, prev, prev_s);
            &&& forall|i: int| 0 <= i < out.len() ==> #[trigger] out[i].pos <= INTENSITY_MAX
            &&& sr > 0 ==> (out.len() > 0 ==> out[0].pos <= prev + MAX_RISE_PER_MS * sr)
            &&& sr > 0 ==> forall|i: int|
                0 <= i < out.len() - 1 ==> #[trigger] out[i + 1].pos <= out[i].pos
                    + MAX_RISE_PER_MS * sr
        }),
    decreases max_t + sr - t,
{
    let out = derive_samples(c, sr, wr, max_t, t, prev, prev_s);
    if t < 0 || t > max_t {
    } else {
        let ws = if t >= wr {
            (t - wr) as u64
        } else {
            0
        };
        let we = if max_t <= t + wr {
            max_t
        } else {
            (t + wr) as u64
        };
        let raw0 = if ws < we {
            window_intensity_spec(c, ws, we)
        } else {
            0
        };
        if ws < we {
            lemma_window_intensity_bounds(c, ws, we);
        }
        let raw = rate_limited(prev, raw0, sr);
        let sm = smoothed(prev_s, raw);
        let fin = vstd::math::max(raw, sm);
        lemma_sample_step_bounds(prev, prev_s, raw0, sr);
        if sr > 0 {
            let rest = derive_samples(c, sr, wr, max_t, t + sr, fin, sm);
            lemma_derive_samples_rate_limit(c, sr, wr, max_t, t + sr, fin, sm);
            assert(out[0].pos == fin as u64);
            assert(forall|i: int| 0 <= i < rest.len() ==> out[i + 1] == #[trigger] rest[i]);
        }
    }
}

proof fn lemma_window_intensity_bounds(c: Seq<Action>, ws: u64, we: u64)
    requires
        c.len() > 0,
        sorted_by_at(c),
        all_pos_valid(c),
        ws < we,
    ensures
        0 <= window_intensity_spec(c, ws, we) <= INTENSITY_MAX,
{
    let pts = window_pts(c, ws, we);
    lemma_window_pts_props(c, ws, we);
    lemma_delta_sum_bound(pts);
    let dur = (we - ws) as int;
    assert(delta_sum(pts) * SCALING_FACTOR / dur <= POS_MAX * SCALING_FACTOR) by (nonlinear_arith)
        requires
            dur > 0,
            0 <= delta_sum(pts) <= POS_MAX * dur,
    ;
    assert(delta_sum(pts) * SCALING_FACTOR / dur >= 0) by (nonlinear_arith)
        requires
            dur > 0,
            0 <= delta_sum(pts),
            SCALING_FACTOR > 0,
    ;
}

proof fn lemma_window_pts_props(c: Seq<Action>, ws: u64, we: u64)
    requires
        c.len() > 0,
        sorted_by_at(c),
        all_pos_valid(c),
        ws < we,
    ensures
        ({
            let pts = window_pts(c, ws, we);
            &&& pts.len() >= 2
            &&& sorted_by_at(pts)
            &&& all_pos_valid(pts)
            &&& pts[0].at == ws
            &&& pts.last().at == we
        }),
{
    let pts = window_pts(c, ws, we);
    let si = rindex_at_most(c, ws);
    let ei = index_at_least(c, we);
    lemma_rindex_at_most_range(c, ws);
    lemma_index_at_least_range(c, we);
    lemma_interior_props(c, ws, we);
    let mid = interior(c, ws, we);
    assert(forall|i: int| 1 <= i < pts.len() - 1 ==> pts[i] == #[trigger] mid[i - 1]);
    let snext = if si + 1 < c.len() {
        Some(c[si + 1])
    } else {
        None
    };
    let j = rindex_below(c.take(ei), we);
    lemma_rindex_below_range(c.take(ei), we);
    let pe = if j >= 0 {
        c[j]
    } else {
        c[si]
    };
    assert(0 <= interp_spec(Some(c[si]), snext, ws) <= POS_MAX) by {
        if si + 1 < c.len() && c[si].at < ws && ws < c[si + 1].at {
            lemma_interp_bounds(c[si], c[si + 1], ws);
        }
    }
    assert(0 <= interp_spec(Some(pe), Some(c[ei]), we) <= POS_MAX) by {
        if pe.at < we && we < c[ei].at {
            lemma_interp_bounds(pe, c[ei], we);
        }
    }
}

proof fn lemma_rindex_at_most_range(s: Seq<Action>, t: u64)
    ensures
        0 <= rindex_at_most(s, t),
        s.len() > 0 ==> rindex_at_most(s, t) < s.len(),
        s.len() == 0 ==> rindex_at_most(s, t) == 0,
    decreases s.len(),
{
    if s.len() > 0 {
        lemma_rindex_at_most_range(s.drop_last(), t);
    }
}

proof fn lemma_index_at_least_range(s: Seq<Action>, t: u64)
    ensures
        0 <= index_at_least(s, t),
        s.len() > 0 ==> index_at_least(s, t) < s.len(),
        s.len() == 0 ==> index_at_least(s, t) == 0,
    decreases s.len(),
{
    if s.len() > 1 && !(s[0].at >= t) {
        lemma_index_at_least_range(s.drop_first(), t);
    }
}


/// Every sample of the derived intensity sequence is bounded by
/// `INTENSITY_MAX`, and, with a positive sample rate, the value never
/// rises by more than `MAX_RISE_PER_MS * sr` from one sample to the next.
pub proof fn lemma_derive_intensity_rate_limit(s: Seq<Action>, sr: u64, wr: u64)
    requires
        all_pos_valid(s),
    ensures
        ({
            let out = derive_intensity_spec(s, sr, wr);
            &&& forall|i: int| 0 <= i < out.len() ==> #[trigger] out[i].pos <= INTENSITY_MAX
            &&& sr > 0 ==> forall|i: int|
                0 <= i < out.len() - 1 ==> #[trigger] out[i + 1].pos <= out[i].pos
                    + MAX_RISE_PER_MS * sr
        }),
{
    if s.len() >= 2 {
        lemma_sort_by_at_spec_props(s);
        let sorted = sort_by_at_spec(s);
        lemma_condense_preserves_endpoints(sorted, MERGE_GAP_MS);
        let c = condense_spec(sorted, MERGE_GAP_MS);
        lemma_derive_samples_rate_limit(c, sr, wr, c.last().at, 0, 0, 0);
    }
}

proof fn lemma_derive_samples_times(
    c: Seq<Action>,
    sr: u64,
    wr: u64,
    max_t: u64,
    t: int,
    prev: int,
    prev_s: int,
)
    requires
        sr > 0,
        0 <= t,
    ensures
        ({
            let out = derive_samples(c, sr, wr, max_t, t, prev, prev_s);
            &&& forall|i: int| 0 <= i < out.len() ==> #[trigger] out[i].at == t + i * sr
            &&& forall|i: int| 0 <= i < out.len() ==> t + #[trigger] (i * sr) <= max_t
            &&& forall|i: int| i >= 0 && t + #[trigger] (i * sr) <= max_t ==> i < out.len()
        }),
    decreases max_t + sr - t,
{
    let out = derive_samples(c, sr, wr, max_t, t, prev, prev_s);
    if t > max_t {
        assert forall|i: int| i >= 0 && t + #[trigger] (i * sr) <= max_t implies i < out.len() by {
            assert(i * sr >= 0) by (nonlinear_arith)
                requires
                    i >= 0,
                    sr > 0,
            ;
        }
    } else {
        let ws = if t >= wr {
            (t - wr) as u64
        } else {
            0
        };
        let we = if max_t <= t + wr {
            max_t
        } else {
            (t + wr) as u64
        };
        let raw0 = if ws < we {
            window_intensity_spec(c, ws, we)
        } else {
            0
        };
        let raw = rate_limited(prev, raw0, sr);
        let sm = smoothed(prev_s, raw);
        let fin = vstd::math::max(raw, sm);
        let rest = derive_samples(c, sr, wr, max_t, t + sr, fin, sm);
        lemma_derive_samples_times(c, sr, wr, max_t, t + sr, fin, sm);
        assert(out[0].at == t as u64);
        assert(forall|i: int| 0 <= i < rest.len() ==> out[i + 1] == #[trigger] rest[i]);
        assert forall|i: int| 0 <= i < out.len() implies #[trigger] out[i].at == t + i * sr by {
            if i == 0 {
                assert(0 * sr == 0) by (nonlinear_arith);
            } else {
                assert(out[i] == rest[i - 1]);
                assert(rest[i - 1].at == t + sr + (i - 1) * sr);
                assert(t + sr + (i - 1) * sr == t + i * sr) by (nonlinear_arith);
            }
        }
        assert forall|i: int| 0 <= i < out.len() implies t + #[trigger] (i * sr) <= max_t by {
            if i == 0 {
                assert(0 * sr == 0) by (nonlinear_arith);
            } else {
                assert(t + sr + (i - 1) * sr <= max_t);
                assert(t + sr + (i - 1) * sr == t + i * sr) by (nonlinear_arith);
            }
        }
        assert forall|i: int| i >= 0 && t + #[trigger] (i * sr) <= max_t implies i < out.len() by {
            if i > 0 {
                assert(t + i * sr == t + sr + (i - 1) * sr) by (nonlinear_arith);
                assert(i - 1 < rest.len());
            }
        }
    }
}

/// With a positive sample rate the derived sequence has exactly one entry
/// per sample time: the entry at index `i` sits at time `i * sr`, so the
/// timestamps are strictly increasing, and the grid of sample times up to
/// the last condensed waypoint is covered completely.
pub proof fn lemma_derive_intensity_times(s: Seq<Action>, sr: u64, wr: u64)
    requires
        sr > 0,
    ensures
        ({
            let out = derive_intensity_spec(s, sr, wr);
            &&& forall|i: int| 0 <= i < out.len() ==> #[trigger] out[i].at == i * sr
            &&& forall|i: int, j: int| 0 <= i < j < out.len() ==> out[i].at < out[j].at
            &&& s.len() >= 2 ==> forall|i: int|
                i >= 0 && #[trigger] (i * sr) <= condense_spec(
                    sort_by_at_spec(s),
                    MERGE_GAP_MS,
                ).last().at ==> i < out.len()
        }),
{
    let out = derive_intensity_spec(s, sr, wr);
    if s.len() >= 2 {
        let c = condense_spec(sort_by_at_spec(s), MERGE_GAP_MS);
        lemma_derive_samples_times(c, sr, wr, c.last().at, 0, 0, 0);
    }
    assert forall|i: int, j: int| 0 <= i < j < out.len() implies out[i].at < out[j].at by {
        assert(i * sr < j * sr) by (nonlinear_arith)
            requires
                0 <= i < j,
                sr > 0,
        ;
    }
}

fn copy_actions(v: &Vec<Action>) -> (r: Vec<Action>)
    ensures
        r@ == v@,
{
    let mut r: Vec<Action> = Vec::new();
    let mut i: usize = 0;
    while i < v.len()
        invariant
            i <= v@.len(),
            r@ == v@.take(i as int),
        decreases v@.len() - i,
    {
        r.push(v[i]);
        proof {
            assert(v@.take(i as int + 1).drop_last() =~= v@.take(i as int));
            assert(r@ =~= v@.take(i as int + 1));
        }
        i += 1;
    }
    proof {
        assert(v@.take(v@.len() as int) =~= v@);
    }
    r
}

/// Computes one intensity sample: the raw window intensity around `t`,
/// rate-limited against the previously emitted value, and the new smoothed
/// value. Returns the emitted value and the new smoothed state.
fn compute_sample(
    condensed: &Vec<Action>,
    t: u64,
    window_radius_ms: u64,
    max_time: u64,
    sample_rate_ms: u64,
    prev: u64,
    prev_s: u64,
) -> (r: (u64, u64))
    requires
        condensed@.len() > 0,
        sorted_by_at(condensed@),
        all_pos_valid(condensed@),
        t <= max_time,
        prev_s <= prev <= INTENSITY_MAX,
    ensures
        ({
            let ws = if t as int >= window_radius_ms {
                (t - window_radius_ms) as u64
            } else {
                0
            };
            let we = if max_time <= t + window_radius_ms {
                max_time
            } else {
                ((t as int) + window_radius_ms) as u64
            };
            let raw0 = if ws < we {
                window_intensity_spec(condensed@, ws, we)
            } else {
                0
            };
            let raw = rate_limited(prev as int, raw0, sample_rate_ms);
            let sm = smoothed(prev_s as int, raw);
            &&& r.0 == vstd::math::max(raw, sm)
            &&& r.1 == sm
            &&& r.1 <= r.0 <= INTENSITY_MAX
        }),
{
    let ws = if t >= window_radius_ms {
        t - window_radius_ms
    } else {
        0
    };
    let we = if window_radius_ms >= max_time - t {
        max_time
    } else {
        t + window_radius_ms
    };
    let raw0 = if ws < we {
        calculate_window_intensity(condensed, ws, we, we - ws)
    } else {
        0
    };
    let mut raw = raw0;
    if sample_rate_ms > 0 {
        let cap = (MAX_RISE_PER_MS as u128) * (sample_rate_ms as u128);
        if (raw as u128) > (prev as u128) + cap {
            raw = ((prev as u128) + cap) as u64;
        }
    }
    let sm = if raw >= prev_s {
        prev_s + 3 * (raw - prev_s) / 5
    } else {
        prev_s - 3 * (prev_s - raw) / 5
    };
    let fin = if raw >= sm {
        raw
    } else {
        sm
    };
    proof {
        lemma_sample_step_bounds(prev as int, prev_s as int, raw0 as int, sample_rate_ms);
    }
    (fin, sm)
}

/// Calculates continuous intensity samples from discrete motion waypoints.
///
/// The input is sorted in place (a side effect the caller accepts), then
/// condensed; the intensity of a moving analysis window is sampled every
/// `sample_rate_ms` milliseconds from time zero to the last condensed
/// waypoint, rate-limited and smoothed. The result is scaled so that four
/// full back-and-forth motions within one second yield intensity `100.0`
/// (`100_000` milli-units). Fewer than two waypoints yield an empty
/// sequence, and a sample rate of zero yields exactly one sample.
pub fn calculate_thrust_intensity_by_scaled_speed(
    actions: &mut Vec<Action>,
    sample_rate_ms: u64,
    window_radius_ms: u64,
) -> (out: Vec<Action>)
    requires
        all_pos_valid(old(actions)@),
    ensures
        out@ == derive_intensity_spec(old(actions)@, sample_rate_ms, window_radius_ms),
        old(actions)@.len() < 2 ==> final(actions)@ == old(actions)@ && out@.len() == 0,
        old(actions)@.len() >= 2 ==> final(actions)@ == sort_by_at_spec(old(actions)@)
            && final(actions)@.to_multiset() == old(actions)@.to_multiset(),
        forall|i: int, j: int| 0 <= i < j < out@.len() ==> out@[i].at < out@[j].at,
{
    let ghost input = actions@;
    if actions.len() < 2 {
        return Vec::new();
    }
    sort_actions_by_at(actions);
    let mut condensed = copy_actions(actions);
    condense_identical_positions(&mut condensed, MERGE_GAP_MS);
    let ghost c = condensed@;
    proof {
        lemma_condense_preserves_endpoints(sort_by_at_spec(input), MERGE_GAP_MS);
    }
    let max_time = condensed[condensed.len() - 1].at;
    let mut out: Vec<Action> = Vec::new();
    let ghost total = derive_intensity_spec(input, sample_rate_ms, window_radius_ms);
    proof {
        assert(out@ + derive_samples(
            c,
            sample_rate_ms,
            window_radius_ms,
            max_time,
            0,
            0,
            0,
        ) =~= derive_samples(c, sample_rate_ms, window_radius_ms, max_time, 0, 0, 0));
        assert(total == out@ + derive_samples(
            c,
            sample_rate_ms,
            window_radius_ms,
            max_time,
            0,
            0,
            0,
        ));
    }
    if sample_rate_ms == 0 {
        let (fin, _sm) = compute_sample(&condensed, 0, window_radius_ms, max_time, 0, 0, 0);
        let ghost before = out@;
        out.push(Action { at: 0, pos: fin });
        proof {
            assert(derive_samples(c, 0, window_radius_ms, max_time, 0, 0, 0) =~= seq![
                Action { at: 0, pos: fin },
            ]);
            assert(before + seq![Action { at: 0, pos: fin }] =~= out@);
        }
        return out;
    }

    let mut prev: u64 = 0;
    let mut prev_s: u64 = 0;
    let mut t: u64 = 0;
    let mut done = false;
    let ghost mut tt: int = 0;
    while !done
        invariant
            condensed@ == c,
            c.len() > 0,
            sorted_by_at(c),
            all_pos_valid(c),
            max_time == c.last().at,
            sample_rate_ms > 0,
            prev_s <= prev <= INTENSITY_MAX,
            !done ==> tt == t as int && 0 <= tt <= max_time,
            done ==> tt > max_time,
            total == out@ + derive_samples(
                c,
                sample_rate_ms,
                window_radius_ms,
                max_time,
                tt,
                prev as int,
                prev_s as int,
            ),
        decreases (if done {
            0int
        } else {
            max_time - tt + 1
        }),
    {
        let (fin, sm) = compute_sample(
            &condensed,
            t,
            window_radius_ms,
            max_time,
            sample_rate_ms,
            prev,
            prev_s,
        );
        let ghost before = out@;
        out.push(Action { at: t, pos: fin });
        proof {
            let rest = derive_samples(
                c,
                sample_rate_ms,
                window_radius_ms,
                max_time,
                tt + sample_rate_ms,
                fin as int,
                sm as int,
            );
            assert(derive_samples(
                c,
                sample_rate_ms,
                window_radius_ms,
                max_time,
                tt,
                prev as int,
                prev_s as int,
            ) == seq![Action { at: t, pos: fin }] + rest);
            assert(before + (seq![Action { at: t, pos: fin }] + rest) =~= out@ + rest);
            tt = tt + sample_rate_ms;
        }
        prev = fin;
        prev_s = sm;
        if max_time - t < sample_rate_ms {
            done = true;
        } else {
            t = t + sample_rate_ms;
        }
    }
    proof {
        assert(derive_samples(
            c,
            sample_rate_ms,
            window_radius_ms,
            max_time,
            tt,
            prev as int,
            prev_s as int,
        ) =~= Seq::<Action>::empty());
        assert(out@ + Seq::<Action>::empty() =~= out@);
        lemma_derive_intensity_times(input, sample_rate_ms, window_radius_ms);
    }
    out
}

/// Interpolation boundary law: at or before the earlier waypoint the
/// earlier position is returned, at or after the later waypoint the later
/// position is returned.
pub proof fn lemma_interp_boundary(a0: Action, a1: Action, t: u64)
    requires
        a0.at < a1.at,
    ensures
        t <= a0.at ==> interp_spec(Some(a0), Some(a1), t) == a0.pos,
        t >= a1.at ==> interp_spec(Some(a0), Some(a1), t) == a1.pos,
{
}

/// Why intensity derivation did not produce a result.
#[derive(Clone, Copy, PartialEq, Eq, Structural, Debug)]
pub enum IntensityError {
    /// Fewer than two motion waypoints: no motion to derive from.
    TooFewActions,
}

impl IntensityError {
    /// The exact description of the failure.
    pub fn message(&self) -> (r: String)
        ensures
            r@ == ("Cannot generate intensity: requires at least 2 actions.")@,
            r@.len() > 0,
    {
        let s = "Cannot generate intensity: requires at least 2 actions.";
        proof {
            reveal_strlit("Cannot generate intensity: requires at least 2 actions.");
        }
        <String as vstd::string::StringExecFns>::from_str(s)
    }
}

/// Sample rate of the generated intensity track, in milliseconds.
pub const GENERATE_SAMPLE_RATE_MS: u64 = 50;

/// Radius of the analysis window of the generated intensity track, in
/// milliseconds.
pub const GENERATE_WINDOW_RADIUS_MS: u64 = 500;

/// Whether every waypoint position is exactly the bottom or the top of the
/// scale. The optional stricter mode of the signal processor accepts only
/// such binary thrust encodings.
pub open spec fn all_pos_binary(s: Seq<Action>) -> bool {
    forall|i: int| 0 <= i < s.len() ==> (#[trigger] s[i].pos == 0 || s[i].pos == POS_MAX)
}

/// Checks that every waypoint position is exactly 0 or the maximum, the
/// binary thrust encoding accepted by the stricter processing mode.
pub fn actions_are_binary(actions: &Vec<Action>) -> (r: bool)
    ensures
        r == all_pos_binary(actions@),
{
    let mut i: usize = 0;
    while i < actions.len()
        invariant
            i <= actions@.len(),
            forall|j: int| 0 <= j < i ==> (#[trigger] actions@[j].pos == 0 || actions@[j].pos
                == POS_MAX),
        decreases actions@.len() - i,
    {
        let a = actions[i];
        if a.pos != 0 && a.pos != POS_MAX {
            return false;
        }
        i += 1;
    }
    true
}

/// Generates the intensity track of a funscript: the derived samples of
/// `calculate_thrust_intensity_by_scaled_speed` at the track's fixed
/// sample rate and window radius. Fails exactly when the input has fewer
/// than two waypoints.
pub fn generate_intensity_funscript(original_data: &FunscriptData) -> (r: Result<
    FunscriptData,
    IntensityError,
>)
    requires
        all_pos_valid(original_data.actions@),
    ensures
        original_data.actions@.len() < 2 <==> r is Err,
        r is Err ==> r->Err_0 == IntensityError::TooFewActions,
        r is Ok ==> r->Ok_0.actions@ == derive_intensity_spec(
            original_data.actions@,
            GENERATE_SAMPLE_RATE_MS,
            GENERATE_WINDOW_RADIUS_MS,
        ),
{
    if original_data.actions.len() < 2 {
        return Err(IntensityError::TooFewActions);
    }
    let mut actions_to_process = copy_actions(&original_data.actions);
    let intensity_actions = calculate_thrust_intensity_by_scaled_speed(
        &mut actions_to_process,
        GENERATE_SAMPLE_RATE_MS,
        GENERATE_WINDOW_RADIUS_MS,
    );
    Ok(FunscriptData { actions: intensity_actions })
}

} // verus!
