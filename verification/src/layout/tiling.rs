//! Where `place` puts panes: inside the area it was given, and never two on
//! the same cell; in an area that holds the tree, every cell in a pane or on
//! a separator. The lengths a split hands its children add up to no more
//! than it has, and to exactly that when all their minimums fit.
use vstd::prelude::*;
use vstd::set_lib::{lemma_int_range, lemma_len_subset, set_int_range};
use crate::layout::laws::{children_wf, tree_wf};
use crate::layout::{
    max_mins, min_len, sum_mins, panes_of, children_panes,
    child_area, place_children, place_tree, placement_of, PaneId,
    along_of, child_mins, child_weights, distribution, needed, separator_count, split_sizes, Axis, Rect, Tree,
    child_costs, fit_count, squeeze, count_free, divisor, fit_sizes, fixed_mins, free_len, free_weight, lemma_count_free,
    lemma_fixed_mins_bound, lemma_free_weight_bound, prefix_sum, remainder, rounding_rank, share,
    u16_ints, used, wt, Separator, separator_at, MIN,
};

verus! {

/// Whether child `j` comes before child `i` in handing out the rounding.
pub open spec fn rounds_before(len: u16, weights: Seq<u32>, mins: Seq<u16>, fixed: Seq<bool>, j: int, i: int) -> bool {
    !fixed[j] && (remainder(len, weights, mins, fixed, j) > remainder(len, weights, mins, fixed, i) || (
    remainder(len, weights, mins, fixed, j) == remainder(len, weights, mins, fixed, i) && j < i))
}

proof fn lemma_rank_order(len: u16, weights: Seq<u32>, mins: Seq<u16>, fixed: Seq<bool>, i: int, j: int, k: int)
    requires
        0 <= k <= fixed.len(),
        0 <= i < fixed.len(),
        0 <= j < fixed.len(),
        rounds_before(len, weights, mins, fixed, j, i),
    ensures
        rounding_rank(len, weights, mins, fixed, j, k) + (if j < k { 1int } else { 0 }) <= rounding_rank(
            len,
            weights,
            mins,
            fixed,
            i,
            k,
        ),
    decreases k,
{
    if k > 0 {
        lemma_rank_order(len, weights, mins, fixed, i, j, k - 1);
    }
}

proof fn lemma_rank_below_free(len: u16, weights: Seq<u32>, mins: Seq<u16>, fixed: Seq<bool>, i: int, k: int)
    requires
        0 <= k <= fixed.len(),
        0 <= i < fixed.len(),
        !fixed[i],
    ensures
        0 <= rounding_rank(len, weights, mins, fixed, i, k),
        rounding_rank(len, weights, mins, fixed, i, k) + (if i < k { 1int } else { 0 }) <= count_free(
            fixed,
            k,
        ),
    decreases k,
{
    if k > 0 {
        lemma_rank_below_free(len, weights, mins, fixed, i, k - 1);
    }
}

proof fn lemma_ranks_distinct(len: u16, weights: Seq<u32>, mins: Seq<u16>, fixed: Seq<bool>, i: int, j: int)
    requires
        0 <= i < fixed.len(),
        0 <= j < fixed.len(),
        i != j,
        !fixed[i],
        !fixed[j],
    ensures
        rounding_rank(len, weights, mins, fixed, i, fixed.len() as int) != rounding_rank(
            len,
            weights,
            mins,
            fixed,
            j,
            fixed.len() as int,
        ),
{
    let n = fixed.len() as int;
    if rounds_before(len, weights, mins, fixed, j, i) {
        lemma_rank_order(len, weights, mins, fixed, i, j, n);
    } else {
        assert(rounds_before(len, weights, mins, fixed, i, j));
        lemma_rank_order(len, weights, mins, fixed, j, i, n);
    }
}

/// How many of the first `k` free children rank below `m`.
pub open spec fn ranked_below(len: u16, weights: Seq<u32>, mins: Seq<u16>, fixed: Seq<bool>, m: int, k: int) -> int
    decreases k,
{
    if k <= 0 {
        0
    } else {
        ranked_below(len, weights, mins, fixed, m, k - 1) + if !fixed[k - 1] && rounding_rank(
            len,
            weights,
            mins,
            fixed,
            k - 1,
            fixed.len() as int,
        ) < m {
            1int
        } else {
            0
        }
    }
}

/// The ranks of the first `k` free children that rank below `m`.
pub open spec fn ranks_below(len: u16, weights: Seq<u32>, mins: Seq<u16>, fixed: Seq<bool>, m: int, k: int) -> Set<int>
    decreases k,
{
    if k <= 0 {
        Set::empty()
    } else {
        let r = rounding_rank(len, weights, mins, fixed, k - 1, fixed.len() as int);
        if !fixed[k - 1] && r < m {
            ranks_below(len, weights, mins, fixed, m, k - 1).insert(r)
        } else {
            ranks_below(len, weights, mins, fixed, m, k - 1)
        }
    }
}

proof fn lemma_ranks_below(len: u16, weights: Seq<u32>, mins: Seq<u16>, fixed: Seq<bool>, m: int, k: int)
    requires
        0 <= k <= fixed.len(),
    ensures
        ranks_below(len, weights, mins, fixed, m, k).finite(),
        ranks_below(len, weights, mins, fixed, m, k).len() == ranked_below(len, weights, mins, fixed, m, k),
        forall|r: int| #[trigger]
            ranks_below(len, weights, mins, fixed, m, k).contains(r) ==> exists|i: int|
                0 <= i < k && !fixed[i] && rounding_rank(len, weights, mins, fixed, i, fixed.len() as int) == r,
        ranks_below(len, weights, mins, fixed, m, k).subset_of(set_int_range(0, m)),
        0 <= ranked_below(len, weights, mins, fixed, m, k) <= count_free(fixed, k),
    decreases k,
{
    if k > 0 {
        let n = fixed.len() as int;
        lemma_ranks_below(len, weights, mins, fixed, m, k - 1);
        let prev = ranks_below(len, weights, mins, fixed, m, k - 1);
        let r = rounding_rank(len, weights, mins, fixed, k - 1, n);
        if !fixed[k - 1] && r < m {
            lemma_rank_below_free(len, weights, mins, fixed, k - 1, n);
            assert(!prev.contains(r)) by {
                if prev.contains(r) {
                    let i = choose|i: int|
                        0 <= i < k - 1 && !fixed[i] && rounding_rank(len, weights, mins, fixed, i, n) == r;
                    lemma_ranks_distinct(len, weights, mins, fixed, i, k - 1);
                }
            }
            assert forall|x: int| #[trigger]
                ranks_below(len, weights, mins, fixed, m, k).contains(x) implies exists|i: int|
                0 <= i < k && !fixed[i] && rounding_rank(len, weights, mins, fixed, i, n) == x by {
                if x != r {
                    assert(prev.contains(x));
                }
            }
        } else {
            assert forall|x: int| #[trigger]
                ranks_below(len, weights, mins, fixed, m, k).contains(x) implies exists|i: int|
                0 <= i < k && !fixed[i] && rounding_rank(len, weights, mins, fixed, i, n) == x by {
                assert(prev.contains(x));
            }
        }
    }
}

/// At most `m` children rank below `m`, and at most all the free ones.
proof fn lemma_ranked_below_bound(len: u16, weights: Seq<u32>, mins: Seq<u16>, fixed: Seq<bool>, m: int)
    ensures
        0 <= ranked_below(len, weights, mins, fixed, m, fixed.len() as int) <= count_free(fixed, fixed.len() as int),
        ranked_below(len, weights, mins, fixed, m, fixed.len() as int) <= (if m > 0 { m } else { 0 }),
{
    let n = fixed.len() as int;
    lemma_ranks_below(len, weights, mins, fixed, m, n);
    let s = ranks_below(len, weights, mins, fixed, m, n);
    if m > 0 {
        lemma_int_range(0, m);
        lemma_len_subset(s, set_int_range(0, m));
    } else {
        assert(s =~= Set::<int>::empty()) by {
            assert forall|x: int| !s.contains(x) by {
                if s.contains(x) {
                    assert(set_int_range(0, m).contains(x));
                }
            }
        }
    }
}


proof fn lemma_used_scaled(len: u16, weights: Seq<u32>, mins: Seq<u16>, fixed: Seq<bool>, k: int)
    requires
        weights.len() == mins.len() == fixed.len(),
        0 <= k <= fixed.len(),
        free_len(len, mins, fixed) >= 0,
    ensures
        0 <= used(len, weights, mins, fixed, k),
        used(len, weights, mins, fixed, k) * divisor(weights, fixed) <= free_len(len, mins, fixed)
            * free_weight(weights, fixed, k),
    decreases k,
{
    if k > 0 {
        lemma_used_scaled(len, weights, mins, fixed, k - 1);
        let f = free_len(len, mins, fixed);
        let d = divisor(weights, fixed);
        let i = k - 1;
        if !fixed[i] {
            let x = f * wt(weights[i]);
            assert(f * wt(weights[i]) >= 0) by (nonlinear_arith)
                requires f >= 0, wt(weights[i]) >= 1;
            vstd::arithmetic::div_mod::lemma_fundamental_div_mod(x, d);
            vstd::arithmetic::div_mod::lemma_mod_pos_bound(x, d);
            vstd::arithmetic::div_mod::lemma_div_pos_is_pos(x, d);
            let sh = share(len, weights, mins, fixed, i);
            assert(sh == x / d);
            assert(sh * d <= x) by (nonlinear_arith)
                requires x == d * (x / d) + (x % d), x % d >= 0, sh == x / d;
            let u0 = used(len, weights, mins, fixed, k - 1);
            let fw0 = free_weight(weights, fixed, k - 1);
            assert((u0 + sh) * d == u0 * d + sh * d) by (nonlinear_arith);
            assert(f * (fw0 + wt(weights[i])) == f * fw0 + x) by (nonlinear_arith)
                requires x == f * wt(weights[i]);
        }
    }
}

proof fn lemma_used_fits(len: u16, weights: Seq<u32>, mins: Seq<u16>, fixed: Seq<bool>)
    requires
        weights.len() == mins.len() == fixed.len(),
        free_len(len, mins, fixed) >= 0,
    ensures
        0 <= used(len, weights, mins, fixed, fixed.len() as int) <= free_len(len, mins, fixed),
{
    let n = fixed.len() as int;
    lemma_used_scaled(len, weights, mins, fixed, n);
    lemma_free_weight_bound(weights, fixed, n);
    let u = used(len, weights, mins, fixed, n);
    let f = free_len(len, mins, fixed);
    let d = divisor(weights, fixed);
    let fw = free_weight(weights, fixed, n);
    if fw >= 1 {
        assert(d == fw);
        assert(u <= f) by (nonlinear_arith)
            requires u * d <= f * d, d >= 1;
    } else {
        assert(d == 1);
        assert(u * 1 <= f * 0);
        assert(u <= 0) by (nonlinear_arith)
            requires u * 1 <= f * 0;
    }
}

/// A child's length before it is stored: its minimum if fixed, else its
/// share and what the rounding hands it.
pub open spec fn raw_fit(len: u16, weights: Seq<u32>, mins: Seq<u16>, fixed: Seq<bool>, i: int) -> int {
    let n = weights.len();
    let f = free_len(len, mins, fixed);
    let u = used(len, weights, mins, fixed, n as int);
    let left = if f >= u { f - u } else { 0 };
    let free = count_free(fixed, n as int);
    if fixed[i] {
        mins[i] as int
    } else {
        let rank = rounding_rank(len, weights, mins, fixed, i, n as int);
        share(len, weights, mins, fixed, i) + (if rank < left { 1int } else { 0 }) + (if rank + free
            < left {
            1int
        } else {
            0
        })
    }
}

pub open spec fn raw_sum(len: u16, weights: Seq<u32>, mins: Seq<u16>, fixed: Seq<bool>, k: int) -> int
    decreases k,
{
    if k <= 0 {
        0
    } else {
        raw_sum(len, weights, mins, fixed, k - 1) + raw_fit(len, weights, mins, fixed, k - 1)
    }
}

proof fn lemma_raw_sum(len: u16, weights: Seq<u32>, mins: Seq<u16>, fixed: Seq<bool>, k: int)
    requires
        weights.len() == mins.len() == fixed.len(),
        0 <= k <= fixed.len(),
    ensures
        ({
            let n = weights.len() as int;
            let f = free_len(len, mins, fixed);
            let u = used(len, weights, mins, fixed, n);
            let left = if f >= u { f - u } else { 0 };
            let free = count_free(fixed, n);
            raw_sum(len, weights, mins, fixed, k) == fixed_mins(mins, fixed, k) + used(len, weights, mins, fixed, k)
                + ranked_below(len, weights, mins, fixed, left, k) + ranked_below(len, weights, mins, fixed, left - free, k)
        }),
    decreases k,
{
    if k > 0 {
        lemma_raw_sum(len, weights, mins, fixed, k - 1);
    }
}

proof fn lemma_raw_nonneg(len: u16, weights: Seq<u32>, mins: Seq<u16>, fixed: Seq<bool>, k: int)
    requires
        weights.len() == mins.len() == fixed.len(),
        0 <= k <= fixed.len(),
        free_len(len, mins, fixed) >= 0,
    ensures
        forall|i: int| 0 <= i < k ==> 0 <= #[trigger] raw_fit(len, weights, mins, fixed, i) <= raw_sum(len, weights, mins, fixed, k),
        raw_sum(len, weights, mins, fixed, k) >= 0,
    decreases k,
{
    if k > 0 {
        lemma_raw_nonneg(len, weights, mins, fixed, k - 1);
        let i = k - 1;
        if !fixed[i] {
            lemma_free_weight_bound(weights, fixed, fixed.len() as int);
            let f = free_len(len, mins, fixed);
            let d = divisor(weights, fixed);
            let x = f * wt(weights[i]);
            assert(f * wt(weights[i]) >= 0) by (nonlinear_arith)
                requires f >= 0, wt(weights[i]) >= 1;
            vstd::arithmetic::div_mod::lemma_div_pos_is_pos(x, d);
        }
    }
}

/// The lengths a split shares out when every child fits add up to no more
/// than it has, and each is stored without loss.
pub proof fn lemma_fit_sizes_fit(len: u16, weights: Seq<u32>, mins: Seq<u16>, fixed: Seq<bool>)
    requires
        weights.len() == mins.len() == fixed.len(),
        prefix_sum(u16_ints(mins), mins.len() as int) <= len,
    ensures
        forall|i: int| 0 <= i < fixed.len() ==> #[trigger] fit_sizes(len, weights, mins, fixed)[i] as int == raw_fit(len, weights, mins, fixed, i),
        raw_sum(len, weights, mins, fixed, fixed.len() as int) <= len,
{
    let n = fixed.len() as int;
    lemma_fixed_mins_bound(mins, fixed, n);
    let f = free_len(len, mins, fixed);
    assert(f >= 0);
    lemma_used_fits(len, weights, mins, fixed);
    lemma_raw_sum(len, weights, mins, fixed, n);
    let u = used(len, weights, mins, fixed, n);
    let left = f - u;
    let free = count_free(fixed, n);
    lemma_ranked_below_bound(len, weights, mins, fixed, left);
    lemma_ranked_below_bound(len, weights, mins, fixed, left - free);
    lemma_raw_nonneg(len, weights, mins, fixed, n);
    assert forall|i: int| 0 <= i < n implies #[trigger] fit_sizes(len, weights, mins, fixed)[i] as int == raw_fit(
        len,
        weights,
        mins,
        fixed,
        i,
    ) by {
        assert(0 <= raw_fit(len, weights, mins, fixed, i) <= len);
    }
}


/// How far the children of a split reach along it from where they start:
/// each shown child's length, and a separator before each shown child but
/// the first.
pub open spec fn span(sizes: Seq<u16>, first: bool) -> int
    decreases sizes.len(),
{
    if sizes.len() == 0 {
        0
    } else if sizes[0] == 0 {
        span(sizes.drop_first(), first)
    } else {
        (if first { 0int } else { 1 }) + sizes[0] + span(sizes.drop_first(), false)
    }
}

proof fn lemma_fit_count_len(left: int, costs: Seq<int>)
    ensures
        0 <= fit_count(left, costs) <= costs.len(),
    decreases costs.len(),
{
    if costs.len() > 0 && costs[0] <= left {
        lemma_fit_count_len(left - costs[0], costs.drop_first());
    }
}

proof fn lemma_fit_prefix(along: int, costs: Seq<int>, j: int)
    requires
        0 <= j <= fit_count(along, costs),
        along >= 0,
    ensures
        prefix_sum(costs, j) <= along,
        fit_count(along, costs) == j + fit_count(along - prefix_sum(costs, j), costs.skip(j)),
    decreases j,
{
    lemma_fit_count_len(along, costs);
    if j == 0 {
        assert(costs.skip(0) =~= costs);
    } else {
        lemma_fit_prefix(along, costs, j - 1);
        let r = along - prefix_sum(costs, j - 1);
        let rest = costs.skip(j - 1);
        assert(rest[0] == costs[j - 1]);
        assert(rest.drop_first() =~= costs.skip(j));
        lemma_fit_count_len(r, rest);
    }
}

/// Where children that do not all fit reach: no further than the length
/// the split has.
proof fn lemma_squeeze_span(along: u16, mins: Seq<u16>, j: int, first: bool)
    requires
        0 <= j <= fit_count(along as int, child_costs(mins)),
        !first ==> j > 0 && prefix_sum(child_costs(mins), j) >= 1,
    ensures
        span(squeeze(along as int, child_costs(mins), mins).skip(j), first) <= along - prefix_sum(
            child_costs(mins),
            j,
        ),
    decreases mins.len() - j,
{
    let costs = child_costs(mins);
    let sq = squeeze(along as int, costs, mins);
    let k = fit_count(along as int, costs);
    lemma_fit_count_len(along as int, costs);
    lemma_fit_prefix(along as int, costs, j);
    let r = along - prefix_sum(costs, j);
    let rest = sq.skip(j);
    if j == mins.len() {
        assert(rest.len() == 0);
    } else if j >= k {
        assert forall|i: int| 0 <= i < rest.len() implies rest[i] == 0 by {
            assert(rest[i] == sq[j + i]);
        }
        lemma_span_zero(rest, first);
    } else {
        lemma_fit_prefix(along as int, costs, j + 1);
        assert(prefix_sum(costs, j + 1) == prefix_sum(costs, j) + costs[j]);
        assert(rest.drop_first() =~= sq.skip(j + 1));
        assert(rest[0] == sq[j]);
        assert(costs[j] >= 0);
        lemma_prefix_nonneg(costs, j);
        assert(costs[j] >= mins[j]);
        if sq[j] == 0 {
            lemma_squeeze_span(along, mins, j + 1, first);
        } else {
            if j + 1 < k {
                assert(sq[j] == mins[j]);
                assert(prefix_sum(costs, j + 1) >= 1);
                lemma_squeeze_span(along, mins, j + 1, false);
            } else {
                assert(sq[j] == mins[j] + along - prefix_sum(costs, k));
                assert forall|i: int| 0 <= i < rest.drop_first().len() implies rest.drop_first()[i] == 0 by {
                    assert(rest.drop_first()[i] == sq[j + 1 + i]);
                }
                lemma_span_zero(rest.drop_first(), false);
            }
            if !first {
                assert(mins[j] + 1 <= costs[j]) by {
                    if mins[j] + 1 > 0xffff {
                        assert(prefix_sum(costs, j + 1) >= 1 + 0xffff);
                    }
                }
            }
        }
    }
}

proof fn lemma_prefix_nonneg(costs: Seq<int>, j: int)
    requires
        0 <= j <= costs.len(),
        forall|i: int| 0 <= i < costs.len() ==> #[trigger] costs[i] >= 0,
    ensures
        prefix_sum(costs, j) >= 0,
    decreases j,
{
    if j > 0 {
        lemma_prefix_nonneg(costs, j - 1);
    }
}

proof fn lemma_span_zero(sizes: Seq<u16>, first: bool)
    requires
        forall|i: int| 0 <= i < sizes.len() ==> sizes[i] == 0,
    ensures
        span(sizes, first) == 0,
    decreases sizes.len(),
{
    if sizes.len() > 0 {
        assert forall|i: int| 0 <= i < sizes.drop_first().len() implies sizes.drop_first()[i] == 0 by {
            assert(sizes.drop_first()[i] == sizes[i + 1]);
        }
        lemma_span_zero(sizes.drop_first(), first);
    }
}


/// The sum of the lengths.
pub open spec fn total(s: Seq<u16>) -> int
    decreases s.len(),
{
    if s.len() == 0 {
        0
    } else {
        s[0] + total(s.drop_first())
    }
}

proof fn lemma_span_total(s: Seq<u16>, first: bool)
    ensures
        span(s, first) + (if first && s.len() > 0 { 1int } else { 0 }) <= total(s) + s.len(),
        span(s, first) >= 0,
    decreases s.len(),
{
    if s.len() > 0 {
        lemma_span_total(s.drop_first(), first);
        lemma_span_total(s.drop_first(), false);
    }
}

proof fn lemma_total_prefix(s: Seq<u16>, k: int)
    requires
        1 <= k <= s.len(),
    ensures
        prefix_sum(u16_ints(s), k) == s[0] + prefix_sum(u16_ints(s.drop_first()), k - 1),
    decreases k,
{
    if k > 1 {
        lemma_total_prefix(s, k - 1);
        assert(u16_ints(s)[k - 1] == u16_ints(s.drop_first())[k - 2]);
        assert(prefix_sum(u16_ints(s.drop_first()), k - 1) == prefix_sum(u16_ints(s.drop_first()), k - 2)
            + u16_ints(s.drop_first())[k - 2]);
    } else {
        assert(prefix_sum(u16_ints(s), 1) == prefix_sum(u16_ints(s), 0) + u16_ints(s)[0]);
        assert(prefix_sum(u16_ints(s.drop_first()), 0) == 0);
    }
}

proof fn lemma_total_is_prefix_sum(s: Seq<u16>)
    ensures
        total(s) == prefix_sum(u16_ints(s), s.len() as int),
    decreases s.len(),
{
    if s.len() > 0 {
        lemma_total_is_prefix_sum(s.drop_first());
        lemma_total_prefix(s, s.len() as int);
    }
}

/// When the minimums do not all fit, they are handed out in order and the
/// last child shown takes what is left: no more than the length in all.
proof fn lemma_squeeze_total(len: u16, mins: Seq<u16>, j: int)
    requires
        0 <= j <= mins.len(),
    ensures
        prefix_sum(u16_ints(squeeze(len as int, u16_ints(mins), mins)), j) <= len,
        prefix_sum(u16_ints(squeeze(len as int, u16_ints(mins), mins)), j) >= 0,
    decreases j,
{
    let costs = u16_ints(mins);
    let sq = squeeze(len as int, costs, mins);
    let k = fit_count(len as int, costs);
    lemma_fit_count_len(len as int, costs);
    if j > 0 {
        lemma_squeeze_total(len, mins, j - 1);
        let i = j - 1;
        if i < k - 1 {
            lemma_fit_prefix(len as int, costs, i + 1);
            lemma_squeeze_total_prefix(len, mins, j);
        } else if i == k - 1 {
            lemma_fit_prefix(len as int, costs, k);
            lemma_squeeze_total_prefix(len, mins, k - 1);
            assert(prefix_sum(costs, k) == prefix_sum(costs, k - 1) + mins[k - 1]);
            lemma_prefix_nonneg(costs, k - 1);
            assert(sq[i] as int == mins[i] + len - prefix_sum(costs, k));
        } else {
            assert(sq[i] == 0);
        }
    }
}

proof fn lemma_squeeze_total_prefix(len: u16, mins: Seq<u16>, j: int)
    requires
        0 <= j <= mins.len(),
        j <= fit_count(len as int, u16_ints(mins)) - 1,
    ensures
        prefix_sum(u16_ints(squeeze(len as int, u16_ints(mins), mins)), j) == prefix_sum(u16_ints(mins), j),
    decreases j,
{
    if j > 0 {
        lemma_squeeze_total_prefix(len, mins, j - 1);
    }
}

proof fn lemma_settle_len(len: u16, weights: Seq<u32>, mins: Seq<u16>, fixed: Seq<bool>, fuel: nat)
    ensures
        crate::layout::settle(len, weights, mins, fixed, fuel).len() == fixed.len(),
    decreases fuel,
{
    if fuel > 0 {
        let next = crate::layout::fix_round(len, weights, mins, fixed);
        if next != fixed {
            lemma_settle_len(len, weights, mins, next, (fuel - 1) as nat);
        }
    }
}

proof fn lemma_raw_prefix(len: u16, weights: Seq<u32>, mins: Seq<u16>, fixed: Seq<bool>, k: int)
    requires
        weights.len() == mins.len() == fixed.len(),
        0 <= k <= fixed.len(),
        forall|i: int| 0 <= i < fixed.len() ==> #[trigger] fit_sizes(len, weights, mins, fixed)[i] as int == raw_fit(len, weights, mins, fixed, i),
    ensures
        prefix_sum(u16_ints(fit_sizes(len, weights, mins, fixed)), k) == raw_sum(len, weights, mins, fixed, k),
    decreases k,
{
    if k > 0 {
        lemma_raw_prefix(len, weights, mins, fixed, k - 1);
        assert(fit_sizes(len, weights, mins, fixed)[k - 1] as int == raw_fit(len, weights, mins, fixed, k - 1));
    }
}

/// The children of a split reach no further than the split's own length.
pub proof fn lemma_split_span(cs: Seq<(u32, Tree)>, axis: Axis, area: Rect)
    requires
        cs.len() <= 0x10000,
    ensures
        split_sizes(cs, axis, area).len() == cs.len(),
        span(split_sizes(cs, axis, area), true) <= along_of(axis, area),
{
    let along = along_of(axis, area);
    let mins = child_mins(cs, axis);
    let weights = child_weights(cs);
    let n = cs.len() as int;
    let sizes = split_sizes(cs, axis, area);
    if along >= needed(cs, axis) {
        let seps = separator_count(n);
        assert(seps as int == if n >= 1 { n - 1 } else { 0 });
        crate::layout::lemma_prefix_sum_bound(mins, n);
        assert(seps <= needed(cs, axis));
        let len = (along - seps) as u16;
        assert(sizes == distribution(len, weights, mins));
        if len < prefix_sum(u16_ints(mins), n) {
            lemma_squeeze_total(len, mins, n);
            assert(sizes == squeeze(len as int, u16_ints(mins), mins));
        } else {
            let fixed = crate::layout::settle(len, weights, mins, Seq::new(n as nat, |i: int| false), n as nat);
            lemma_settle_len(len, weights, mins, Seq::new(n as nat, |i: int| false), n as nat);
            lemma_fit_sizes_fit(len, weights, mins, fixed);
            lemma_raw_prefix(len, weights, mins, fixed, n);
        }
        lemma_total_is_prefix_sum(sizes);
        lemma_span_total(sizes, true);
    } else {
        lemma_fit_count_len(along as int, child_costs(mins));
        lemma_squeeze_span(along, mins, 0, true);
        assert(sizes.skip(0) =~= sizes);
    }
}


/// `r` lies inside `a`.
pub open spec fn within(r: Rect, a: Rect) -> bool {
    &&& a.x <= r.x
    &&& r.x + r.w <= a.x + a.w
    &&& a.y <= r.y
    &&& r.y + r.h <= a.y + a.h
}

/// `a` and `b` share no cell.
pub open spec fn apart(a: Rect, b: Rect) -> bool {
    ||| a.x + a.w <= b.x
    ||| b.x + b.w <= a.x
    ||| a.y + a.h <= b.y
    ||| b.y + b.h <= a.y
}

/// An area whose cells all have coordinates.
pub open spec fn addressable(a: Rect) -> bool {
    a.x + a.w <= 0xffff && a.y + a.h <= 0xffff
}

/// A tree none of whose splits has more than 65536 children.
pub open spec fn small_splits(t: Tree) -> bool
    decreases t, 0int,
{
    match t {
        Tree::Leaf(_) => true,
        Tree::Branch(_, cs) => cs.len() <= 0x10000 && children_small(cs),
    }
}

pub open spec fn children_small(cs: Seq<(u32, Tree)>) -> bool
    decreases cs, 1int,
{
    if cs.len() == 0 {
        true
    } else {
        small_splits(cs[0].1) && children_small(cs.drop_first())
    }
}

/// Rectangles all inside `area` and pairwise apart.
pub open spec fn tiles(rs: Seq<(PaneId, Rect)>, area: Rect) -> bool {
    &&& forall|i: int| 0 <= i < rs.len() ==> within(#[trigger] rs[i].1, area)
    &&& forall|i: int, j: int| 0 <= i < rs.len() && 0 <= j < rs.len() && i != j ==> apart(#[trigger] rs[i].1, #[trigger] rs[j].1)
}

proof fn lemma_tiles_concat(a: Seq<(PaneId, Rect)>, b: Seq<(PaneId, Rect)>, area_a: Rect, area_b: Rect, area: Rect)
    requires
        tiles(a, area_a),
        tiles(b, area_b),
        within(area_a, area),
        within(area_b, area),
        apart(area_a, area_b),
    ensures
        tiles(a + b, area),
{
    let c = a + b;
    assert forall|i: int| 0 <= i < c.len() implies within(#[trigger] c[i].1, area) by {
        if i < a.len() {
            assert(c[i] == a[i]);
            assert(within(a[i].1, area_a));
        } else {
            assert(c[i] == b[i - a.len()]);
            assert(within(b[i - a.len()].1, area_b));
        }
    }
    assert forall|i: int, j: int| 0 <= i < c.len() && 0 <= j < c.len() && i != j implies apart(
        #[trigger] c[i].1,
        #[trigger] c[j].1,
    ) by {
        if i < a.len() && j < a.len() {
            assert(c[i] == a[i] && c[j] == a[j]);
            assert(apart(a[i].1, a[j].1));
        } else if i >= a.len() && j >= a.len() {
            assert(c[i] == b[i - a.len()] && c[j] == b[j - a.len()]);
            assert(apart(b[i - a.len()].1, b[j - a.len()].1));
        } else if i < a.len() {
            assert(c[i] == a[i] && c[j] == b[j - a.len()]);
            assert(within(a[i].1, area_a));
            assert(within(b[j - a.len()].1, area_b));
        } else {
            assert(c[j] == a[j] && c[i] == b[i - a.len()]);
            assert(within(a[j].1, area_a));
            assert(within(b[i - a.len()].1, area_b));
        }
    }
}

/// What a split places lies where its tree is, and no two panes share a cell.
proof fn lemma_tree_tiles(t: Tree, area: Rect)
    requires
        small_splits(t),
        addressable(area),
        area.w > 0,
        area.h > 0,
    ensures
        tiles(place_tree(t, area).0, area),
    decreases t, 0int,
{
    match t {
        Tree::Leaf(p) => {
            let rs = seq![(p, area)];
            assert(rs[0].1 == area);
        },
        Tree::Branch(axis, cs) => {
            lemma_split_span(cs, axis, area);
            let sizes = split_sizes(cs, axis, area);
            let band = child_area(axis, area, 0, span(sizes, true) as u16);
            lemma_span_total(sizes, true);
            lemma_children_tiles(cs, sizes, axis, area, 0, true);
            let rs = place_tree(t, area).0;
            assert forall|i: int| 0 <= i < rs.len() implies within(#[trigger] rs[i].1, area) by {
                assert(within(rs[i].1, band));
            }
        },
    }
}

proof fn lemma_children_tiles(cs: Seq<(u32, Tree)>, sizes: Seq<u16>, axis: Axis, area: Rect, offset: int, first: bool)
    requires
        children_small(cs),
        addressable(area),
        area.w > 0,
        area.h > 0,
        0 <= offset,
        offset + span(sizes, first) <= along_of(axis, area),
    ensures
        tiles(
            place_children(cs, sizes, axis, area, offset, first).0,
            child_area(axis, area, offset, span(sizes, first) as u16),
        ),
    decreases cs, 1int,
{
    lemma_span_total(sizes, first);
    let band = child_area(axis, area, offset, span(sizes, first) as u16);
    let rs = place_children(cs, sizes, axis, area, offset, first).0;
    if cs.len() == 0 || sizes.len() == 0 {
        assert(rs.len() == 0);
    } else {
        assert(decreases_to!(cs => cs[0]));
        assert(decreases_to!(cs[0] => cs[0].1));
        let rest_cs = cs.drop_first();
        let rest_sizes = sizes.drop_first();
        lemma_span_total(rest_sizes, first);
        lemma_span_total(rest_sizes, false);
        if sizes[0] == 0 {
            lemma_children_tiles(rest_cs, rest_sizes, axis, area, offset, first);
        } else {
            let at = if first { offset } else { offset + 1 };
            let inner_area = child_area(axis, area, at, sizes[0]);
            let rest_offset = at + sizes[0];
            let rest_band = child_area(axis, area, rest_offset, span(rest_sizes, false) as u16);
            lemma_tree_tiles(cs[0].1, inner_area);
            lemma_children_tiles(rest_cs, rest_sizes, axis, area, rest_offset, false);
            let inner = place_tree(cs[0].1, inner_area).0;
            let rest = place_children(rest_cs, rest_sizes, axis, area, rest_offset, false).0;
            assert(rs == inner + rest);
            if rest_sizes.len() > 0 && span(rest_sizes, false) == 0 {
                assert forall|i: int| 0 <= i < rest.len() implies within(#[trigger] rest[i].1, rest_band) by {}
            }
            lemma_band_tiles(inner, rest, inner_area, rest_band, band);
        }
    }
}

/// Pieces tiled in two bands, one after the other along the axis, tile the
/// band around both; a band of nothing holds no rectangle of any size.
proof fn lemma_band_tiles(
    inner: Seq<(PaneId, Rect)>,
    rest: Seq<(PaneId, Rect)>,
    inner_area: Rect,
    rest_band: Rect,
    band: Rect,
)
    requires
        tiles(inner, inner_area),
        tiles(rest, rest_band),
        within(inner_area, band),
        rest.len() > 0 ==> within(rest_band, band) && apart(inner_area, rest_band),
    ensures
        tiles(inner + rest, band),
{
    if rest.len() > 0 {
        lemma_tiles_concat(inner, rest, inner_area, rest_band, band);
    } else {
        assert(inner + rest =~= inner);
        assert forall|i: int| 0 <= i < inner.len() implies within(#[trigger] inner[i].1, band) by {
            assert(within(inner[i].1, inner_area));
        }
    }
}

/// The cells a separator covers, as a rectangle one cell thick.
pub open spec fn sep_rect(s: Separator) -> Rect {
    if s.vertical {
        Rect { x: s.x, y: s.y, w: 1, h: s.len }
    } else {
        Rect { x: s.x, y: s.y, w: s.len, h: 1 }
    }
}

/// Panes and separators all inside `band`, and no two of them on one cell.
pub open spec fn parts_tile(p: (Seq<(PaneId, Rect)>, Seq<Separator>), band: Rect) -> bool {
    &&& tiles(p.0, band)
    &&& forall|j: int| 0 <= j < p.1.len() ==> within(sep_rect(#[trigger] p.1[j]), band)
    &&& forall|i: int, j: int|
        0 <= i < p.0.len() && 0 <= j < p.1.len() ==> apart(#[trigger] p.0[i].1, sep_rect(#[trigger] p.1[j]))
    &&& forall|j: int, k: int|
        0 <= j < p.1.len() && 0 <= k < p.1.len() && j != k ==> apart(
            sep_rect(#[trigger] p.1[j]),
            sep_rect(#[trigger] p.1[k]),
        )
}

proof fn lemma_apart_within(r: Rect, a: Rect, q: Rect, b: Rect)
    requires
        within(r, a),
        within(q, b),
        apart(a, b),
    ensures
        apart(r, q),
{
}

/// The parts of a first child and of the children after it, with the
/// separator before the first child if any, tile the band around them.
proof fn lemma_parts_join(
    inner: (Seq<(PaneId, Rect)>, Seq<Separator>),
    rest: (Seq<(PaneId, Rect)>, Seq<Separator>),
    seps: Seq<Separator>,
    inner_area: Rect,
    rest_band: Rect,
    band: Rect,
)
    requires
        parts_tile(inner, inner_area),
        parts_tile(rest, rest_band),
        within(inner_area, band),
        within(rest_band, band),
        apart(inner_area, rest_band),
        seps.len() <= 1,
        forall|j: int|
            0 <= j < seps.len() ==> within(sep_rect(#[trigger] seps[j]), band) && apart(
                sep_rect(seps[j]),
                inner_area,
            ) && apart(sep_rect(seps[j]), rest_band),
    ensures
        parts_tile((inner.0 + rest.0, seps + inner.1 + rest.1), band),
{
    lemma_tiles_concat(inner.0, rest.0, inner_area, rest_band, band);
    let ps = inner.0 + rest.0;
    let ss = seps + inner.1 + rest.1;
    let a = seps.len() as int;
    let b = a + inner.1.len();
    assert forall|j: int| 0 <= j < ss.len() implies within(sep_rect(#[trigger] ss[j]), band) by {
        if j < a {
            assert(ss[j] == seps[j]);
        } else if j < b {
            assert(ss[j] == inner.1[j - a]);
            assert(within(sep_rect(inner.1[j - a]), inner_area));
        } else {
            assert(ss[j] == rest.1[j - b]);
            assert(within(sep_rect(rest.1[j - b]), rest_band));
        }
    }
    assert forall|i: int, j: int| 0 <= i < ps.len() && 0 <= j < ss.len() implies apart(
        #[trigger] ps[i].1,
        sep_rect(#[trigger] ss[j]),
    ) by {
        let pi = if i < inner.0.len() { inner.0[i] } else { rest.0[i - inner.0.len()] };
        assert(ps[i] == pi);
        let pa = if i < inner.0.len() { inner_area } else { rest_band };
        if i < inner.0.len() {
            assert(within(inner.0[i].1, inner_area));
        } else {
            assert(within(rest.0[i - inner.0.len()].1, rest_band));
        }
        if j < a {
            assert(ss[j] == seps[j]);
            assert(sep_rect(seps[j]) == sep_rect(ss[j]));
            if i < inner.0.len() {
                lemma_apart_within(sep_rect(seps[j]), sep_rect(seps[j]), pi.1, inner_area);
            } else {
                lemma_apart_within(sep_rect(seps[j]), sep_rect(seps[j]), pi.1, rest_band);
            }
        } else if j < b {
            assert(ss[j] == inner.1[j - a]);
            assert(within(sep_rect(inner.1[j - a]), inner_area));
            if i < inner.0.len() {
                assert(apart(inner.0[i].1, sep_rect(inner.1[j - a])));
            } else {
                lemma_apart_within(pi.1, rest_band, sep_rect(inner.1[j - a]), inner_area);
            }
        } else {
            assert(ss[j] == rest.1[j - b]);
            assert(within(sep_rect(rest.1[j - b]), rest_band));
            if i < inner.0.len() {
                lemma_apart_within(pi.1, inner_area, sep_rect(rest.1[j - b]), rest_band);
            } else {
                assert(apart(rest.0[i - inner.0.len()].1, sep_rect(rest.1[j - b])));
            }
        }
    }
    assert forall|j: int, k: int| 0 <= j < ss.len() && 0 <= k < ss.len() && j != k implies apart(
        sep_rect(#[trigger] ss[j]),
        sep_rect(#[trigger] ss[k]),
    ) by {
        let rj = sep_rect(ss[j]);
        let rk = sep_rect(ss[k]);
        // Where each separator lies: 0 before the first child, 1 in it, 2 after it.
        let gj = if j < a { 0int } else if j < b { 1int } else { 2int };
        let gk = if k < a { 0int } else if k < b { 1int } else { 2int };
        if j < a {
            assert(ss[j] == seps[j]);
        } else if j < b {
            assert(ss[j] == inner.1[j - a]);
            assert(within(rj, inner_area));
        } else {
            assert(ss[j] == rest.1[j - b]);
            assert(within(rj, rest_band));
        }
        if k < a {
            assert(ss[k] == seps[k]);
        } else if k < b {
            assert(ss[k] == inner.1[k - a]);
            assert(within(rk, inner_area));
        } else {
            assert(ss[k] == rest.1[k - b]);
            assert(within(rk, rest_band));
        }
        if gj == 0 && gk == 0 {
            assert(false);
        } else if gj == 0 && gk == 1 {
            lemma_apart_within(rj, rj, rk, inner_area);
        } else if gj == 0 && gk == 2 {
            lemma_apart_within(rj, rj, rk, rest_band);
        } else if gj == 1 && gk == 0 {
            lemma_apart_within(rj, inner_area, rk, rk);
            assert(apart(sep_rect(seps[k]), inner_area));
        } else if gj == 2 && gk == 0 {
            assert(apart(sep_rect(seps[k]), rest_band));
        } else if gj == 1 && gk == 2 {
            lemma_apart_within(rj, inner_area, rk, rest_band);
        } else if gj == 2 && gk == 1 {
            lemma_apart_within(rk, inner_area, rj, rest_band);
        } else if gj == 1 {
            assert(apart(sep_rect(inner.1[j - a]), sep_rect(inner.1[k - a])));
        } else {
            assert(apart(sep_rect(rest.1[j - b]), sep_rect(rest.1[k - b])));
        }
    }
}

proof fn lemma_tree_parts(t: Tree, area: Rect)
    requires
        small_splits(t),
        addressable(area),
        area.w > 0,
        area.h > 0,
    ensures
        parts_tile(place_tree(t, area), area),
    decreases t, 0int,
{
    lemma_tree_tiles(t, area);
    match t {
        Tree::Leaf(p) => {},
        Tree::Branch(axis, cs) => {
            lemma_split_span(cs, axis, area);
            let sizes = split_sizes(cs, axis, area);
            let band = child_area(axis, area, 0, span(sizes, true) as u16);
            lemma_span_total(sizes, true);
            lemma_children_parts(cs, sizes, axis, area, 0, true);
            let p = place_tree(t, area);
            assert forall|j: int| 0 <= j < p.1.len() implies within(sep_rect(#[trigger] p.1[j]), area) by {
                assert(within(sep_rect(p.1[j]), band));
            }
        },
    }
}

proof fn lemma_children_parts(cs: Seq<(u32, Tree)>, sizes: Seq<u16>, axis: Axis, area: Rect, offset: int, first: bool)
    requires
        children_small(cs),
        addressable(area),
        area.w > 0,
        area.h > 0,
        0 <= offset,
        offset + span(sizes, first) <= along_of(axis, area),
    ensures
        parts_tile(
            place_children(cs, sizes, axis, area, offset, first),
            child_area(axis, area, offset, span(sizes, first) as u16),
        ),
    decreases cs, 1int,
{
    lemma_children_tiles(cs, sizes, axis, area, offset, first);
    lemma_span_total(sizes, first);
    let band = child_area(axis, area, offset, span(sizes, first) as u16);
    let p = place_children(cs, sizes, axis, area, offset, first);
    if cs.len() == 0 || sizes.len() == 0 {
        assert(p.1.len() == 0);
    } else {
        assert(decreases_to!(cs => cs[0]));
        assert(decreases_to!(cs[0] => cs[0].1));
        let rest_cs = cs.drop_first();
        let rest_sizes = sizes.drop_first();
        lemma_span_total(rest_sizes, first);
        lemma_span_total(rest_sizes, false);
        if sizes[0] == 0 {
            lemma_children_parts(rest_cs, rest_sizes, axis, area, offset, first);
        } else {
            let at = if first { offset } else { offset + 1 };
            let inner_area = child_area(axis, area, at, sizes[0]);
            let rest_offset = at + sizes[0];
            let rest_band = child_area(axis, area, rest_offset, span(rest_sizes, false) as u16);
            lemma_tree_parts(cs[0].1, inner_area);
            lemma_children_parts(rest_cs, rest_sizes, axis, area, rest_offset, false);
            let inner = place_tree(cs[0].1, inner_area);
            let rest = place_children(rest_cs, rest_sizes, axis, area, rest_offset, false);
            let seps: Seq<Separator> = if first { Seq::empty() } else { seq![separator_at(axis, area, offset)] };
            assert(p == (inner.0 + rest.0, seps + inner.1 + rest.1));
            lemma_parts_join(inner, rest, seps, inner_area, rest_band, band);
        }
    }
}

/// `place` puts every separator inside the area it was given, and no
/// separator shares a cell with a pane or with another separator.
pub proof fn lemma_separators_apart(t: Tree, area: Rect)
    requires
        small_splits(t),
        addressable(area),
    ensures
        forall|j: int|
            0 <= j < placement_of(t, area).1.len() ==> within(
                sep_rect(#[trigger] placement_of(t, area).1[j]),
                area,
            ),
        forall|i: int, j: int|
            0 <= i < placement_of(t, area).0.len() && 0 <= j < placement_of(t, area).1.len() ==> apart(
                #[trigger] placement_of(t, area).0[i].1,
                sep_rect(#[trigger] placement_of(t, area).1[j]),
            ),
        forall|j: int, k: int|
            0 <= j < placement_of(t, area).1.len() && 0 <= k < placement_of(t, area).1.len() && j != k
                ==> apart(
                sep_rect(#[trigger] placement_of(t, area).1[j]),
                sep_rect(#[trigger] placement_of(t, area).1[k]),
            ),
{
    if area.w > 0 && area.h > 0 {
        lemma_tree_parts(t, area);
    }
}

/// `place` puts every pane it shows inside the area it was given, and no two
/// panes on the same cell.
pub proof fn lemma_placement_tiles(t: Tree, area: Rect)
    requires
        small_splits(t),
        addressable(area),
    ensures
        forall|i: int| 0 <= i < placement_of(t, area).0.len() ==> within(#[trigger] placement_of(t, area).0[i].1, area),
        forall|i: int, j: int|
            0 <= i < placement_of(t, area).0.len() && 0 <= j < placement_of(t, area).0.len() && i != j ==> apart(
                #[trigger] placement_of(t, area).0[i].1,
                #[trigger] placement_of(t, area).0[j].1,
            ),
{
    if area.w > 0 && area.h > 0 {
        lemma_tree_tiles(t, area);
    }
}


proof fn lemma_settle_fixpoint(len: u16, weights: Seq<u32>, mins: Seq<u16>, fixed: Seq<bool>, fuel: nat)
    requires
        weights.len() == mins.len() == fixed.len(),
        fuel >= count_free(fixed, fixed.len() as int),
    ensures
        crate::layout::fix_round(len, weights, mins, crate::layout::settle(len, weights, mins, fixed, fuel))
            == crate::layout::settle(len, weights, mins, fixed, fuel),
    decreases fuel,
{
    let n = fixed.len() as int;
    let next = crate::layout::fix_round(len, weights, mins, fixed);
    lemma_count_free(fixed, n);
    if fuel == 0 {
        assert forall|i: int| 0 <= i < n implies fixed[i] by {
            if !fixed[i] {
                assert(exists|j: int| 0 <= j < n && !fixed[j]);
            }
        }
        assert(next =~= fixed);
    } else if next != fixed {
        crate::layout::lemma_count_free_shrinks(fixed, next, n);
        assert(exists|i: int| 0 <= i < n && !fixed[i] && next[i]) by {
            if !(exists|i: int| 0 <= i < n && !fixed[i] && next[i]) {
                assert(next =~= fixed);
            }
        }
        lemma_settle_fixpoint(len, weights, mins, next, (fuel - 1) as nat);
    }
}

/// When every child's minimum fits, every child gets at least its minimum.
pub proof fn lemma_distribution_keeps_minimums(len: u16, weights: Seq<u32>, mins: Seq<u16>)
    requires
        weights.len() == mins.len(),
        prefix_sum(u16_ints(mins), mins.len() as int) <= len,
    ensures
        distribution(len, weights, mins).len() == mins.len(),
        forall|i: int| 0 <= i < mins.len() ==> #[trigger] distribution(len, weights, mins)[i] >= mins[i],
{
    let n = mins.len() as int;
    let initial = Seq::new(n as nat, |i: int| false);
    lemma_count_free(initial, n);
    lemma_settle_len(len, weights, mins, initial, n as nat);
    lemma_settle_fixpoint(len, weights, mins, initial, n as nat);
    let fixed = crate::layout::settle(len, weights, mins, initial, n as nat);
    lemma_fit_sizes_fit(len, weights, mins, fixed);
    lemma_free_weight_bound(weights, fixed, n);
    assert forall|i: int| 0 <= i < n implies #[trigger] distribution(len, weights, mins)[i] >= mins[i] by {
        assert(distribution(len, weights, mins)[i] as int == raw_fit(len, weights, mins, fixed, i));
        if !fixed[i] {
            assert(crate::layout::fix_round(len, weights, mins, fixed)[i] == fixed[i]);
            lemma_fixed_mins_bound(mins, fixed, n);
            let f = free_len(len, mins, fixed);
            let d = divisor(weights, fixed);
            assert(f * wt(weights[i]) >= 0) by (nonlinear_arith)
                requires f >= 0, wt(weights[i]) >= 1;
            vstd::arithmetic::div_mod::lemma_div_pos_is_pos(f * wt(weights[i]), d);
        }
    }
}


/// A tree whose minimum lengths are exact: no split has more than 65536
/// children, and none needs more than 65535 cells along its own axis.
pub open spec fn exact_mins(t: Tree) -> bool
    decreases t, 0int,
{
    match t {
        Tree::Leaf(_) => true,
        Tree::Branch(own, cs) => cs.len() <= 0x10000 && (if cs.len() >= 1 { cs.len() - 1 } else { 0 })
            + sum_mins(cs, own) <= 0xffff && children_exact(cs),
    }
}

pub open spec fn children_exact(cs: Seq<(u32, Tree)>) -> bool
    decreases cs, 1int,
{
    if cs.len() == 0 {
        true
    } else {
        exact_mins(cs[0].1) && children_exact(cs.drop_first())
    }
}

/// The panes of placed rectangles, in order.
pub open spec fn placed_ids(rs: Seq<(PaneId, Rect)>) -> Seq<PaneId> {
    Seq::new(rs.len(), |i: int| rs[i].0)
}

proof fn lemma_sum_mins_prefix(cs: Seq<(u32, Tree)>, axis: Axis, k: int)
    requires
        0 <= k <= cs.len(),
    ensures
        sum_mins(cs.take(k), axis) == prefix_sum(u16_ints(child_mins(cs, axis)), k),
    decreases k,
{
    if k > 0 {
        lemma_sum_mins_prefix(cs, axis, k - 1);
        assert(cs.take(k).drop_last() =~= cs.take(k - 1));
    } else {
        assert(cs.take(0) =~= Seq::<(u32, Tree)>::empty());
    }
}

proof fn lemma_max_mins(cs: Seq<(u32, Tree)>, axis: Axis)
    ensures
        forall|i: int| 0 <= i < cs.len() ==> min_len(#[trigger] cs[i].1, axis) <= max_mins(cs, axis),
    decreases cs.len(),
{
    if cs.len() > 0 {
        lemma_max_mins(cs.drop_last(), axis);
        assert forall|i: int| 0 <= i < cs.len() implies min_len(#[trigger] cs[i].1, axis) <= max_mins(cs, axis) by {
            if i < cs.len() - 1 {
                assert(cs[i] == cs.drop_last()[i]);
            }
        }
    }
}

proof fn lemma_max_mins_zero(cs: Seq<(u32, Tree)>, axis: Axis)
    requires
        max_mins(cs, axis) == 0,
    ensures
        forall|i: int| 0 <= i < cs.len() ==> min_len(#[trigger] cs[i].1, axis) == 0,
{
    lemma_max_mins(cs, axis);
}

proof fn lemma_children_exact_all(cs: Seq<(u32, Tree)>)
    ensures
        children_exact(cs) <==> forall|i: int| 0 <= i < cs.len() ==> exact_mins(#[trigger] cs[i].1),
    decreases cs.len(),
{
    if cs.len() > 0 {
        lemma_children_exact_all(cs.drop_first());
        assert forall|i: int| 1 <= i < cs.len() implies cs[i] == cs.drop_first()[i - 1] by {}
        if forall|i: int| 0 <= i < cs.len() ==> exact_mins(#[trigger] cs[i].1) {
            assert forall|i: int| 0 <= i < cs.drop_first().len() implies exact_mins(#[trigger] cs.drop_first()[i].1) by {
                assert(cs.drop_first()[i] == cs[i + 1]);
            }
        }
    }
}

proof fn lemma_children_panes_empty(cs: Seq<(u32, Tree)>)
    requires
        forall|i: int| 0 <= i < cs.len() ==> panes_of(#[trigger] cs[i].1).len() == 0,
    ensures
        children_panes(cs).len() == 0,
    decreases cs.len(),
{
    if cs.len() > 0 {
        assert forall|i: int| 0 <= i < cs.drop_first().len() implies panes_of(#[trigger] cs.drop_first()[i].1).len() == 0 by {
            assert(cs.drop_first()[i] == cs[i + 1]);
        }
        lemma_children_panes_empty(cs.drop_first());
        assert(panes_of(cs[0].1).len() == 0);
    }
}

/// A tree that needs no length along some axis has no pane.
proof fn lemma_no_room_no_panes(t: Tree, axis: Axis)
    requires
        min_len(t, axis) == 0,
        exact_mins(t),
    ensures
        panes_of(t).len() == 0,
    decreases t, 0int,
{
    match t {
        Tree::Leaf(_) => {},
        Tree::Branch(own, cs) => {
            lemma_children_exact_all(cs);
            if own == axis {
                crate::layout::lemma_sum_mins_nonneg(cs, axis);
                if cs.len() == 1 {
                    assert(cs.drop_last() =~= Seq::<(u32, Tree)>::empty());
                    assert(sum_mins(Seq::<(u32, Tree)>::empty(), axis) == 0);
                    assert(cs.last() == cs[0]);
                    assert(sum_mins(cs, axis) == min_len(cs[0].1, axis));
                    assert(decreases_to!(t => cs));
                    assert(decreases_to!(cs => cs[0]));
                    assert(decreases_to!(cs[0] => cs[0].1));
                    lemma_no_room_no_panes(cs[0].1, axis);
                    crate::layout::laws::lemma_children_panes_unfold(cs);
                    assert(cs.drop_first() =~= Seq::<(u32, Tree)>::empty());
                }
            } else {
                lemma_max_mins_zero(cs, axis);
                assert forall|i: int| 0 <= i < cs.len() implies panes_of(#[trigger] cs[i].1).len() == 0 by {
                    assert(decreases_to!(t => cs));
                    assert(decreases_to!(cs => cs[i]));
                    assert(decreases_to!(cs[i] => cs[i].1));
                    lemma_no_room_no_panes(cs[i].1, axis);
                }
                lemma_children_panes_empty(cs);
            }
        },
    }
}


/// The other axis.
pub open spec fn across(axis: Axis) -> Axis {
    match axis {
        Axis::Horizontal => Axis::Vertical,
        Axis::Vertical => Axis::Horizontal,
    }
}

proof fn lemma_placed_ids_concat(a: Seq<(PaneId, Rect)>, b: Seq<(PaneId, Rect)>)
    ensures
        placed_ids(a + b) == placed_ids(a) + placed_ids(b),
{
    assert(placed_ids(a + b) =~= placed_ids(a) + placed_ids(b));
}

proof fn lemma_children_place_all(cs: Seq<(u32, Tree)>, sizes: Seq<u16>, axis: Axis, area: Rect, offset: int, first: bool)
    requires
        children_exact(cs),
        sizes.len() == cs.len(),
        forall|i: int| 0 <= i < cs.len() ==> #[trigger] sizes[i] >= min_len(cs[i].1, axis),
        forall|i: int| 0 <= i < cs.len() ==> min_len(#[trigger] cs[i].1, across(axis)) <= along_of(across(axis), area),
        along_of(across(axis), area) > 0,
    ensures
        placed_ids(place_children(cs, sizes, axis, area, offset, first).0) == children_panes(cs),
    decreases cs, 1int,
{
    if cs.len() == 0 {
        assert(placed_ids(Seq::<(PaneId, Rect)>::empty()) =~= Seq::<PaneId>::empty());
    } else {
        assert(decreases_to!(cs => cs[0]));
        assert(decreases_to!(cs[0] => cs[0].1));
        let rest_cs = cs.drop_first();
        let rest_sizes = sizes.drop_first();
        assert forall|i: int| 0 <= i < rest_cs.len() implies #[trigger] rest_sizes[i] >= min_len(rest_cs[i].1, axis) by {
            assert(rest_cs[i] == cs[i + 1] && rest_sizes[i] == sizes[i + 1]);
        }
        assert forall|i: int| 0 <= i < rest_cs.len() implies min_len(#[trigger] rest_cs[i].1, across(axis))
            <= along_of(across(axis), area) by {
            assert(rest_cs[i] == cs[i + 1]);
        }
        crate::layout::laws::lemma_children_panes_unfold(cs);
        if sizes[0] == 0 {
            assert(min_len(cs[0].1, axis) == 0);
            lemma_no_room_no_panes(cs[0].1, axis);
            lemma_children_place_all(rest_cs, rest_sizes, axis, area, offset, first);
            assert(children_panes(cs) =~= children_panes(rest_cs));
        } else {
            let at = if first { offset } else { offset + 1 };
            let inner_area = child_area(axis, area, at, sizes[0]);
            assert(min_len(cs[0].1, axis) <= sizes[0]);
            assert(min_len(cs[0].1, across(axis)) <= along_of(across(axis), area));
            lemma_tree_places_all(cs[0].1, inner_area);
            lemma_children_place_all(rest_cs, rest_sizes, axis, area, at + sizes[0], false);
            lemma_placed_ids_concat(
                place_tree(cs[0].1, inner_area).0,
                place_children(rest_cs, rest_sizes, axis, area, at + sizes[0], false).0,
            );
        }
    }
}

proof fn lemma_tree_places_all(t: Tree, area: Rect)
    requires
        exact_mins(t),
        area.w >= min_len(t, Axis::Horizontal),
        area.h >= min_len(t, Axis::Vertical),
        area.w > 0,
        area.h > 0,
    ensures
        placed_ids(place_tree(t, area).0) == panes_of(t),
    decreases t, 0int,
{
    match t {
        Tree::Leaf(p) => {
            assert(placed_ids(seq![(p, area)]) =~= seq![p]);
        },
        Tree::Branch(axis, cs) => {
            let n = cs.len() as int;
            let mins = child_mins(cs, axis);
            let weights = child_weights(cs);
            lemma_children_exact_all(cs);
            lemma_sum_mins_prefix(cs, axis, n);
            assert(cs.take(n) =~= cs);
            let seps = separator_count(n);
            assert(seps as int == if n >= 1 { n - 1 } else { 0 });
            assert(along_of(axis, area) >= needed(cs, axis));
            let len = (along_of(axis, area) - seps) as u16;
            assert(split_sizes(cs, axis, area) == distribution(len, weights, mins));
            lemma_distribution_keeps_minimums(len, weights, mins);
            let sizes = split_sizes(cs, axis, area);
            lemma_max_mins(cs, across(axis));
            assert forall|i: int| 0 <= i < cs.len() implies min_len(#[trigger] cs[i].1, across(axis))
                <= along_of(across(axis), area) by {
                assert(min_len(cs[i].1, across(axis)) <= max_mins(cs, across(axis)));
            }
            assert forall|i: int| 0 <= i < cs.len() implies #[trigger] sizes[i] >= min_len(cs[i].1, axis) by {
                assert(sizes[i] >= mins[i]);
            }
            lemma_children_place_all(cs, sizes, axis, area, 0, true);
        },
    }
}

/// Every rectangle is at least `MIN` cells wide and high.
pub open spec fn roomy(rs: Seq<(PaneId, Rect)>) -> bool {
    forall|i: int| 0 <= i < rs.len() ==> (#[trigger] rs[i]).1.w >= MIN && rs[i].1.h >= MIN
}

proof fn lemma_roomy_concat(a: Seq<(PaneId, Rect)>, b: Seq<(PaneId, Rect)>)
    requires
        roomy(a),
        roomy(b),
    ensures
        roomy(a + b),
{
    assert forall|i: int| 0 <= i < (a + b).len() implies (#[trigger] (a + b)[i]).1.w >= MIN && (a
        + b)[i].1.h >= MIN by {
        if i < a.len() {
            assert((a + b)[i] == a[i]);
        } else {
            assert((a + b)[i] == b[i - a.len()]);
        }
    }
}

proof fn lemma_children_roomy(cs: Seq<(u32, Tree)>, sizes: Seq<u16>, axis: Axis, area: Rect, offset: int, first: bool)
    requires
        children_exact(cs),
        sizes.len() == cs.len(),
        forall|i: int| 0 <= i < cs.len() ==> #[trigger] sizes[i] >= min_len(cs[i].1, axis),
        forall|i: int| 0 <= i < cs.len() ==> min_len(#[trigger] cs[i].1, across(axis)) <= along_of(across(axis), area),
        along_of(across(axis), area) > 0,
    ensures
        roomy(place_children(cs, sizes, axis, area, offset, first).0),
    decreases cs, 1int,
{
    if cs.len() > 0 {
        assert(decreases_to!(cs => cs[0]));
        assert(decreases_to!(cs[0] => cs[0].1));
        let rest_cs = cs.drop_first();
        let rest_sizes = sizes.drop_first();
        assert forall|i: int| 0 <= i < rest_cs.len() implies #[trigger] rest_sizes[i] >= min_len(rest_cs[i].1, axis) by {
            assert(rest_cs[i] == cs[i + 1] && rest_sizes[i] == sizes[i + 1]);
        }
        assert forall|i: int| 0 <= i < rest_cs.len() implies min_len(#[trigger] rest_cs[i].1, across(axis))
            <= along_of(across(axis), area) by {
            assert(rest_cs[i] == cs[i + 1]);
        }
        if sizes[0] == 0 {
            lemma_children_roomy(rest_cs, rest_sizes, axis, area, offset, first);
        } else {
            let at = if first { offset } else { offset + 1 };
            let inner_area = child_area(axis, area, at, sizes[0]);
            assert(min_len(cs[0].1, axis) <= sizes[0]);
            assert(min_len(cs[0].1, across(axis)) <= along_of(across(axis), area));
            lemma_tree_roomy(cs[0].1, inner_area);
            lemma_children_roomy(rest_cs, rest_sizes, axis, area, at + sizes[0], false);
            lemma_roomy_concat(
                place_tree(cs[0].1, inner_area).0,
                place_children(rest_cs, rest_sizes, axis, area, at + sizes[0], false).0,
            );
        }
    }
}

proof fn lemma_tree_roomy(t: Tree, area: Rect)
    requires
        exact_mins(t),
        area.w >= min_len(t, Axis::Horizontal),
        area.h >= min_len(t, Axis::Vertical),
        area.w > 0,
        area.h > 0,
    ensures
        roomy(place_tree(t, area).0),
    decreases t, 0int,
{
    match t {
        Tree::Leaf(p) => {
            assert(seq![(p, area)][0] == (p, area));
        },
        Tree::Branch(axis, cs) => {
            let n = cs.len() as int;
            let mins = child_mins(cs, axis);
            let weights = child_weights(cs);
            lemma_children_exact_all(cs);
            lemma_sum_mins_prefix(cs, axis, n);
            assert(cs.take(n) =~= cs);
            let seps = separator_count(n);
            assert(seps as int == if n >= 1 { n - 1 } else { 0 });
            assert(along_of(axis, area) >= needed(cs, axis));
            let len = (along_of(axis, area) - seps) as u16;
            assert(split_sizes(cs, axis, area) == distribution(len, weights, mins));
            lemma_distribution_keeps_minimums(len, weights, mins);
            let sizes = split_sizes(cs, axis, area);
            lemma_max_mins(cs, across(axis));
            assert forall|i: int| 0 <= i < cs.len() implies min_len(#[trigger] cs[i].1, across(axis))
                <= along_of(across(axis), area) by {
                assert(min_len(cs[i].1, across(axis)) <= max_mins(cs, across(axis)));
            }
            assert forall|i: int| 0 <= i < cs.len() implies #[trigger] sizes[i] >= min_len(cs[i].1, axis) by {
                assert(sizes[i] >= mins[i]);
            }
            lemma_children_roomy(cs, sizes, axis, area, 0, true);
        },
    }
}

/// In an area that holds a tree's minimum size, every pane `place` shows
/// is at least `MIN` cells wide and `MIN` cells high.
pub proof fn lemma_roomy_area_keeps_minimums(t: Tree, area: Rect)
    requires
        exact_mins(t),
        area.w >= min_len(t, Axis::Horizontal),
        area.h >= min_len(t, Axis::Vertical),
    ensures
        forall|i: int|
            0 <= i < placement_of(t, area).0.len() ==> (#[trigger] placement_of(t, area).0[i]).1.w >= MIN
                && placement_of(t, area).0[i].1.h >= MIN,
{
    if area.w > 0 && area.h > 0 {
        lemma_tree_roomy(t, area);
    }
}

/// In an area that holds a tree's minimum size, `place` gives every pane a
/// rectangle, in tree order.
pub proof fn lemma_roomy_area_places_every_pane(t: Tree, area: Rect)
    requires
        exact_mins(t),
        area.w >= min_len(t, Axis::Horizontal),
        area.h >= min_len(t, Axis::Vertical),
    ensures
        placed_ids(placement_of(t, area).0) == panes_of(t),
{
    if area.w > 0 && area.h > 0 {
        lemma_tree_places_all(t, area);
    } else {
        if area.w == 0 {
            lemma_no_room_no_panes(t, Axis::Horizontal);
        } else {
            lemma_no_room_no_panes(t, Axis::Vertical);
        }
        assert(placed_ids(Seq::<(PaneId, Rect)>::empty()) =~= panes_of(t));
    }
}


/// What the rounding leaves over, summed over the free children among the
/// first `k`.
pub open spec fn rem_sum(len: u16, weights: Seq<u32>, mins: Seq<u16>, fixed: Seq<bool>, k: int) -> int
    decreases k,
{
    if k <= 0 {
        0
    } else {
        rem_sum(len, weights, mins, fixed, k - 1) + if fixed[k - 1] {
            0
        } else {
            remainder(len, weights, mins, fixed, k - 1)
        }
    }
}

/// The minimums of the free children among the first `k`.
pub open spec fn free_mins(mins: Seq<u16>, fixed: Seq<bool>, k: int) -> int
    decreases k,
{
    if k <= 0 {
        0
    } else {
        free_mins(mins, fixed, k - 1) + if fixed[k - 1] { 0 } else { mins[k - 1] as int }
    }
}

proof fn lemma_mins_split(mins: Seq<u16>, fixed: Seq<bool>, k: int)
    requires
        0 <= k <= mins.len(),
        fixed.len() == mins.len(),
    ensures
        prefix_sum(u16_ints(mins), k) == fixed_mins(mins, fixed, k) + free_mins(mins, fixed, k),
    decreases k,
{
    if k > 0 {
        lemma_mins_split(mins, fixed, k - 1);
    }
}

/// The free shares and what their rounding leaves make up the free length,
/// scaled by the free weight.
proof fn lemma_used_rem(len: u16, weights: Seq<u32>, mins: Seq<u16>, fixed: Seq<bool>, k: int)
    requires
        weights.len() == mins.len() == fixed.len(),
        0 <= k <= fixed.len(),
        free_len(len, mins, fixed) >= 0,
    ensures
        used(len, weights, mins, fixed, k) * divisor(weights, fixed) + rem_sum(len, weights, mins, fixed, k)
            == free_len(len, mins, fixed) * free_weight(weights, fixed, k),
        0 <= rem_sum(len, weights, mins, fixed, k) <= count_free(fixed, k) * (divisor(weights, fixed) - 1),
    decreases k,
{
    if k > 0 {
        lemma_used_rem(len, weights, mins, fixed, k - 1);
        let i = k - 1;
        let f = free_len(len, mins, fixed);
        let d = divisor(weights, fixed);
        let u0 = used(len, weights, mins, fixed, k - 1);
        let r0 = rem_sum(len, weights, mins, fixed, k - 1);
        let fw0 = free_weight(weights, fixed, k - 1);
        let c0 = count_free(fixed, k - 1);
        if !fixed[i] {
            let x = f * wt(weights[i]);
            assert(x >= 0) by (nonlinear_arith)
                requires
                    f >= 0,
                    x == f * wt(weights[i]),
                    wt(weights[i]) >= 1,
            ;
            vstd::arithmetic::div_mod::lemma_fundamental_div_mod(x, d);
            vstd::arithmetic::div_mod::lemma_mod_pos_bound(x, d);
            let sh = share(len, weights, mins, fixed, i);
            let r = remainder(len, weights, mins, fixed, i);
            assert(x == d * sh + r);
            assert((u0 + sh) * d + (r0 + r) == f * (fw0 + wt(weights[i]))) by (nonlinear_arith)
                requires
                    u0 * d + r0 == f * fw0,
                    x == d * sh + r,
                    x == f * wt(weights[i]),
            ;
            assert(r0 + r <= (c0 + 1) * (d - 1)) by (nonlinear_arith)
                requires
                    r0 <= c0 * (d - 1),
                    r <= d - 1,
            ;
        }
    }
}

/// Where a child is free, the shares fall short of the free length by less
/// than the number of free children.
proof fn lemma_shares_nearly_fill(len: u16, weights: Seq<u32>, mins: Seq<u16>, fixed: Seq<bool>)
    requires
        weights.len() == mins.len() == fixed.len(),
        count_free(fixed, fixed.len() as int) >= 1,
        free_len(len, mins, fixed) >= 0,
    ensures
        used(len, weights, mins, fixed, fixed.len() as int) > free_len(len, mins, fixed) - count_free(
            fixed,
            fixed.len() as int,
        ),
{
    let n = fixed.len() as int;
    lemma_used_rem(len, weights, mins, fixed, n);
    lemma_free_weight_bound(weights, fixed, n);
    let c = count_free(fixed, n);
    assert(exists|i: int| 0 <= i < n && !fixed[i]) by {
        if !(exists|i: int| 0 <= i < n && !fixed[i]) {
            lemma_no_free(fixed, n);
        }
    }
    let i = choose|i: int| 0 <= i < n && !fixed[i];
    assert(wt(weights[i]) <= free_weight(weights, fixed, n));
    let d = divisor(weights, fixed);
    assert(d == free_weight(weights, fixed, n));
    let u = used(len, weights, mins, fixed, n);
    let r = rem_sum(len, weights, mins, fixed, n);
    let f = free_len(len, mins, fixed);
    assert(u > f - c) by (nonlinear_arith)
        requires
            u * d + r == f * d,
            0 <= r <= c * (d - 1),
            d >= 1,
            c >= 1,
    ;
}

proof fn lemma_no_free(fixed: Seq<bool>, k: int)
    requires
        0 <= k <= fixed.len(),
        forall|i: int| 0 <= i < k ==> fixed[i],
    ensures
        count_free(fixed, k) == 0,
    decreases k,
{
    if k > 0 {
        lemma_no_free(fixed, k - 1);
    }
}

/// Free children whose shares are all below their minimums take at least
/// one cell less each than their minimums.
proof fn lemma_short_shares(len: u16, weights: Seq<u32>, mins: Seq<u16>, fixed: Seq<bool>, k: int)
    requires
        weights.len() == mins.len() == fixed.len(),
        0 <= k <= fixed.len(),
        forall|i: int| 0 <= i < k && !fixed[i] ==> share(len, weights, mins, fixed, i) < mins[i],
    ensures
        used(len, weights, mins, fixed, k) <= free_mins(mins, fixed, k) - count_free(fixed, k),
    decreases k,
{
    if k > 0 {
        lemma_short_shares(len, weights, mins, fixed, k - 1);
    }
}

/// A round never fixes the last free child while the minimums fit.
proof fn lemma_round_keeps_free(len: u16, weights: Seq<u32>, mins: Seq<u16>, fixed: Seq<bool>)
    requires
        weights.len() == mins.len() == fixed.len(),
        prefix_sum(u16_ints(mins), mins.len() as int) <= len,
        count_free(fixed, fixed.len() as int) >= 1,
    ensures
        count_free(crate::layout::fix_round(len, weights, mins, fixed), fixed.len() as int) >= 1,
{
    let n = fixed.len() as int;
    let next = crate::layout::fix_round(len, weights, mins, fixed);
    lemma_count_free(next, n);
    if !(exists|i: int| 0 <= i < n && !next[i]) {
        assert forall|i: int| 0 <= i < n && !fixed[i] implies share(len, weights, mins, fixed, i) < mins[i] by {
            assert(next[i]);
        }
        lemma_short_shares(len, weights, mins, fixed, n);
        lemma_fixed_mins_bound(mins, fixed, n);
        lemma_shares_nearly_fill(len, weights, mins, fixed);
        lemma_mins_split(mins, fixed, n);
        assert(false);
    }
}

/// Settling leaves a free child while the minimums fit.
proof fn lemma_settle_keeps_free(len: u16, weights: Seq<u32>, mins: Seq<u16>, fixed: Seq<bool>, fuel: nat)
    requires
        weights.len() == mins.len() == fixed.len(),
        prefix_sum(u16_ints(mins), mins.len() as int) <= len,
        count_free(fixed, fixed.len() as int) >= 1,
    ensures
        count_free(crate::layout::settle(len, weights, mins, fixed, fuel), fixed.len() as int) >= 1,
    decreases fuel,
{
    if fuel > 0 {
        let next = crate::layout::fix_round(len, weights, mins, fixed);
        if next != fixed {
            lemma_round_keeps_free(len, weights, mins, fixed);
            lemma_settle_keeps_free(len, weights, mins, next, (fuel - 1) as nat);
        }
    }
}

/// Where every rank is below `m`, all free children rank below it.
proof fn lemma_all_ranked_below(len: u16, weights: Seq<u32>, mins: Seq<u16>, fixed: Seq<bool>, m: int, k: int)
    requires
        0 <= k <= fixed.len(),
        forall|i: int|
            0 <= i < fixed.len() && !fixed[i] ==> rounding_rank(len, weights, mins, fixed, i, fixed.len() as int) < m,
    ensures
        ranked_below(len, weights, mins, fixed, m, k) == count_free(fixed, k),
    decreases k,
{
    if k > 0 {
        lemma_all_ranked_below(len, weights, mins, fixed, m, k - 1);
    }
}

/// A free child of rank below `m` puts its rank among those below `m`.
proof fn lemma_rank_listed(len: u16, weights: Seq<u32>, mins: Seq<u16>, fixed: Seq<bool>, m: int, k: int, i: int)
    requires
        0 <= i < k <= fixed.len(),
        !fixed[i],
        rounding_rank(len, weights, mins, fixed, i, fixed.len() as int) < m,
    ensures
        ranks_below(len, weights, mins, fixed, m, k).contains(
            rounding_rank(len, weights, mins, fixed, i, fixed.len() as int),
        ),
    decreases k,
{
    if i < k - 1 {
        lemma_rank_listed(len, weights, mins, fixed, m, k - 1, i);
    }
}

/// Exactly `m` free children rank below `m`, for `m` up to the number of
/// free children: their ranks are `0` to one less than that number.
proof fn lemma_ranked_below_exact(len: u16, weights: Seq<u32>, mins: Seq<u16>, fixed: Seq<bool>, m: int)
    requires
        0 <= m <= count_free(fixed, fixed.len() as int),
    ensures
        ranked_below(len, weights, mins, fixed, m, fixed.len() as int) == m,
{
    let n = fixed.len() as int;
    let c = count_free(fixed, n);
    assert forall|i: int| 0 <= i < n && !fixed[i] implies rounding_rank(len, weights, mins, fixed, i, n) < c by {
        lemma_rank_below_free(len, weights, mins, fixed, i, n);
    }
    lemma_all_ranked_below(len, weights, mins, fixed, c, n);
    lemma_ranks_below(len, weights, mins, fixed, c, n);
    let all = ranks_below(len, weights, mins, fixed, c, n);
    lemma_int_range(0, c);
    assert forall|r: int| 0 <= r < c implies all.contains(r) by {
        if !all.contains(r) {
            let rest = set_int_range(0, c).remove(r);
            assert(all.subset_of(rest));
            assert(set_int_range(0, c).contains(r));
            lemma_len_subset(all, rest);
        }
    }
    lemma_ranks_below(len, weights, mins, fixed, m, n);
    let low = ranks_below(len, weights, mins, fixed, m, n);
    lemma_int_range(0, m);
    assert(set_int_range(0, m).subset_of(low)) by {
        assert forall|r: int| set_int_range(0, m).contains(r) implies low.contains(r) by {
            assert(all.contains(r));
            let i = choose|i: int| 0 <= i < n && !fixed[i] && rounding_rank(len, weights, mins, fixed, i, n) == r;
            lemma_rank_listed(len, weights, mins, fixed, m, n, i);
        }
    }
    lemma_len_subset(set_int_range(0, m), low);
    lemma_ranked_below_bound(len, weights, mins, fixed, m);
}

/// When every child's minimum fits, the lengths a split hands its children
/// add up to exactly the length it has.
pub proof fn lemma_distribution_fills(len: u16, weights: Seq<u32>, mins: Seq<u16>)
    requires
        weights.len() == mins.len(),
        mins.len() >= 1,
        prefix_sum(u16_ints(mins), mins.len() as int) <= len,
    ensures
        total(distribution(len, weights, mins)) == len,
{
    let n = mins.len() as int;
    let initial = Seq::new(n as nat, |i: int| false);
    assert(!initial[0]);
    lemma_count_free(initial, n);
    lemma_settle_len(len, weights, mins, initial, n as nat);
    lemma_settle_keeps_free(len, weights, mins, initial, n as nat);
    let fixed = crate::layout::settle(len, weights, mins, initial, n as nat);
    lemma_fit_sizes_fit(len, weights, mins, fixed);
    lemma_fixed_mins_bound(mins, fixed, n);
    lemma_used_fits(len, weights, mins, fixed);
    lemma_shares_nearly_fill(len, weights, mins, fixed);
    lemma_raw_sum(len, weights, mins, fixed, n);
    let f = free_len(len, mins, fixed);
    let u = used(len, weights, mins, fixed, n);
    let c = count_free(fixed, n);
    let left = f - u;
    lemma_ranked_below_exact(len, weights, mins, fixed, left);
    lemma_ranked_below_bound(len, weights, mins, fixed, left - c);
    lemma_raw_prefix(len, weights, mins, fixed, n);
    let sizes = distribution(len, weights, mins);
    assert(sizes == fit_sizes(len, weights, mins, fixed));
    lemma_total_is_prefix_sum(sizes);
}


/// With every length above zero, the children reach as far as their lengths
/// and the separators between them.
proof fn lemma_span_exact(s: Seq<u16>, first: bool)
    requires
        forall|i: int| 0 <= i < s.len() ==> s[i] > 0,
    ensures
        span(s, first) == total(s) + s.len() - (if first && s.len() > 0 { 1int } else { 0 }),
    decreases s.len(),
{
    if s.len() > 0 {
        lemma_span_exact(s.drop_first(), false);
    }
}

/// A split whose children's minimums and separators all fit shows every
/// child, and its children and the separators between them fill its whole
/// length: no cell along it is left to neither.
pub proof fn lemma_split_fills(cs: Seq<(u32, Tree)>, axis: Axis, area: Rect)
    requires
        1 <= cs.len() <= 0x10000,
        separator_count(cs.len() as int) + prefix_sum(u16_ints(child_mins(cs, axis)), cs.len() as int)
            <= along_of(axis, area),
        forall|i: int| 0 <= i < cs.len() ==> min_len(#[trigger] cs[i].1, axis) >= 1,
    ensures
        forall|i: int| 0 <= i < cs.len() ==> #[trigger] split_sizes(cs, axis, area)[i] >= 1,
        span(split_sizes(cs, axis, area), true) == along_of(axis, area),
{
    let along = along_of(axis, area);
    let mins = child_mins(cs, axis);
    let weights = child_weights(cs);
    let n = cs.len() as int;
    let seps = separator_count(n);
    assert(seps as int == n - 1);
    crate::layout::lemma_prefix_sum_bound(mins, n);
    assert(mins.len() == n);
    assert(along >= needed(cs, axis));
    let len = (along - seps) as u16;
    let sizes = split_sizes(cs, axis, area);
    assert(sizes == distribution(len, weights, mins));
    lemma_distribution_keeps_minimums(len, weights, mins);
    lemma_distribution_fills(len, weights, mins);
    assert forall|i: int| 0 <= i < n implies #[trigger] sizes[i] >= 1 by {
        assert(sizes[i] >= mins[i]);
        assert(mins[i] == min_len(cs[i].1, axis));
    }
    lemma_span_exact(sizes, true);
}


/// Whether a cell lies in a rectangle.
pub open spec fn rect_holds(r: Rect, x: int, y: int) -> bool {
    r.x <= x < r.x + r.w && r.y <= y < r.y + r.h
}

/// Whether a cell lies on a separator.
pub open spec fn sep_holds(s: Separator, x: int, y: int) -> bool {
    if s.vertical {
        x == s.x && s.y <= y < s.y + s.len
    } else {
        y == s.y && s.x <= x < s.x + s.len
    }
}

/// Whether a cell lies in a placed pane or on a separator.
pub open spec fn covered(p: (Seq<(PaneId, Rect)>, Seq<Separator>), x: int, y: int) -> bool {
    ||| exists|i: int| 0 <= i < p.0.len() && rect_holds(#[trigger] p.0[i].1, x, y)
    ||| exists|j: int| 0 <= j < p.1.len() && sep_holds(#[trigger] p.1[j], x, y)
}

/// A cell covered by one part of a placement is covered by the whole.
proof fn lemma_covered_join(
    seps: Seq<Separator>,
    a: (Seq<(PaneId, Rect)>, Seq<Separator>),
    b: (Seq<(PaneId, Rect)>, Seq<Separator>),
    x: int,
    y: int,
)
    requires
        covered(a, x, y) || covered(b, x, y),
    ensures
        covered((a.0 + b.0, seps + a.1 + b.1), x, y),
{
    let joined = (a.0 + b.0, seps + a.1 + b.1);
    if exists|i: int| 0 <= i < a.0.len() && rect_holds(#[trigger] a.0[i].1, x, y) {
        let i = choose|i: int| 0 <= i < a.0.len() && rect_holds(#[trigger] a.0[i].1, x, y);
        assert(joined.0[i] == a.0[i]);
    } else if exists|j: int| 0 <= j < a.1.len() && sep_holds(#[trigger] a.1[j], x, y) {
        let j = choose|j: int| 0 <= j < a.1.len() && sep_holds(#[trigger] a.1[j], x, y);
        assert(joined.1[seps.len() + j] == a.1[j]);
    } else if exists|i: int| 0 <= i < b.0.len() && rect_holds(#[trigger] b.0[i].1, x, y) {
        let i = choose|i: int| 0 <= i < b.0.len() && rect_holds(#[trigger] b.0[i].1, x, y);
        assert(joined.0[a.0.len() + i] == b.0[i]);
    } else {
        let j = choose|j: int| 0 <= j < b.1.len() && sep_holds(#[trigger] b.1[j], x, y);
        assert(joined.1[seps.len() + a.1.len() + j] == b.1[j]);
    }
}

/// Every tree in normal shape needs at least one cell either way.
proof fn lemma_wf_min_positive(t: Tree, axis: Axis)
    requires
        tree_wf(t),
    ensures
        min_len(t, axis) >= 1,
    decreases t,
{
    if let Tree::Branch(own, cs) = t {
        if own == axis {
            let last = cs.len() - 1;
            assert(decreases_to!(t => cs));
            assert(decreases_to!(cs => cs[last]));
            assert(decreases_to!(cs[last] => cs[last].1));
            lemma_children_wf_at(cs, own, last);
            lemma_wf_min_positive(cs[last].1, axis);
            crate::layout::lemma_sum_mins_nonneg(cs.drop_last(), axis);
            assert(cs.last() == cs[last]);
        } else {
            assert(decreases_to!(t => cs));
            assert(decreases_to!(cs => cs[0]));
            assert(decreases_to!(cs[0] => cs[0].1));
            assert(tree_wf(cs[0].1));
            lemma_wf_min_positive(cs[0].1, axis);
            lemma_max_mins(cs, axis);
        }
    }
}

/// The position of a cell along `axis`.
pub open spec fn pos(axis: Axis, x: int, y: int) -> int {
    match axis {
        Axis::Horizontal => x,
        Axis::Vertical => y,
    }
}

/// Where `area` starts along `axis`.
pub open spec fn start(axis: Axis, area: Rect) -> int {
    match axis {
        Axis::Horizontal => area.x as int,
        Axis::Vertical => area.y as int,
    }
}

/// Whether a cell lies within `area` across `axis`.
pub open spec fn across_holds(axis: Axis, area: Rect, x: int, y: int) -> bool {
    match axis {
        Axis::Horizontal => area.y <= y < area.y + area.h,
        Axis::Vertical => area.x <= x < area.x + area.w,
    }
}

proof fn lemma_children_cover(
    cs: Seq<(u32, Tree)>,
    sizes: Seq<u16>,
    axis: Axis,
    area: Rect,
    offset: int,
    first: bool,
    x: int,
    y: int,
)
    requires
        children_wf(cs, axis),
        children_exact(cs),
        sizes.len() == cs.len(),
        forall|i: int| 0 <= i < cs.len() ==> #[trigger] sizes[i] >= min_len(cs[i].1, axis) && sizes[i] >= 1,
        forall|i: int| 0 <= i < cs.len() ==> min_len(#[trigger] cs[i].1, across(axis)) <= along_of(across(axis), area),
        along_of(across(axis), area) > 0,
        addressable(area),
        0 <= offset,
        offset + span(sizes, first) <= along_of(axis, area),
        offset <= pos(axis, x, y) - start(axis, area) < offset + span(sizes, first),
        across_holds(axis, area, x, y),
    ensures
        covered(place_children(cs, sizes, axis, area, offset, first), x, y),
    decreases cs, 1int,
{
    if cs.len() == 0 {
        assert(span(sizes, first) == 0);
    } else {
        assert(decreases_to!(cs => cs[0]));
        assert(decreases_to!(cs[0] => cs[0].1));
        let rest_cs = cs.drop_first();
        let rest_sizes = sizes.drop_first();
        assert(sizes[0] >= 1);
        let at = if first { offset } else { offset + 1 };
        let o = pos(axis, x, y) - start(axis, area);
        let seps: Seq<Separator> = if first { Seq::empty() } else { seq![separator_at(axis, area, offset)] };
        let inner_area = child_area(axis, area, at, sizes[0]);
        let inner = place_tree(cs[0].1, inner_area);
        let rest = place_children(rest_cs, rest_sizes, axis, area, at + sizes[0], false);
        assert(place_children(cs, sizes, axis, area, offset, first) == (inner.0 + rest.0, seps + inner.1
            + rest.1));
        lemma_span_total(rest_sizes, false);
        if !first && o == offset {
            let joined = (inner.0 + rest.0, seps + inner.1 + rest.1);
            assert(joined.1[0] == separator_at(axis, area, offset));
            assert(sep_holds(joined.1[0], x, y));
        } else if o < at + sizes[0] {
            assert(tree_wf(cs[0].1) && exact_mins(cs[0].1));
            assert(min_len(cs[0].1, across(axis)) <= along_of(across(axis), area));
            assert(sizes[0] >= min_len(cs[0].1, axis));
            lemma_tree_covers(cs[0].1, inner_area, x, y);
            lemma_covered_join(seps, inner, rest, x, y);
        } else {
            assert forall|i: int| 0 <= i < rest_cs.len() implies #[trigger] rest_sizes[i] >= min_len(
                rest_cs[i].1,
                axis,
            ) && rest_sizes[i] >= 1 by {
                assert(rest_cs[i] == cs[i + 1] && rest_sizes[i] == sizes[i + 1]);
            }
            assert forall|i: int| 0 <= i < rest_cs.len() implies min_len(#[trigger] rest_cs[i].1, across(axis))
                <= along_of(across(axis), area) by {
                assert(rest_cs[i] == cs[i + 1]);
            }
            lemma_children_cover(rest_cs, rest_sizes, axis, area, at + sizes[0], false, x, y);
            lemma_covered_join(seps, inner, rest, x, y);
        }
    }
}

proof fn lemma_tree_covers(t: Tree, area: Rect, x: int, y: int)
    requires
        exact_mins(t),
        tree_wf(t),
        area.w >= min_len(t, Axis::Horizontal),
        area.h >= min_len(t, Axis::Vertical),
        area.w > 0,
        area.h > 0,
        addressable(area),
        rect_holds(area, x, y),
    ensures
        covered(place_tree(t, area), x, y),
    decreases t, 0int,
{
    match t {
        Tree::Leaf(p) => {
            assert(place_tree(t, area).0[0].1 == area);
        },
        Tree::Branch(axis, cs) => {
            let n = cs.len() as int;
            let mins = child_mins(cs, axis);
            let weights = child_weights(cs);
            lemma_children_exact_all(cs);
            lemma_sum_mins_prefix(cs, axis, n);
            assert(cs.take(n) =~= cs);
            assert forall|i: int| 0 <= i < n implies min_len(#[trigger] cs[i].1, axis) >= 1 by {
                lemma_children_wf_at(cs, axis, i);
                lemma_wf_min_positive(cs[i].1, axis);
            }
            lemma_split_fills(cs, axis, area);
            let seps = separator_count(n);
            let len = (along_of(axis, area) - seps) as u16;
            lemma_distribution_keeps_minimums(len, weights, mins);
            let sizes = split_sizes(cs, axis, area);
            assert(sizes == distribution(len, weights, mins));
            lemma_max_mins(cs, across(axis));
            assert forall|i: int| 0 <= i < n implies min_len(#[trigger] cs[i].1, across(axis))
                <= along_of(across(axis), area) by {
                assert(min_len(cs[i].1, across(axis)) <= max_mins(cs, across(axis)));
            }
            assert forall|i: int| 0 <= i < n implies #[trigger] sizes[i] >= min_len(cs[i].1, axis)
                && sizes[i] >= 1 by {
                assert(sizes[i] >= mins[i]);
            }
            lemma_children_cover(cs, sizes, axis, area, 0, true, x, y);
        },
    }
}

proof fn lemma_children_wf_at(cs: Seq<(u32, Tree)>, axis: Axis, i: int)
    requires
        children_wf(cs, axis),
        0 <= i < cs.len(),
    ensures
        tree_wf(cs[i].1),
    decreases i,
{
    if i > 0 {
        lemma_children_wf_at(cs.drop_first(), axis, i - 1);
        assert(cs.drop_first()[i - 1] == cs[i]);
    }
}

/// In an area that holds a normalized tree's minimum size, placing it
/// leaves no cell uncovered: every cell lies in a pane's rectangle or on a
/// separator.
pub proof fn lemma_placement_covers(t: Tree, area: Rect, x: int, y: int)
    requires
        exact_mins(t),
        tree_wf(t),
        area.w >= min_len(t, Axis::Horizontal),
        area.h >= min_len(t, Axis::Vertical),
        addressable(area),
        rect_holds(area, x, y),
    ensures
        covered(placement_of(t, area), x, y),
{
    lemma_tree_covers(t, area, x, y);
}

}
