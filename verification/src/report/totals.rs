//! How a report's costs add up: the flat costs of its frames and the costs
//! of its stacks each sum to the cost of the samples that have a stack, which
//! is at most the total.

use vstd::prelude::*;

use crate::assoc::keys_unique;

use crate::pprof::{ProfileModel, SampleModel};
use crate::report::{
    analyzes, bump_cumulative, bump_cumulative_all, bump_flat, identities, key_index, lemma_key_index_found,
    sat_abs, sat_add, stack_frames, stack_values, stat_values, tally_of, FrameIdentity, FrameModel, FrameStatModel,
    ReportModel, StackStatModel,
};

verus! {

/// The sum of `f` over `s`.
pub open spec fn sum_of<T>(s: Seq<T>, f: spec_fn(T) -> int) -> int
    decreases s.len(),
{
    if s.len() == 0 {
        0
    } else {
        sum_of(s.drop_last(), f) + f(s.last())
    }
}

/// The flat cost of a frame statistic.
pub open spec fn flat_cost() -> spec_fn(FrameStatModel) -> int {
    |f: FrameStatModel| f.flat as int
}

/// The cost of a stack statistic.
pub open spec fn stack_cost() -> spec_fn(StackStatModel) -> int {
    |s: StackStatModel| s.value as int
}

/// The sum of the absolute values of sample type `si` over `samples`
/// (samples without one count nothing).
pub open spec fn abs_total(si: nat, samples: Seq<SampleModel>) -> int
    decreases samples.len(),
{
    if samples.len() == 0 {
        0
    } else {
        let s = samples.last();
        abs_total(si, samples.drop_last()) + if si < s.values.len() {
            sat_abs(s.values[si as int]) as int
        } else {
            0
        }
    }
}

/// The sum of the values of sample type `si` over the samples of `samples`
/// whose stack has at least one frame.
pub open spec fn stacked_total(m: ProfileModel, si: nat, samples: Seq<SampleModel>) -> int
    decreases samples.len(),
{
    if samples.len() == 0 {
        0
    } else {
        let s = samples.last();
        stacked_total(m, si, samples.drop_last()) + if si < s.values.len() && stack_frames(
            m,
            s.location_ids,
        ).len() > 0 {
            s.values[si as int] as int
        } else {
            0
        }
    }
}

/// No value of sample type `si` in `samples` is negative.
pub open spec fn values_nonnegative(si: nat, samples: Seq<SampleModel>) -> bool {
    forall|k: int| 0 <= k < samples.len() && si < (#[trigger] samples[k]).values.len() ==> samples[k].values[si as int] >= 0
}

proof fn lemma_sum_update<T>(s: Seq<T>, i: int, x: T, f: spec_fn(T) -> int)
    requires
        0 <= i < s.len(),
    ensures
        sum_of(s.update(i, x), f) == sum_of(s, f) - f(s[i]) + f(x),
    decreases s.len(),
{
    if i == s.len() - 1 {
        assert(s.update(i, x).drop_last() =~= s.drop_last());
    } else {
        assert(s.update(i, x).drop_last() =~= s.drop_last().update(i, x));
        lemma_sum_update(s.drop_last(), i, x, f);
    }
}

proof fn lemma_sum_remove<T>(s: Seq<T>, i: int, f: spec_fn(T) -> int)
    requires
        0 <= i < s.len(),
    ensures
        sum_of(s, f) == sum_of(s.remove(i), f) + f(s[i]),
    decreases s.len(),
{
    if i == s.len() - 1 {
        assert(s.remove(i) =~= s.drop_last());
    } else {
        assert(s.remove(i).drop_last() =~= s.drop_last().remove(i));
        assert(s.remove(i).last() == s.last());
        lemma_sum_remove(s.drop_last(), i, f);
    }
}

proof fn lemma_sum_permutation<T>(a: Seq<T>, b: Seq<T>, f: spec_fn(T) -> int)
    requires
        a.to_multiset() == b.to_multiset(),
    ensures
        sum_of(a, f) == sum_of(b, f),
    decreases a.len(),
{
    broadcast use vstd::seq_lib::group_to_multiset_ensures;

    if a.len() == 0 {
        assert(b.to_multiset().len() == 0);
        assert(b.len() == 0);
    } else {
        let x = a.last();
        assert(a =~= a.drop_last().push(x));
        assert(a.to_multiset().count(x) > 0);
        assert(b.contains(x));
        let j = choose|j: int| 0 <= j < b.len() && b[j] == x;
        assert(b.to_multiset().remove(x) == b.remove(j).to_multiset());
        assert(a.drop_last().to_multiset() =~= a.to_multiset().remove(x));
        lemma_sum_permutation(a.drop_last(), b.remove(j), f);
        lemma_sum_remove(b, j, f);
    }
}

proof fn lemma_sum_nonneg<T>(s: Seq<T>, f: spec_fn(T) -> int)
    requires
        forall|k: int| 0 <= k < s.len() ==> f(#[trigger] s[k]) >= 0,
    ensures
        sum_of(s, f) >= 0,
    decreases s.len(),
{
    if s.len() > 0 {
        assert forall|k: int| 0 <= k < s.drop_last().len() implies f(#[trigger] s.drop_last()[k]) >= 0 by {
            assert(s.drop_last()[k] == s[k]);
        }
        lemma_sum_nonneg(s.drop_last(), f);
        assert(f(s[s.len() - 1]) >= 0);
    }
}

proof fn lemma_sum_nonneg_bound<T>(s: Seq<T>, i: int, f: spec_fn(T) -> int)
    requires
        0 <= i < s.len(),
        forall|k: int| 0 <= k < s.len() ==> f(#[trigger] s[k]) >= 0,
    ensures
        0 <= f(s[i]) <= sum_of(s, f),
    decreases s.len(),
{
    assert forall|k: int| 0 <= k < s.drop_last().len() implies f(#[trigger] s.drop_last()[k]) >= 0 by {
        assert(s.drop_last()[k] == s[k]);
    }
    lemma_sum_nonneg(s.drop_last(), f);
    assert(f(s[s.len() - 1]) >= 0);
    if i < s.len() - 1 {
        lemma_sum_nonneg_bound(s.drop_last(), i, f);
        assert(s.drop_last()[i] == s[i]);
    }
}

proof fn lemma_bump_cumulative_keeps_flat(stats: Seq<(FrameIdentity, FrameStatModel)>, f: FrameModel, v: i64)
    requires
        forall|k: int| 0 <= k < stats.len() ==> (#[trigger] stats[k]).1.flat >= 0,
    ensures
        sum_of(stat_values(bump_cumulative(stats, f, v)), flat_cost()) == sum_of(stat_values(stats), flat_cost()),
        forall|k: int| 0 <= k < bump_cumulative(stats, f, v).len() ==> (#[trigger] bump_cumulative(stats, f, v)[k]).1.flat >= 0,
{
    lemma_key_index_found(stats, f.identity);
    let i = key_index(stats, f.identity);
    let r = bump_cumulative(stats, f, v);
    if i >= 0 {
        assert(stat_values(r) =~= stat_values(stats).update(i, r[i].1));
        lemma_sum_update(stat_values(stats), i, r[i].1, flat_cost());
    } else {
        assert(stat_values(r).drop_last() =~= stat_values(stats));
    }
}

proof fn lemma_cumulative_keeps_flat(stats: Seq<(FrameIdentity, FrameStatModel)>, frames: Seq<FrameModel>, v: i64)
    requires
        forall|k: int| 0 <= k < stats.len() ==> (#[trigger] stats[k]).1.flat >= 0,
    ensures
        sum_of(stat_values(bump_cumulative_all(stats, frames, v)), flat_cost()) == sum_of(stat_values(stats), flat_cost()),
        forall|k: int| 0 <= k < bump_cumulative_all(stats, frames, v).len()
            ==> (#[trigger] bump_cumulative_all(stats, frames, v)[k]).1.flat >= 0,
    decreases frames.len(),
{
    if frames.len() > 0 {
        let before = bump_cumulative_all(stats, frames.drop_last(), v);
        lemma_cumulative_keeps_flat(stats, frames.drop_last(), v);
        if !identities(frames.drop_last()).contains(frames.last().identity) {
            lemma_bump_cumulative_keeps_flat(before, frames.last(), v);
        }
    }
}

proof fn lemma_bump_flat_adds(stats: Seq<(FrameIdentity, FrameStatModel)>, f: FrameModel, v: i64)
    requires
        forall|k: int| 0 <= k < stats.len() ==> (#[trigger] stats[k]).1.flat >= 0,
        v >= 0,
        sum_of(stat_values(stats), flat_cost()) + v <= i64::MAX,
    ensures
        sum_of(stat_values(bump_flat(stats, f, v)), flat_cost()) == sum_of(stat_values(stats), flat_cost()) + v,
        forall|k: int| 0 <= k < bump_flat(stats, f, v).len() ==> (#[trigger] bump_flat(stats, f, v)[k]).1.flat >= 0,
{
    lemma_key_index_found(stats, f.identity);
    let i = key_index(stats, f.identity);
    let r = bump_flat(stats, f, v);
    let sv = stat_values(stats);
    assert forall|k: int| 0 <= k < sv.len() implies flat_cost()(#[trigger] sv[k]) >= 0 by {
        assert(sv[k] == stats[k].1);
    }
    if i >= 0 {
        lemma_sum_nonneg_bound(sv, i, flat_cost());
        assert(sv[i] == stats[i].1);
        assert(stat_values(r) =~= sv.update(i, r[i].1));
        lemma_sum_update(sv, i, r[i].1, flat_cost());
    } else {
        assert(stat_values(r).drop_last() =~= sv);
    }
}

proof fn lemma_tally_sums(m: ProfileModel, si: nat, samples: Seq<SampleModel>)
    requires
        values_nonnegative(si, samples),
        abs_total(si, samples) <= i64::MAX,
    ensures
        ({
            let t = tally_of(m, si, samples);
            &&& t.total == abs_total(si, samples)
            &&& 0 <= stacked_total(m, si, samples) <= abs_total(si, samples)
            &&& sum_of(stat_values(t.stats), flat_cost()) == stacked_total(m, si, samples)
            &&& sum_of(stack_values(t.stacks), stack_cost()) == stacked_total(m, si, samples)
            &&& forall|k: int| 0 <= k < t.stats.len() ==> (#[trigger] t.stats[k]).1.flat >= 0
            &&& forall|k: int| 0 <= k < t.stacks.len() ==> (#[trigger] t.stacks[k]).1.value >= 0
        }),
    decreases samples.len(),
{
    if samples.len() > 0 {
        let init = samples.drop_last();
        let s = samples.last();
        assert(values_nonnegative(si, init)) by {
            assert forall|k: int| 0 <= k < init.len() && si < (#[trigger] init[k]).values.len() implies init[k].values[si as int] >= 0 by {
                assert(init[k] == samples[k]);
            }
        }
        assert(samples[samples.len() - 1] == s);
        lemma_tally_sums(m, si, init);
        let t = tally_of(m, si, init);
        if si < s.values.len() {
            let v = s.values[si as int];
            assert(v >= 0);
            let frames = stack_frames(m, s.location_ids);
            if frames.len() > 0 {
                let key = identities(frames);
                lemma_key_index_found(t.stacks, key);
                let i = key_index(t.stacks, key);
                let t2 = tally_of(m, si, samples);
                let sv = stack_values(t.stacks);
                assert forall|k: int| 0 <= k < sv.len() implies stack_cost()(#[trigger] sv[k]) >= 0 by {
                    assert(sv[k] == t.stacks[k].1);
                }
                if i >= 0 {
                    lemma_sum_nonneg_bound(sv, i, stack_cost());
                    assert(sv[i] == t.stacks[i].1);
                    assert(stack_values(t2.stacks) =~= sv.update(i, t2.stacks[i].1));
                    lemma_sum_update(sv, i, t2.stacks[i].1, stack_cost());
                } else {
                    assert(stack_values(t2.stacks).drop_last() =~= sv);
                }
                lemma_bump_flat_adds(t.stats, frames.last(), v);
                lemma_cumulative_keeps_flat(bump_flat(t.stats, frames.last(), v), frames, v);
            } else {
                lemma_cumulative_keeps_flat(t.stats, frames, v);
            }
        }
    }
}

/// The flat costs of a report's frames and the costs of its stacks add up
/// to the same sum, the cost of the samples that have a stack, which is at
/// most the report's total; no flat cost and no stack cost is negative.
/// This holds where no value of the analysed sample type is negative and
/// their sum fits in an `i64`, so that no sum saturates.
pub proof fn lemma_report_sums(rep: ReportModel, m: ProfileModel, si: nat)
    requires
        analyzes(rep, m, si),
        values_nonnegative(si, m.samples),
        abs_total(si, m.samples) <= i64::MAX,
    ensures
        sum_of(rep.top_frames, flat_cost()) == sum_of(rep.top_stacks, stack_cost()),
        sum_of(rep.top_stacks, stack_cost()) <= rep.total_value,
        forall|i: int| 0 <= i < rep.top_frames.len() ==> (#[trigger] rep.top_frames[i]).flat >= 0,
        forall|i: int| 0 <= i < rep.top_stacks.len() ==> (#[trigger] rep.top_stacks[i]).value >= 0,
{
    broadcast use vstd::seq_lib::group_to_multiset_ensures;

    let t = tally_of(m, si, m.samples);
    lemma_tally_sums(m, si, m.samples);
    lemma_sum_permutation(rep.top_frames, stat_values(t.stats), flat_cost());
    lemma_sum_permutation(rep.top_stacks, stack_values(t.stacks), stack_cost());
    assert forall|i: int| 0 <= i < rep.top_frames.len() implies (#[trigger] rep.top_frames[i]).flat >= 0 by {
        let x = rep.top_frames[i];
        assert(rep.top_frames.to_multiset().count(x) > 0);
        assert(stat_values(t.stats).contains(x));
        let k = choose|k: int| 0 <= k < stat_values(t.stats).len() && stat_values(t.stats)[k] == x;
        assert(stat_values(t.stats)[k] == t.stats[k].1);
    }
    assert forall|i: int| 0 <= i < rep.top_stacks.len() implies (#[trigger] rep.top_stacks[i]).value >= 0 by {
        let x = rep.top_stacks[i];
        assert(rep.top_stacks.to_multiset().count(x) > 0);
        assert(stack_values(t.stacks).contains(x));
        let k = choose|k: int| 0 <= k < stack_values(t.stacks).len() && stack_values(t.stacks)[k] == x;
        assert(stack_values(t.stacks)[k] == t.stacks[k].1);
    }
}

proof fn lemma_tally_stacks_nonempty(m: ProfileModel, si: nat, samples: Seq<SampleModel>)
    ensures
        forall|k: int| 0 <= k < tally_of(m, si, samples).stacks.len()
            ==> (#[trigger] tally_of(m, si, samples).stacks[k]).1.frames.len() > 0,
    decreases samples.len(),
{
    if samples.len() > 0 {
        let init = samples.drop_last();
        let s = samples.last();
        lemma_tally_stacks_nonempty(m, si, init);
        let t = tally_of(m, si, init);
        if si < s.values.len() {
            let frames = stack_frames(m, s.location_ids);
            lemma_key_index_found(t.stacks, identities(frames));
            let t2 = tally_of(m, si, samples);
            if frames.len() > 0 && key_index(t.stacks, identities(frames)) < 0 {
                assert(t2.stacks.last().1.frames.len() == frames.len());
            }
        }
    }
}

/// Every ranked stack of a report has at least one frame: samples with an
/// empty stack add to the total cost only.
pub proof fn lemma_report_stacks_nonempty(rep: ReportModel, m: ProfileModel, si: nat)
    requires
        analyzes(rep, m, si),
    ensures
        forall|i: int| 0 <= i < rep.top_stacks.len() ==> (#[trigger] rep.top_stacks[i]).frames.len() > 0,
{
    broadcast use vstd::seq_lib::group_to_multiset_ensures;

    let t = tally_of(m, si, m.samples);
    lemma_tally_stacks_nonempty(m, si, m.samples);
    assert forall|i: int| 0 <= i < rep.top_stacks.len() implies (#[trigger] rep.top_stacks[i]).frames.len() > 0 by {
        let x = rep.top_stacks[i];
        assert(rep.top_stacks.to_multiset().count(x) > 0);
        assert(stack_values(t.stacks).contains(x));
        let k = choose|k: int| 0 <= k < stack_values(t.stacks).len() && stack_values(t.stacks)[k] == x;
        assert(stack_values(t.stacks)[k] == t.stacks[k].1);
    }
}

/// No identity keys two statistics.
pub open spec fn stat_keys_unique(stats: Seq<(FrameIdentity, FrameStatModel)>) -> bool {
    forall|i: int, j: int| 0 <= i < j < stats.len() ==> stats[i].0 != stats[j].0
}

proof fn lemma_key_index_of_unique(stats: Seq<(FrameIdentity, FrameStatModel)>, k: int)
    requires
        stat_keys_unique(stats),
        0 <= k < stats.len(),
    ensures
        key_index(stats, stats[k].0) == k,
{
    crate::report::lemma_key_index(stats, stats[k].0, k);
}

proof fn lemma_bump_cumulative_shape(stats: Seq<(FrameIdentity, FrameStatModel)>, f: FrameModel, v: i64)
    requires
        stat_keys_unique(stats),
    ensures
        ({
            let r = bump_cumulative(stats, f, v);
            &&& stat_keys_unique(r)
            &&& r.len() >= stats.len()
            &&& r.len() <= stats.len() + 1
            &&& forall|k: int| 0 <= k < stats.len() ==> {
                &&& (#[trigger] r[k]).0 == stats[k].0
                &&& r[k].1.flat == stats[k].1.flat
                &&& r[k].1.cumulative == if stats[k].0 == f.identity {
                    sat_add(stats[k].1.cumulative, v)
                } else {
                    stats[k].1.cumulative
                }
            }
            &&& r.len() == stats.len() + 1 ==> {
                &&& r.last().0 == f.identity
                &&& r.last().1.flat == 0
                &&& r.last().1.cumulative == v
                &&& forall|k: int| 0 <= k < stats.len() ==> stats[k].0 != f.identity
            }
        }),
{
    lemma_key_index_found(stats, f.identity);
    let i = key_index(stats, f.identity);
    if i >= 0 {
        assert forall|k: int| 0 <= k < stats.len() && k != i implies stats[k].0 != f.identity by {
            if k < i {
                assert(stats[k].0 != stats[i].0);
            } else {
                assert(stats[i].0 != stats[k].0);
            }
        }
    } else {
        assert forall|k: int| 0 <= k < stats.len() implies stats[k].0 != f.identity by {
            if stats[k].0 == f.identity {
                lemma_key_index_of_unique(stats, k);
            }
        }
    }
}

proof fn lemma_cumulative_shape(stats: Seq<(FrameIdentity, FrameStatModel)>, frames: Seq<FrameModel>, v: i64)
    requires
        stat_keys_unique(stats),
    ensures
        ({
            let r = bump_cumulative_all(stats, frames, v);
            &&& stat_keys_unique(r)
            &&& r.len() >= stats.len()
            &&& forall|k: int| 0 <= k < stats.len() ==> {
                &&& (#[trigger] r[k]).0 == stats[k].0
                &&& r[k].1.flat == stats[k].1.flat
                &&& r[k].1.cumulative == if identities(frames).contains(stats[k].0) {
                    sat_add(stats[k].1.cumulative, v)
                } else {
                    stats[k].1.cumulative
                }
            }
            &&& forall|k: int| stats.len() <= k < r.len() ==> {
                &&& (#[trigger] r[k]).1.flat == 0
                &&& r[k].1.cumulative == v
                &&& identities(frames).contains(r[k].0)
            }
        }),
    decreases frames.len(),
{
    if frames.len() > 0 {
        let init = frames.drop_last();
        let f = frames.last();
        lemma_cumulative_shape(stats, init, v);
        let before = bump_cumulative_all(stats, init, v);
        assert(identities(frames) =~= identities(init).push(f.identity));
        assert forall|x: FrameIdentity| #[trigger] identities(frames).contains(x) <==> (identities(init).contains(x) || x == f.identity) by {
            vstd::seq_lib::lemma_seq_contains_after_push(identities(init), f.identity, x);
        }
        if !identities(init).contains(f.identity) {
            lemma_bump_cumulative_shape(before, f, v);
            let r = bump_cumulative(before, f, v);
            assert forall|k: int| stats.len() <= k < before.len() implies before[k].0 != f.identity by {
                assert(identities(init).contains(before[k].0));
            }
            assert forall|k: int| stats.len() <= k < r.len() implies {
                &&& (#[trigger] r[k]).1.flat == 0
                &&& r[k].1.cumulative == v
                &&& identities(frames).contains(r[k].0)
            } by {
                if k < before.len() {
                    assert(before[k].0 != f.identity);
                    assert(identities(init).contains(before[k].0));
                }
            }
        }
    }
}

proof fn lemma_bump_flat_shape(stats: Seq<(FrameIdentity, FrameStatModel)>, f: FrameModel, v: i64)
    requires
        stat_keys_unique(stats),
    ensures
        ({
            let r = bump_flat(stats, f, v);
            &&& stat_keys_unique(r)
            &&& r.len() >= stats.len()
            &&& r.len() <= stats.len() + 1
            &&& forall|k: int| 0 <= k < stats.len() ==> {
                &&& (#[trigger] r[k]).0 == stats[k].0
                &&& r[k].1.cumulative == stats[k].1.cumulative
                &&& r[k].1.flat == if stats[k].0 == f.identity {
                    sat_add(stats[k].1.flat, v)
                } else {
                    stats[k].1.flat
                }
            }
            &&& r.len() == stats.len() + 1 ==> {
                &&& r.last().0 == f.identity
                &&& r.last().1.flat == v
                &&& r.last().1.cumulative == 0
            }
        }),
{
    lemma_key_index_found(stats, f.identity);
    let i = key_index(stats, f.identity);
    if i >= 0 {
        assert forall|k: int| 0 <= k < stats.len() && k != i implies stats[k].0 != f.identity by {
            if k < i {
                assert(stats[k].0 != stats[i].0);
            } else {
                assert(stats[i].0 != stats[k].0);
            }
        }
    } else {
        assert forall|k: int| 0 <= k < stats.len() implies stats[k].0 != f.identity by {
            if stats[k].0 == f.identity {
                lemma_key_index_of_unique(stats, k);
            }
        }
    }
}

proof fn lemma_tally_frame_bounds(m: ProfileModel, si: nat, samples: Seq<SampleModel>)
    requires
        values_nonnegative(si, samples),
        abs_total(si, samples) <= i64::MAX,
    ensures
        stat_keys_unique(tally_of(m, si, samples).stats),
        forall|k: int| 0 <= k < tally_of(m, si, samples).stats.len() ==> {
            &&& 0 <= (#[trigger] tally_of(m, si, samples).stats[k]).1.flat
            &&& tally_of(m, si, samples).stats[k].1.flat <= tally_of(m, si, samples).stats[k].1.cumulative
            &&& tally_of(m, si, samples).stats[k].1.cumulative <= tally_of(m, si, samples).total
        },
    decreases samples.len(),
{
    if samples.len() > 0 {
        let init = samples.drop_last();
        let s = samples.last();
        assert(values_nonnegative(si, init)) by {
            assert forall|k: int| 0 <= k < init.len() && si < (#[trigger] init[k]).values.len() implies init[k].values[si as int] >= 0 by {
                assert(init[k] == samples[k]);
            }
        }
        assert(samples[samples.len() - 1] == s);
        lemma_tally_sums(m, si, init);
        lemma_tally_sums(m, si, samples);
        lemma_tally_frame_bounds(m, si, init);
        let t = tally_of(m, si, init);
        let t2 = tally_of(m, si, samples);
        if si < s.values.len() {
            let v = s.values[si as int];
            assert(v >= 0);
            let frames = stack_frames(m, s.location_ids);
            if frames.len() > 0 {
                let leaf = frames.last();
                let fl = bump_flat(t.stats, leaf, v);
                lemma_bump_flat_shape(t.stats, leaf, v);
                lemma_cumulative_shape(fl, frames, v);
                assert(identities(frames)[frames.len() - 1] == leaf.identity);
                assert(identities(frames).contains(leaf.identity));
                let r = bump_cumulative_all(fl, frames, v);
                assert(t2.stats == r);
                assert forall|k: int| 0 <= k < r.len() implies {
                    &&& 0 <= (#[trigger] r[k]).1.flat
                    &&& r[k].1.flat <= r[k].1.cumulative
                    &&& r[k].1.cumulative <= t2.total
                } by {
                    if k < t.stats.len() {
                        assert(fl[k].0 == t.stats[k].0);
                    } else if k < fl.len() {
                        assert(fl[k] == fl.last());
                    }
                }
            } else {
                assert(t2.stats == t.stats);
            }
        }
    }
}

/// Every frame of a report has a flat cost no larger than its cumulative
/// cost, which is no larger than the report's total, and none is negative,
/// where no value of the analysed sample type is negative and their sum fits
/// in an `i64`.
pub proof fn lemma_report_frame_bounds(rep: ReportModel, m: ProfileModel, si: nat)
    requires
        analyzes(rep, m, si),
        values_nonnegative(si, m.samples),
        abs_total(si, m.samples) <= i64::MAX,
    ensures
        forall|i: int| 0 <= i < rep.top_frames.len() ==> {
            &&& 0 <= (#[trigger] rep.top_frames[i]).flat
            &&& rep.top_frames[i].flat <= rep.top_frames[i].cumulative
            &&& rep.top_frames[i].cumulative <= rep.total_value
        },
{
    broadcast use vstd::seq_lib::group_to_multiset_ensures;

    let t = tally_of(m, si, m.samples);
    lemma_tally_frame_bounds(m, si, m.samples);
    assert forall|i: int| 0 <= i < rep.top_frames.len() implies {
        &&& 0 <= (#[trigger] rep.top_frames[i]).flat
        &&& rep.top_frames[i].flat <= rep.top_frames[i].cumulative
        &&& rep.top_frames[i].cumulative <= rep.total_value
    } by {
        let x = rep.top_frames[i];
        assert(rep.top_frames.to_multiset().count(x) > 0);
        assert(stat_values(t.stats).contains(x));
        let k = choose|k: int| 0 <= k < stat_values(t.stats).len() && stat_values(t.stats)[k] == x;
        assert(stat_values(t.stats)[k] == t.stats[k].1);
    }
}

proof fn lemma_tally_stack_keys_unique(m: ProfileModel, si: nat, samples: Seq<SampleModel>)
    ensures
        keys_unique(tally_of(m, si, samples).stacks),
    decreases samples.len(),
{
    if samples.len() > 0 {
        let init = samples.drop_last();
        let s = samples.last();
        lemma_tally_stack_keys_unique(m, si, init);
        let t = tally_of(m, si, init);
        if si < s.values.len() {
            let frames = stack_frames(m, s.location_ids);
            let key = identities(frames);
            lemma_key_index_found(t.stacks, key);
            if frames.len() > 0 && key_index(t.stacks, key) < 0 {
                let t2 = tally_of(m, si, samples);
                assert forall|j: int| 0 <= j < t.stacks.len() implies t.stacks[j].0 != key by {
                    if t.stacks[j].0 == key {
                        crate::report::lemma_key_index(t.stacks, key, j);
                    }
                }
                assert forall|i: int, j: int| 0 <= i < j < t2.stacks.len() implies t2.stacks[i].0 != t2.stacks[j].0 by {
                    if j == t.stacks.len() {
                        assert(t2.stacks[i] == t.stacks[i]);
                    }
                }
            }
        }
    }
}

/// The ranked stacks of a report are the stack statistics of its tally,
/// whose keys, the sequences of frame identities, are pairwise distinct: no
/// two ranked stacks come from the same sequence of resolved frames.
pub proof fn lemma_report_stack_keys_distinct(rep: ReportModel, m: ProfileModel, si: nat)
    requires
        analyzes(rep, m, si),
    ensures
        keys_unique(tally_of(m, si, m.samples).stacks),
        rep.top_stacks.to_multiset() == stack_values(tally_of(m, si, m.samples).stacks).to_multiset(),
{
    lemma_tally_stack_keys_unique(m, si, m.samples);
}

} // verus!
