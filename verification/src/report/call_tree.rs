//! The hot call tree of a report: every distinct root-side prefix of the
//! ranked stacks becomes a node that carries the cost of the stacks passing
//! through it (inclusive) and of the stacks ending in it (self).

use vstd::prelude::*;
use vstd::relations::sorted_by;

use crate::sorting::{sort_by_rank, total_preorder};
use crate::text::{chars_lt, chars_order, compare_str, lemma_chars_order, strict_total};
use crate::report::{
    rframe_view_fn, sat_abs, saturating_abs, ProfileReport, same_text, sat_add, saturating_add, stack_view_fn, ReportFrame, StackStat, StackStatModel,
};

verus! {

/// `a - b`, clamped to the range of `i64`.
pub open spec fn sat_sub(a: i64, b: i64) -> i64 {
    if a - b > i64::MAX {
        i64::MAX
    } else if a - b < i64::MIN {
        i64::MIN
    } else {
        (a - b) as i64
    }
}

fn saturating_sub(a: i64, b: i64) -> (r: i64)
    ensures
        r == sat_sub(a, b),
{
    if b < 0 && a > i64::MAX + b {
        i64::MAX
    } else if b > 0 && a < i64::MIN + b {
        i64::MIN
    } else {
        a - b
    }
}

/// A frame as a key of the tree: function, file and line.
pub type FrameKey = (Seq<char>, Seq<char>, i64);

/// The frames from the root down to node `i`, following parent links;
/// empty where `i` names no node.
pub open spec fn path_of(frames: Seq<FrameKey>, parents: Seq<Option<usize>>, i: int) -> Seq<FrameKey>
    decreases i,
{
    if 0 <= i < frames.len() && i < parents.len() {
        match parents[i] {
            Some(p) => if p < i {
                path_of(frames, parents, p as int).push(frames[i])
            } else {
                seq![frames[i]]
            },
            None => seq![frames[i]],
        }
    } else {
        Seq::empty()
    }
}

/// Every parent link points to an earlier node.
pub open spec fn parents_first(parents: Seq<Option<usize>>) -> bool {
    forall|i: int| 0 <= i < parents.len() && (#[trigger] parents[i]) is Some ==> parents[i]->0 < i
}

/// `frames` begins with `path`.
pub open spec fn starts_with(frames: Seq<FrameKey>, path: Seq<FrameKey>) -> bool {
    path.len() <= frames.len() && frames.take(path.len() as int) == path
}

/// The stacks whose frames begin with `path`.
pub open spec fn begins_with(path: Seq<FrameKey>) -> spec_fn(Seq<FrameKey>) -> bool {
    |frames: Seq<FrameKey>| starts_with(frames, path)
}

/// The stacks whose frames are exactly `path`.
pub open spec fn exactly(path: Seq<FrameKey>) -> spec_fn(Seq<FrameKey>) -> bool {
    |frames: Seq<FrameKey>| frames == path
}

/// Every stack.
pub open spec fn any_frames() -> spec_fn(Seq<FrameKey>) -> bool {
    |frames: Seq<FrameKey>| true
}

/// The saturating sum, taken in stack order, of the values of the stacks
/// whose frames satisfy `hit`.
pub open spec fn stacks_total(stacks: Seq<StackStatModel>, hit: spec_fn(Seq<FrameKey>) -> bool) -> i64
    decreases stacks.len(),
{
    if stacks.len() == 0 {
        0
    } else {
        let rest = stacks_total(stacks.drop_last(), hit);
        if hit(stacks.last().frames) {
            sat_add(rest, stacks.last().value)
        } else {
            rest
        }
    }
}

/// Some node has the path `p`.
pub open spec fn has_path(frames: Seq<FrameKey>, parents: Seq<Option<usize>>, p: Seq<FrameKey>) -> bool {
    exists|i: int| 0 <= i < frames.len() && #[trigger] path_of(frames, parents, i) == p
}

/// One of the first `n` stacks begins with `p`.
pub open spec fn reached_by(stacks: Seq<StackStatModel>, n: int, p: Seq<FrameKey>) -> bool {
    exists|j: int| 0 <= j < n && #[trigger] starts_with(stacks[j].frames, p)
}

proof fn lemma_path_shape(frames: Seq<FrameKey>, parents: Seq<Option<usize>>, i: int)
    requires
        frames.len() == parents.len(),
        parents_first(parents),
        0 <= i < frames.len(),
    ensures
        path_of(frames, parents, i).len() >= 1,
        path_of(frames, parents, i).last() == frames[i],
        parents[i] is None <==> path_of(frames, parents, i).len() == 1,
        parents[i] matches Some(p) ==> (path_of(frames, parents, i).drop_last() == path_of(frames, parents, p as int)),
    decreases i,
{
    if let Some(p) = parents[i] {
        assert(p < i);
        lemma_path_shape(frames, parents, p as int);
        assert(path_of(frames, parents, i).drop_last() =~= path_of(frames, parents, p as int));
    }
}

proof fn lemma_path_push(
    frames: Seq<FrameKey>,
    parents: Seq<Option<usize>>,
    f: FrameKey,
    q: Option<usize>,
    i: int,
)
    requires
        frames.len() == parents.len(),
        0 <= i < frames.len(),
    ensures
        path_of(frames.push(f), parents.push(q), i) == path_of(frames, parents, i),
    decreases i,
{
    assert(frames.push(f)[i] == frames[i]);
    assert(parents.push(q)[i] == parents[i]);
    if let Some(p) = parents[i] {
        if p < i {
            lemma_path_push(frames, parents, f, q, p as int);
        }
    }
}

proof fn lemma_paths_after_push(frames: Seq<FrameKey>, parents: Seq<Option<usize>>, f: FrameKey, q: Option<usize>)
    requires
        frames.len() == parents.len(),
    ensures
        forall|i: int| 0 <= i < frames.len() ==>
            #[trigger] path_of(frames.push(f), parents.push(q), i) == path_of(frames, parents, i),
        forall|p: Seq<FrameKey>| has_path(frames, parents, p) ==> #[trigger] has_path(frames.push(f), parents.push(q), p),
{
    assert forall|i: int| 0 <= i < frames.len() implies
        #[trigger] path_of(frames.push(f), parents.push(q), i) == path_of(frames, parents, i) by {
        lemma_path_push(frames, parents, f, q, i);
    }
    assert forall|p: Seq<FrameKey>| has_path(frames, parents, p) implies #[trigger] has_path(frames.push(f), parents.push(q), p) by {
        let i = choose|i: int| 0 <= i < frames.len() && #[trigger] path_of(frames, parents, i) == p;
        assert(path_of(frames.push(f), parents.push(q), i) == p);
    }
}

proof fn lemma_total_step(stacks: Seq<StackStatModel>, k: int, hit: spec_fn(Seq<FrameKey>) -> bool)
    requires
        0 <= k < stacks.len(),
    ensures
        stacks_total(stacks.take(k + 1), hit) == (if hit(stacks[k].frames) {
            sat_add(stacks_total(stacks.take(k), hit), stacks[k].value)
        } else {
            stacks_total(stacks.take(k), hit)
        }),
{
    assert(stacks.take(k + 1).drop_last() =~= stacks.take(k));
}

proof fn lemma_total_none(stacks: Seq<StackStatModel>, hit: spec_fn(Seq<FrameKey>) -> bool)
    requires
        forall|j: int| 0 <= j < stacks.len() ==> !hit(#[trigger] stacks[j].frames),
    ensures
        stacks_total(stacks, hit) == 0,
    decreases stacks.len(),
{
    if stacks.len() > 0 {
        let rest = stacks.drop_last();
        assert forall|j: int| 0 <= j < rest.len() implies !hit(#[trigger] rest[j].frames) by {
            assert(rest[j] == stacks[j]);
        }
        lemma_total_none(rest, hit);
        assert(!hit(stacks[stacks.len() - 1].frames));
    }
}

/// A call tree as a mathematical value: the root's costs, and one entry of
/// each sequence per node below the root.
pub struct CallTreeModel {
    pub value: i64,
    pub self_value: i64,
    pub frames: Seq<FrameKey>,
    pub parents: Seq<Option<usize>>,
    pub values: Seq<i64>,
    pub self_values: Seq<i64>,
}

impl CallTreeModel {
    /// The frames from the root down to node `i`.
    #[verifier::inline]
    pub open spec fn path(self, i: int) -> Seq<FrameKey> {
        path_of(self.frames, self.parents, i)
    }

    /// The number of nodes below the root.
    #[verifier::inline]
    pub open spec fn len(self) -> nat {
        self.frames.len()
    }

    /// One entry per node in each sequence, and parents before children.
    pub open spec fn shaped(self) -> bool {
        &&& self.parents.len() == self.frames.len()
        &&& self.values.len() == self.frames.len()
        &&& self.self_values.len() == self.frames.len()
        &&& parents_first(self.parents)
    }
}

/// No two nodes have the same path.
pub open spec fn distinct_paths(t: CallTreeModel) -> bool {
    forall|i: int, j: int| 0 <= i < j < t.len() ==> #[trigger] t.path(i) != #[trigger] t.path(j)
}

/// `t` is the call tree of `stacks`: the root carries the cost of all
/// stacks; each node is one
/// distinct nonempty prefix of some stack, every such prefix is a node, and
/// each node carries the cost of the stacks that begin with its path
/// (inclusive) and of the stacks that are exactly its path (self).
pub open spec fn is_call_tree_of(t: CallTreeModel, stacks: Seq<StackStatModel>) -> bool {
    &&& t.shaped()
    &&& t.value == stacks_total(stacks, any_frames())
    &&& distinct_paths(t)
    &&& forall|i: int| 0 <= i < t.len() ==> #[trigger] reached_by(stacks, stacks.len() as int, t.path(i))
    &&& forall|k: int, m: int| 0 <= k < stacks.len() && 1 <= m <= stacks[k].frames.len()
        ==> #[trigger] has_path(t.frames, t.parents, stacks[k].frames.take(m))
    &&& forall|i: int| 0 <= i < t.len() ==> #[trigger] t.values[i] == stacks_total(stacks, begins_with(t.path(i)))
    &&& forall|i: int| 0 <= i < t.len() ==> #[trigger] t.self_values[i] == stacks_total(stacks, exactly(t.path(i)))
}

/// The hot call tree of a set of ranked stacks. Node `i` hangs below node
/// `parent(i)`, or below the root where that is `None`.
pub struct CallTree {
    value: i64,
    self_value: i64,
    frames: Vec<ReportFrame>,
    parents: Vec<Option<usize>>,
    values: Vec<i64>,
    self_values: Vec<i64>,
}

impl CallTree {
    pub closed spec fn view(&self) -> CallTreeModel {
        CallTreeModel {
            value: self.value,
            self_value: self.self_value,
            frames: self.frames@.map_values(rframe_view_fn()),
            parents: self.parents@,
            values: self.values@,
            self_values: self.self_values@,
        }
    }
}

fn same_parent(a: Option<usize>, b: Option<usize>) -> (r: bool)
    ensures
        r == (a == b),
{
    match (a, b) {
        (None, None) => true,
        (Some(x), Some(y)) => x == y,
        _ => false,
    }
}

fn same_frame(a: &ReportFrame, b: &ReportFrame) -> (r: bool)
    ensures
        r == (a@ == b@),
{
    same_text(a.function.as_str(), b.function.as_str()) && same_text(a.file.as_str(), b.file.as_str())
        && a.line == b.line
}

/// The node below `parent` whose frame is `frame`, if there is one.
fn find_child(frames: &Vec<ReportFrame>, parents: &Vec<Option<usize>>, parent: Option<usize>, frame: &ReportFrame) -> (r: Option<usize>)
    requires
        frames.len() == parents.len(),
    ensures
        match r {
            Some(i) => i < frames.len() && parents@[i as int] == parent && frames@[i as int]@ == frame@,
            None => forall|i: int| 0 <= i < frames.len() ==> !(parents@[i] == parent && #[trigger] frames@[i]@ == frame@),
        },
{
    let mut i: usize = 0;
    while i < frames.len()
        invariant
            frames.len() == parents.len(),
            i <= frames.len(),
            forall|j: int| 0 <= j < i ==> !(parents@[j] == parent && #[trigger] frames@[j]@ == frame@),
        decreases frames.len() - i,
    {
        if same_parent(parents[i], parent) && same_frame(&frames[i], frame) {
            return Some(i);
        }
        i = i + 1;
    }
    None
}

fn copy_frame(f: &ReportFrame) -> (r: ReportFrame)
    ensures
        r@ == f@,
{
    ReportFrame { function: f.function.clone(), file: f.file.clone(), line: f.line }
}

/// `t` is the call tree of the first `k` stacks.
spec fn built_from(t: CallTreeModel, ss: Seq<StackStatModel>, k: int) -> bool {
    &&& 0 <= k <= ss.len()
    &&& t.shaped()
    &&& t.value == stacks_total(ss.take(k), any_frames())
    &&& t.self_value == stacks_total(ss.take(k), exactly(Seq::empty()))
    &&& distinct_paths(t)
    &&& forall|i: int| 0 <= i < t.len() ==> #[trigger] reached_by(ss, k, t.path(i))
    &&& forall|j: int, m: int| 0 <= j < k && 1 <= m <= ss[j].frames.len()
        ==> #[trigger] has_path(t.frames, t.parents, ss[j].frames.take(m))
    &&& forall|i: int| 0 <= i < t.len() ==> #[trigger] t.values[i] == stacks_total(ss.take(k), begins_with(t.path(i)))
    &&& forall|i: int| 0 <= i < t.len() ==> #[trigger] t.self_values[i] == stacks_total(ss.take(k), exactly(t.path(i)))
}

proof fn lemma_starts_with_step(fs: Seq<FrameKey>, m: int, p: Seq<FrameKey>)
    requires
        0 <= m < fs.len(),
    ensures
        starts_with(fs.take(m), p) ==> starts_with(fs.take(m + 1), p),
        starts_with(fs.take(m + 1), p) && p != fs.take(m + 1) ==> starts_with(fs.take(m), p),
        starts_with(fs.take(m + 1), p) ==> starts_with(fs, p),
        starts_with(fs, fs.take(m + 1)),
        !starts_with(fs.take(m), fs.take(m + 1)),
{
    if starts_with(fs.take(m), p) {
        assert(fs.take(m + 1).take(p.len() as int) =~= fs.take(m).take(p.len() as int));
    }
    if starts_with(fs.take(m + 1), p) {
        assert(fs.take(p.len() as int) =~= fs.take(m + 1).take(p.len() as int));
        if p != fs.take(m + 1) {
            if p.len() == m + 1 {
                assert(fs.take(m + 1).take(m + 1) =~= fs.take(m + 1));
            }
            assert(fs.take(m).take(p.len() as int) =~= fs.take(m + 1).take(p.len() as int));
        }
    }
    assert(fs.take(m + 1).take(m + 1) =~= fs.take(m + 1));
}

impl CallTree {
    fn new() -> (r: CallTree)
        ensures
            forall|ss: Seq<StackStatModel>| #[trigger] built_from(r@, ss, 0),
    {
        let r = CallTree {
            value: 0,
            self_value: 0,
            frames: Vec::new(),
            parents: Vec::new(),
            values: Vec::new(),
            self_values: Vec::new(),
        };
        assert forall|ss: Seq<StackStatModel>| #[trigger] built_from(r@, ss, 0) by {
            assert(ss.take(0).len() == 0);
        }
        r
    }

    /// Passes stack `k` (which is `stack`) down the tree, creating the
    /// nodes of its prefixes that are not there yet.
    #[verifier::spinoff_prover]
    #[verifier::rlimit(40)]
    fn add_stack(&mut self, stack: &StackStat, Ghost(ss): Ghost<Seq<StackStatModel>>, Ghost(k): Ghost<int>)
        requires
            0 <= k < ss.len(),
            ss[k] == stack@,
            built_from(old(self)@, ss, k),
        ensures
            built_from(final(self)@, ss, k + 1),
    {
        let v = stack.value;
        let ghost fs = ss[k].frames;
        proof {
            lemma_total_step(ss, k, any_frames());
        }
        self.value = saturating_add(self.value, v);
        proof {
            let t = self@;
            assert forall|i: int| 0 <= i < t.len() implies #[trigger] reached_by(ss, k + 1, t.path(i)) by {
                assert(reached_by(ss, k, t.path(i)));
                let j = choose|j: int| 0 <= j < k && #[trigger] starts_with(ss[j].frames, t.path(i));
                assert(starts_with(ss[j].frames, t.path(i)));
            }
        }
        let mut node: Option<usize> = None;
        let mut m: usize = 0;
        while m < stack.frames.len()
            invariant
                0 <= k < ss.len(),
                ss[k] == stack@,
                fs == ss[k].frames,
                fs == stack.frames@.map_values(rframe_view_fn()),
                v == stack.value,
                m <= stack.frames.len(),
                self@.shaped(),
                self@.value == stacks_total(ss.take(k + 1), any_frames()),
                self@.self_value == stacks_total(ss.take(k), exactly(Seq::empty())),
                distinct_paths(self@),
                forall|i: int| 0 <= i < self@.len() ==> #[trigger] reached_by(ss, k + 1, self@.path(i)),
                forall|j: int, t: int| 0 <= j < k && 1 <= t <= ss[j].frames.len()
                    ==> #[trigger] has_path(self@.frames, self@.parents, ss[j].frames.take(t)),
                forall|t: int| 1 <= t <= m ==> #[trigger] has_path(self@.frames, self@.parents, fs.take(t)),
                m == 0 ==> node is None,
                m > 0 ==> (node matches Some(c) && c < self@.len() && self@.path(c as int) == fs.take(m as int)),
                forall|i: int| 0 <= i < self@.len() ==> #[trigger] self@.values[i] == (if starts_with(fs.take(m as int), self@.path(i)) {
                    stacks_total(ss.take(k + 1), begins_with(self@.path(i)))
                } else {
                    stacks_total(ss.take(k), begins_with(self@.path(i)))
                }),
                forall|i: int| 0 <= i < self@.len() ==> #[trigger] self@.self_values[i] == stacks_total(ss.take(k), exactly(self@.path(i))),
            decreases stack.frames.len() - m,
        {
            let frame = &stack.frames[m];
            let ghost t0 = self@;
            let ghost target = fs.take(m + 1);
            proof {
                assert(fs[m as int] == frame@);
                assert(target =~= fs.take(m as int).push(frame@));
                lemma_starts_with_step(fs, m as int, target);
            }
            let found = find_child(&self.frames, &self.parents, node, frame);
            match found {
                Some(c) => {
                    proof {
                        lemma_path_shape(t0.frames, t0.parents, c as int);
                        assert(t0.frames[c as int] == frame@);
                        if m == 0 {
                            assert(t0.path(c as int) =~= target);
                        } else {
                            assert(t0.path(c as int) == target);
                        }
                        lemma_total_step(ss, k, begins_with(target));
                        assert forall|i: int| 0 <= i < t0.len() && i != c implies
                            starts_with(fs.take(m as int), #[trigger] t0.path(i)) == starts_with(target, t0.path(i)) by {
                            lemma_starts_with_step(fs, m as int, t0.path(i));
                            if i < c {
                                assert(t0.path(i) != t0.path(c as int));
                            } else {
                                assert(t0.path(c as int) != t0.path(i));
                            }
                        }
                    }
                    let nv = saturating_add(self.values[c], v);
                    self.values.set(c, nv);
                    node = Some(c);
                    proof {
                        let t1 = self@;
                        assert forall|i: int| 0 <= i < t1.len() implies #[trigger] t1.values[i] == (if starts_with(target, t1.path(i)) {
                            stacks_total(ss.take(k + 1), begins_with(t1.path(i)))
                        } else {
                            stacks_total(ss.take(k), begins_with(t1.path(i)))
                        }) by {
                            if i != c {
                                assert(t1.values[i] == t0.values[i]);
                                assert(starts_with(fs.take(m as int), t0.path(i)) == starts_with(target, t0.path(i)));
                            } else {
                                assert(target.take(target.len() as int) =~= target);
                            }
                        }
                        assert(has_path(t1.frames, t1.parents, target));
                    }
                }
                None => {
                    proof {
                        assert forall|i: int| 0 <= i < t0.len() implies #[trigger] t0.path(i) != target by {
                            if t0.path(i) == target {
                                lemma_path_shape(t0.frames, t0.parents, i);
                                if m == 0 {
                                    assert(t0.frames[i] == frame@);
                                } else {
                                    let p = t0.parents[i]->0;
                                    assert(t0.path(p as int) =~= fs.take(m as int));
                                    let c = node->0;
                                    if p < c {
                                        assert(t0.path(p as int) != t0.path(c as int));
                                    } else if c < p {
                                        assert(t0.path(c as int) != t0.path(p as int));
                                    }
                                    assert(t0.frames[i] == frame@);
                                }
                            }
                        }
                        assert forall|j: int| 0 <= j < ss.take(k).len() implies
                            !begins_with(target)(#[trigger] ss.take(k)[j].frames) by {
                            assert(ss.take(k)[j] == ss[j]);
                            if starts_with(ss[j].frames, target) {
                                assert(has_path(t0.frames, t0.parents, ss[j].frames.take(m + 1)));
                            }
                        }
                        lemma_total_none(ss.take(k), begins_with(target));
                        assert forall|j: int| 0 <= j < ss.take(k).len() implies
                            !exactly(target)(#[trigger] ss.take(k)[j].frames) by {
                            assert(ss.take(k)[j] == ss[j]);
                            if ss[j].frames == target {
                                assert(ss[j].frames.take(m + 1) =~= target);
                                assert(has_path(t0.frames, t0.parents, ss[j].frames.take(m + 1)));
                            }
                        }
                        lemma_total_none(ss.take(k), exactly(target));
                        lemma_total_step(ss, k, begins_with(target));
                        lemma_paths_after_push(t0.frames, t0.parents, frame@, node);
                        assert forall|i: int| 0 <= i < t0.len() implies
                            starts_with(fs.take(m as int), #[trigger] t0.path(i)) == starts_with(target, t0.path(i)) by {
                            lemma_starts_with_step(fs, m as int, t0.path(i));
                        }
                    }
                    let idx = self.frames.len();
                    let ghost parent = node;
                    self.frames.push(copy_frame(frame));
                    self.parents.push(node);
                    self.values.push(saturating_add(0, v));
                    self.self_values.push(0);
                    node = Some(idx);
                    proof {
                        let t1 = self@;
                        assert(t1.frames =~= t0.frames.push(frame@));
                        assert(t1.parents =~= t0.parents.push(parent));
                        assert(t1.path(idx as int) == target) by {
                            if m == 0 {
                                assert(t1.path(idx as int) =~= seq![frame@]);
                                assert(target =~= seq![frame@]);
                            } else {
                                let p = parent->0;
                                assert(t1.path(p as int) == t0.path(p as int));
                                assert(t1.path(idx as int) == t1.path(p as int).push(frame@));
                            }
                        }
                        assert(target.take(target.len() as int) =~= target);
                        assert forall|i: int, j: int| 0 <= i < j < t1.len() implies #[trigger] t1.path(i) != #[trigger] t1.path(j) by {
                            assert(t1.path(i) == t0.path(i));
                            if j < idx {
                                assert(t1.path(j) == t0.path(j));
                            }
                        }
                        assert forall|i: int| 0 <= i < t1.len() implies #[trigger] t1.values[i] == (if starts_with(target, t1.path(i)) {
                            stacks_total(ss.take(k + 1), begins_with(t1.path(i)))
                        } else {
                            stacks_total(ss.take(k), begins_with(t1.path(i)))
                        }) by {
                            if i < idx {
                                assert(t1.path(i) == t0.path(i));
                                assert(t1.values[i] == t0.values[i]);
                            }
                        }
                        assert forall|i: int| 0 <= i < t1.len() implies #[trigger] t1.self_values[i] == stacks_total(ss.take(k), exactly(t1.path(i))) by {
                            if i < idx {
                                assert(t1.path(i) == t0.path(i));
                                assert(t1.self_values[i] == t0.self_values[i]);
                            }
                        }
                        assert(starts_with(ss[k].frames, target));
                        assert forall|i: int| 0 <= i < t1.len() implies #[trigger] reached_by(ss, k + 1, t1.path(i)) by {
                            if i < idx {
                                assert(t1.path(i) == t0.path(i));
                                assert(reached_by(ss, k + 1, t0.path(i)));
                            } else {
                                assert(starts_with(ss[k].frames, t1.path(i)));
                            }
                        }
                        assert(has_path(t1.frames, t1.parents, target)) by {
                            assert(path_of(t1.frames, t1.parents, idx as int) == target);
                        }
                    }
                }
            }
            m = m + 1;
        }
        proof {
            assert(fs.take(m as int) =~= fs);
        }
        match node {
            None => {
                proof {
                    lemma_total_step(ss, k, exactly(Seq::empty()));
                    assert(fs =~= Seq::<FrameKey>::empty());
                }
                self.self_value = saturating_add(self.self_value, v);
            }
            Some(c) => {
                let ns = saturating_add(self.self_values[c], v);
                self.self_values.set(c, ns);
                proof {
                    lemma_total_step(ss, k, exactly(Seq::empty()));
                }
            }
        }
        proof {
            let t2 = self@;
            assert forall|i: int| 0 <= i < t2.len() implies #[trigger] t2.values[i] == stacks_total(ss.take(k + 1), begins_with(t2.path(i))) by {
                lemma_total_step(ss, k, begins_with(t2.path(i)));
            }
            assert forall|i: int| 0 <= i < t2.len() implies #[trigger] t2.self_values[i] == stacks_total(ss.take(k + 1), exactly(t2.path(i))) by {
                lemma_total_step(ss, k, exactly(t2.path(i)));
                lemma_path_shape(t2.frames, t2.parents, i);
                if let Some(c) = node {
                    if i < c {
                        assert(t2.path(i) != t2.path(c as int));
                    } else if c < i {
                        assert(t2.path(c as int) != t2.path(i));
                    }
                }
            }
            assert forall|j: int, t: int| 0 <= j < k + 1 && 1 <= t <= ss[j].frames.len()
                implies #[trigger] has_path(t2.frames, t2.parents, ss[j].frames.take(t)) by {
                if j == k {
                    assert(has_path(t2.frames, t2.parents, fs.take(t)));
                }
            }
        }
    }
}

impl CallTree {
    /// The call tree of `stacks`, each read from the root caller down to
    /// the sampled leaf; the root's self cost is that of the empty stacks.
    pub fn from_stacks(stacks: &[StackStat]) -> (r: CallTree)
        ensures
            is_call_tree_of(r@, stacks@.map_values(stack_view_fn())),
            r@.self_value == stacks_total(stacks@.map_values(stack_view_fn()), exactly(Seq::empty())),
    {
        let ghost ss = stacks@.map_values(stack_view_fn());
        let mut tree = CallTree::new();
        let mut k: usize = 0;
        assert(built_from(tree@, ss, 0));
        while k < stacks.len()
            invariant
                k <= stacks.len(),
                ss == stacks@.map_values(stack_view_fn()),
                built_from(tree@, ss, k as int),
            decreases stacks.len() - k,
        {
            assert(ss[k as int] == stacks@[k as int]@);
            tree.add_stack(&stacks[k], Ghost(ss), Ghost(k as int));
            k = k + 1;
        }
        assert(ss.take(ss.len() as int) =~= ss);
        tree
    }

    /// The cost of all stacks.
    pub fn root_value(&self) -> (r: i64)
        ensures
            r == self@.value,
    {
        self.value
    }

    /// The cost attributed to the root itself.
    pub fn root_self_value(&self) -> (r: i64)
        ensures
            r == self@.self_value,
    {
        self.self_value
    }

    /// The number of nodes below the root.
    pub fn len(&self) -> (r: usize)
        ensures
            r == self@.len(),
    {
        self.frames.len()
    }

    /// The frame of node `i`.
    pub fn frame(&self, i: usize) -> (r: &ReportFrame)
        requires
            i < self@.len(),
        ensures
            r@ == self@.frames[i as int],
    {
        &self.frames[i]
    }

    /// The inclusive cost of node `i`.
    pub fn value(&self, i: usize) -> (r: i64)
        requires
            self@.shaped(),
            i < self@.len(),
        ensures
            r == self@.values[i as int],
    {
        self.values[i]
    }

    /// The self cost of node `i`.
    pub fn self_value(&self, i: usize) -> (r: i64)
        requires
            self@.shaped(),
            i < self@.len(),
        ensures
            r == self@.self_values[i as int],
    {
        self.self_values[i]
    }

    /// The nodes directly below `parent` (the root where it is `None`), in
    /// increasing order.
    pub fn children(&self, parent: Option<usize>) -> (r: Vec<usize>)
        requires
            self@.shaped(),
        ensures
            forall|x: int| 0 <= x < r.len() ==> r[x] < self@.len() && self@.parents[r[x] as int] == parent,
            forall|x: int, y: int| 0 <= x < y < r.len() ==> r[x] < r[y],
            forall|i: int| 0 <= i < self@.len() && self@.parents[i] == parent ==> r@.contains(i as usize),
    {
        let mut out: Vec<usize> = Vec::new();
        let mut i: usize = 0;
        while i < self.parents.len()
            invariant
                self@.shaped(),
                i <= self@.len(),
                forall|x: int| 0 <= x < out.len() ==> out[x] < i && self@.parents[out[x] as int] == parent,
                forall|x: int, y: int| 0 <= x < y < out.len() ==> out[x] < out[y],
                forall|j: int| 0 <= j < i && self@.parents[j] == parent ==> out@.contains(j as usize),
            decreases self@.len() - i,
        {
            if same_parent(self.parents[i], parent) {
                let ghost before = out@;
                out.push(i);
                proof {
                    assert forall|j: int| 0 <= j < i + 1 && self@.parents[j] == parent implies out@.contains(j as usize) by {
                        if j < i {
                            let x = choose|x: int| 0 <= x < before.len() && before[x] == j as usize;
                            assert(out@[x] == j as usize);
                        } else {
                            assert(out@[out.len() - 1] == j as usize);
                        }
                    }
                }
            }
            i = i + 1;
        }
        out
    }
}

/// The ranking key of node `a`: its absolute inclusive cost and its
/// function name (zero and empty for an index that names no node).
pub open spec fn node_key(t: CallTreeModel, a: usize) -> (i64, Seq<char>) {
    if a < t.values.len() && a < t.frames.len() {
        (sat_abs(t.values[a as int]), t.frames[a as int].0)
    } else {
        (0, Seq::empty())
    }
}

/// Node `a` is shown no later than node `b` among siblings: larger
/// absolute inclusive cost first, then function name in lexicographic order.
pub open spec fn node_le(t: CallTreeModel) -> spec_fn(usize, usize) -> bool {
    |a: usize, b: usize|
        node_key(t, a).0 > node_key(t, b).0 || (node_key(t, a).0 == node_key(t, b).0 && !chars_lt(
            node_key(t, b).1,
            node_key(t, a).1,
        ))
}

proof fn lemma_node_rank_preorder(t: CallTreeModel)
    ensures
        total_preorder(node_le(t)),
{
    lemma_chars_order(Seq::empty(), Seq::empty());
    let lt = |x: Seq<char>, y: Seq<char>| chars_lt(x, y);
    assert(strict_total(lt));
    let le = node_le(t);
    assert forall|a: usize, b: usize, c: usize| #[trigger] le(a, b) && #[trigger] le(b, c) implies le(a, c) by {
        let (na, nb, nc) = (node_key(t, a).1, node_key(t, b).1, node_key(t, c).1);
        if chars_lt(nc, na) && !chars_lt(nb, na) && !chars_lt(nc, nb) {
            if na != nb {
                assert(lt(na, nb) || lt(nb, na));
                assert(lt(nc, na) && lt(na, nb));
            }
        }
    }
    assert forall|a: usize, b: usize| #[trigger] le(a, b) || le(b, a) by {
        let (na, nb) = (node_key(t, a).1, node_key(t, b).1);
        if na != nb {
            assert(lt(na, nb) || lt(nb, na));
            if lt(na, nb) && lt(nb, na) {
                assert(lt(na, na));
            }
        }
    }
    assert forall|a: usize| #[trigger] le(a, a) by {
        assert(!lt(node_key(t, a).1, node_key(t, a).1));
    }
}

impl CallTree {
    fn ranks_before(&self, a: usize, b: usize) -> (r: bool)
        ensures
            r == node_le(self@)(a, b),
    {
        let (va, fa) = if a < self.values.len() && a < self.frames.len() {
            (saturating_abs(self.values[a]), self.frames[a].function.as_str())
        } else {
            (0, "")
        };
        let (vb, fb) = if b < self.values.len() && b < self.frames.len() {
            (saturating_abs(self.values[b]), self.frames[b].function.as_str())
        } else {
            (0, "")
        };
        proof {
            reveal_strlit("");
            assert(""@ =~= Seq::<char>::empty());
            lemma_chars_order(fa@, fb@);
        }
        va > vb || (va == vb && compare_str(fa, fb) != 1)
    }

    /// The nodes directly below `parent` (the root where it is `None`) in
    /// the order they are shown: largest absolute inclusive cost first, then
    /// function name.
    pub fn ranked_children(&self, parent: Option<usize>) -> (r: Vec<usize>)
        requires
            self@.shaped(),
        ensures
            r@.no_duplicates(),
            forall|i: usize| #[trigger] r@.contains(i) <==> (i < self@.len() && self@.parents[i as int] == parent),
            sorted_by(r@, node_le(self@)),
    {
        broadcast use vstd::seq_lib::to_multiset_contains;

        let items = self.children(parent);
        let ghost t = self@;
        let before = |a: &usize, b: &usize| -> (r: bool)
            ensures
                r == node_le(self@)(*a, *b),
        { self.ranks_before(*a, *b) };
        proof {
            lemma_node_rank_preorder(t);
        }
        let r = sort_by_rank(items, before, Ghost(node_le(t)));
        proof {
            assert(items@.no_duplicates()) by {
                assert forall|x: int, y: int| 0 <= x < items@.len() && 0 <= y < items@.len() && x != y implies items@[x] != items@[y] by {
                    if x < y {
                        assert(items@[x] < items@[y]);
                    } else {
                        assert(items@[y] < items@[x]);
                    }
                }
            }
            items@.lemma_multiset_has_no_duplicates();
            assert forall|x: usize| r@.to_multiset().contains(x) implies r@.to_multiset().count(x) == 1 by {
                assert(items@.to_multiset().contains(x));
            }
            r@.lemma_multiset_has_no_duplicates_conv();
            assert forall|i: usize| #[trigger] r@.contains(i) <==> (i < t.len() && t.parents[i as int] == parent) by {
                assert(r@.contains(i) <==> r@.to_multiset().count(i) > 0);
                assert(items@.contains(i) <==> items@.to_multiset().count(i) > 0);
                if items@.contains(i) {
                    let x = choose|x: int| 0 <= x < items@.len() && items@[x] == i;
                    assert(items@[x] < t.len());
                }
            }
        }
        r
    }
}

impl ProfileReport {
    /// The hot call tree of the ranked stacks. The root's self cost is the
    /// part of the total cost that no ranked stack carries.
    pub fn call_tree(&self) -> (r: CallTree)
        ensures
            is_call_tree_of(r@, self@.top_stacks),
            r@.self_value == sat_sub(self@.total_value, sat_abs(r@.value)),
    {
        let stacks = self.top_stacks();
        let mut tree = CallTree::from_stacks(stacks);
        let total = self.total_value();
        tree.self_value = saturating_sub(total, saturating_abs(tree.value));
        tree
    }
}

} // verus!
