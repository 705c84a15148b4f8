//! The layer resolver: a monotonic-stack pass that, for a sequence of
//! optional heading levels, assigns each position the index of its
//! structural parent within the same sequence.

use vstd::prelude::*;

verus! {

/// A heading level: 1 for `h1` through 6 for `h6`. A numerically smaller
/// level stands higher in the outline.
pub type Level = u8;

/// What a sweep leaves of an open-section stack: the longest prefix whose
/// last entry lies strictly below `level`.
pub open spec fn sweep_spec<T>(s: Seq<(T, Level)>, level: Level) -> Seq<(T, Level)>
    decreases s.len(),
{
    if s.len() > 0 && s.last().1 >= level {
        sweep_spec(s.drop_last(), level)
    } else {
        s
    }
}

/// A sweep keeps a prefix of the stack, drops only entries at or above
/// `level`, and leaves a top strictly below `level`.
pub proof fn lemma_sweep_properties<T>(s: Seq<(T, Level)>, level: Level)
    ensures
        sweep_spec(s, level).len() <= s.len(),
        sweep_spec(s, level) == s.subrange(0, sweep_spec(s, level).len() as int),
        sweep_spec(s, level).len() > 0 ==> sweep_spec(s, level).last().1 < level,
        forall|m: int| sweep_spec(s, level).len() <= m < s.len() ==> s[m].1 >= level,
    decreases s.len(),
{
    if s.len() > 0 && s.last().1 >= level {
        lemma_sweep_properties(s.drop_last(), level);
        let r = sweep_spec(s, level);
        assert(r == sweep_spec(s.drop_last(), level));
        assert(r =~= s.subrange(0, r.len() as int));
        assert forall|m: int| r.len() <= m < s.len() implies s[m].1 >= level by {
            if m < s.len() - 1 {
                assert(s.drop_last()[m] == s[m]);
            }
        }
    }
}

/// A stack of open sections, strictly increasing in level from bottom to
/// top. Each entry pairs a caller-chosen tag with the section's level.
pub struct Context<T> {
    stack: Vec<(T, Level)>,
}

impl<T> View for Context<T> {
    type V = Seq<(T, Level)>;

    closed spec fn view(&self) -> Seq<(T, Level)> {
        self.stack@
    }
}

impl<T> Context<T> {
    pub fn new() -> (c: Self)
        ensures
            c@ == Seq::<(T, Level)>::empty(),
    {
        Context { stack: Vec::new() }
    }

    pub fn last(&self) -> (r: Option<&(T, Level)>)
        ensures
            match r {
                Some(p) => self@.len() > 0 && *p == self@.last(),
                None => self@.len() == 0,
            },
    {
        if self.stack.len() == 0 {
            None
        } else {
            Some(&self.stack[self.stack.len() - 1])
        }
    }

    /// Opens a section. Pushing a level not strictly above the section below
    /// it would break the stack's ordering; the caller sweeps first, so such
    /// a push is a programming defect and is ruled out here.
    pub fn push(&mut self, item: (T, Level))
        requires
            old(self)@.len() > 0 ==> old(self)@.last().1 < item.1,
        ensures
            final(self)@ == old(self)@.push(item),
    {
        self.stack.push(item);
    }

    /// Closes every open section whose level is at `level` or deeper.
    pub fn sweep(&mut self, level: Level)
        ensures
            final(self)@ == sweep_spec(old(self)@, level),
    {
        while self.stack.len() > 0 && self.stack[self.stack.len() - 1].1 >= level
            invariant
                sweep_spec(self.stack@, level) == sweep_spec(old(self)@, level),
            decreases self.stack.len(),
        {
            self.stack.pop();
        }
    }
}

/// The level of an optional heading; 0 stands for "no heading" and only
/// serves comparisons, since real levels lie in 1..=6.
pub open spec fn the_level(o: Option<Level>) -> Level {
    match o {
        Option::Some(l) => l,
        Option::None => 0,
    }
}

/// Position `j` could serve as the structural parent of position `i`: it
/// comes before `i`, it is a heading, and, when `i` is itself a heading,
/// `j`'s level stands strictly higher in the outline (numerically smaller).
pub open spec fn is_candidate(levels: Seq<Option<Level>>, i: int, j: int) -> bool {
    &&& 0 <= j < i
    &&& levels[j] is Some
    &&& (levels[i] is Some ==> the_level(levels[j]) < the_level(levels[i]))
}

/// `p` is the parent the resolver owes position `i`: the latest candidate
/// position, or `i` itself when there is none (meaning "attach directly to
/// the enclosing node").
pub open spec fn parent_ok(levels: Seq<Option<Level>>, i: int, p: int) -> bool {
    if exists|j: int| is_candidate(levels, i, j) {
        is_candidate(levels, i, p) && (forall|j: int| is_candidate(levels, i, j) ==> j <= p)
    } else {
        p == i
    }
}

/// Monotonic nesting: a resolved parent never lies after its position, and a
/// heading's parent is a heading of strictly shallower level.
pub proof fn lemma_monotonic_nesting(levels: Seq<Option<Level>>, i: int, p: int)
    requires
        0 <= i < levels.len(),
        parent_ok(levels, i, p),
    ensures
        0 <= p <= i,
        p != i ==> levels[p] is Some,
        p != i && levels[i] is Some ==> the_level(levels[p]) < the_level(levels[i]),
{
}

/// No-heading identity: over a sequence without headings the resolver owes
/// every position itself as its parent.
pub proof fn lemma_no_heading_identity(levels: Seq<Option<Level>>, i: int, p: int)
    requires
        0 <= i < levels.len(),
        forall|k: int| 0 <= k < levels.len() ==> levels[k] is None,
        parent_ok(levels, i, p),
    ensures
        p == i,
{
    if exists|j: int| is_candidate(levels, i, j) {
        let j = choose|j: int| is_candidate(levels, i, j);
        assert(levels[j] is None);
        assert(false);
    }
}

/// Maps each position of `levels` to the index of its structural parent in
/// the same sequence: the latest earlier heading that can enclose it, or the
/// position itself when no heading encloses it.
#[verifier::rlimit(60)]
pub fn compute_layer_parents(levels: &Vec<Option<Level>>) -> (parents: Vec<usize>)
    ensures
        parents@.len() == levels@.len(),
        forall|i: int| 0 <= i < levels@.len() ==> parent_ok(levels@, i, (#[trigger] parents@[i]) as int),
        forall|i: int| 0 <= i < levels@.len() ==> (#[trigger] parents@[i]) as int <= i,
        forall|i: int|
            0 <= i < levels@.len() && (#[trigger] parents@[i]) as int != i && levels@[i] is Some
                ==> levels@[parents@[i] as int] is Some
                    && the_level(levels@[parents@[i] as int]) < the_level(levels@[i]),
{
    let mut parents: Vec<usize> = Vec::new();
    let mut stack: Context<usize> = Context::new();
    let n = levels.len();
    let mut index: usize = 0;

    while index < n
        invariant
            n == levels@.len(),
            index <= n,
            parents@.len() == index as int,
            forall|i: int| 0 <= i < index as int ==> parent_ok(levels@, i, (#[trigger] parents@[i]) as int),
            forall|m: int|
                0 <= m < stack@.len() ==> (#[trigger] stack@[m]).0 < index
                    && levels@[stack@[m].0 as int] == Option::Some(stack@[m].1),
            forall|m1: int, m2: int|
                0 <= m1 < m2 < stack@.len() ==> (#[trigger] stack@[m1]).0 < (#[trigger] stack@[m2]).0
                    && stack@[m1].1 < stack@[m2].1,
            forall|j: int|
                0 <= j < index as int && (#[trigger] levels@[j]) is Some ==> exists|m: int|
                    0 <= m < stack@.len() && (#[trigger] stack@[m]).0 >= j
                        && stack@[m].1 <= the_level(levels@[j]),
        decreases n - index,
    {
        let ghost pre = stack@;
        let lv: Option<Level> = levels[index];

        if let Some(l) = lv {
            stack.sweep(l);
            proof {
                lemma_sweep_properties(pre, l);
            }
        }

        proof {
            // The swept stack is a prefix of the loop-head stack, so its
            // entries keep the loop-head facts.
            assert forall|m: int| 0 <= m < stack@.len() implies stack@[m] == pre[m] by {
                if lv is Some {
                    assert(stack@ == pre.subrange(0, stack@.len() as int));
                }
            }
        }

        let parent: usize = match stack.last() {
            Some(p) => p.0,
            None => index,
        };

        proof {
            let li = levels@[index as int];
            assert(li == lv);
            if stack@.len() > 0 {
                let top = stack@[stack@.len() - 1];
                assert(parent == top.0);
                assert(is_candidate(levels@, index as int, top.0 as int));
                assert forall|j: int| is_candidate(levels@, index as int, j) implies j <= top.0 as int by {
                    let m = choose|m: int|
                        0 <= m < pre.len() && (#[trigger] pre[m]).0 >= j
                            && pre[m].1 <= the_level(levels@[j]);
                    if li is Some {
                        // the dominating entry lies strictly below the sweep
                        // level, so it survived into the prefix
                        assert(pre[m].1 < the_level(li));
                        assert(m < stack@.len());
                    }
                    if m < stack@.len() - 1 {
                        assert(stack@[m].0 < top.0);
                    }
                }
                assert(parent_ok(levels@, index as int, parent as int));
            } else {
                assert forall|j: int| !is_candidate(levels@, index as int, j) by {
                    if is_candidate(levels@, index as int, j) {
                        let m = choose|m: int|
                            0 <= m < pre.len() && (#[trigger] pre[m]).0 >= j
                                && pre[m].1 <= the_level(levels@[j]);
                        if li is Some {
                            assert(pre[m].1 < the_level(li));
                            assert(m < stack@.len());
                        }
                        assert(false);
                    }
                }
                assert(parent_ok(levels@, index as int, parent as int));
            }
        }

        parents.push(parent);

        let ghost swept = stack@;

        if let Some(l) = lv {
            stack.push((index, l));
        }

        proof {
            // re-establish completeness for the next iteration
            assert forall|j: int|
                0 <= j < index as int + 1 && (#[trigger] levels@[j]) is Some implies exists|m: int|
                    0 <= m < stack@.len() && (#[trigger] stack@[m]).0 >= j
                        && stack@[m].1 <= the_level(levels@[j]) by {
                if lv is Some {
                    let l = the_level(levels@[index as int]);
                    if j == index as int {
                        assert(stack@[stack@.len() - 1].0 >= j);
                    } else if the_level(levels@[j]) >= l {
                        assert(stack@[stack@.len() - 1] == (index, l));
                        assert(stack@[stack@.len() - 1].0 >= j);
                    } else {
                        let m = choose|m: int|
                            0 <= m < pre.len() && (#[trigger] pre[m]).0 >= j
                                && pre[m].1 <= the_level(levels@[j]);
                        assert(pre[m].1 < l);
                        assert(m < swept.len());
                        assert(stack@[m] == swept[m]);
                    }
                } else {
                    if j < index as int {
                        let m = choose|m: int|
                            0 <= m < pre.len() && (#[trigger] pre[m]).0 >= j
                                && pre[m].1 <= the_level(levels@[j]);
                        assert(stack@[m] == pre[m]);
                    }
                }
            }
            // strict ordering with the pushed entry
            assert forall|m1: int, m2: int|
                0 <= m1 < m2 < stack@.len() implies (#[trigger] stack@[m1]).0 < (#[trigger] stack@[m2]).0
                    && stack@[m1].1 < stack@[m2].1 by {
                if lv is Some && m2 == stack@.len() - 1 {
                    assert(stack@[m1] == swept[m1]);
                    if m1 < swept.len() - 1 {
                        assert(swept[m1].1 < swept[swept.len() - 1].1);
                    }
                }
            }
        }

        index = index + 1;
    }

    proof {
        assert forall|i: int| 0 <= i < levels@.len() implies (#[trigger] parents@[i]) as int <= i
            && (parents@[i] as int != i && levels@[i] is Some
                ==> levels@[parents@[i] as int] is Some
                    && the_level(levels@[parents@[i] as int]) < the_level(levels@[i])) by {
            lemma_monotonic_nesting(levels@, i, parents@[i] as int);
        }
    }

    parents
}

} // verus!
