use vstd::prelude::*;

verus! {

/// `start`, `start + step`, `start + 2 * step`, ... while below `end`.
pub open spec fn stepped(start: int, end: int, step: int) -> Seq<int>
    decreases (if start < end { end - start } else { 0 }),
{
    if start >= end || step <= 0 {
        Seq::empty()
    } else {
        seq![start].add(stepped(start + step, end, step))
    }
}

/// `ceil((end - start) / step)` for `start < end` and `step > 0`.
pub open spec fn steps_count(start: int, end: int, step: int) -> int {
    (end - start + step - 1) / step
}

/// Stepping from `start` below `end` by `step` yields `ceil((end - start) / step)`
/// numbers, strictly increasing, each below `end`, the first of them `start`
/// and each the one before plus `step`.
pub proof fn lemma_stepped(start: int, end: int, step: int)
    requires
        start < end,
        step >= 1,
    ensures
        stepped(start, end, step).len() == steps_count(start, end, step),
        stepped(start, end, step)[0] == start,
        forall|i: int|
            0 <= i < stepped(start, end, step).len() ==> #[trigger] stepped(start, end, step)[i] < end
                && stepped(start, end, step)[i] == start + i * step,
        forall|i: int, j: int|
            0 <= i < j < stepped(start, end, step).len() ==> #[trigger] stepped(start, end, step)[i]
                < #[trigger] stepped(start, end, step)[j],
    decreases end - start,
{
    let s = stepped(start, end, step);
    if start + step < end {
        lemma_stepped(start + step, end, step);
        let rest = stepped(start + step, end, step);
        assert(s == seq![start].add(rest));
        assert((end - start + step - 1) / step == (end - (start + step) + step - 1) / step + 1) by {
            lemma_div_shift(end - start - 1, step);
        }
        assert forall|i: int| 0 <= i < s.len() implies #[trigger] s[i] < end && s[i] == start + i * step by {
            if i > 0 {
                assert(s[i] == rest[i - 1]);
                assert(start + step + (i - 1) * step == start + i * step) by (nonlinear_arith);
            }
        }
    } else {
        assert(stepped(start + step, end, step) == Seq::<int>::empty());
        assert(s =~= seq![start]);
        assert(s[0] == start + 0 * step);
        assert((end - start + step - 1) / step == 1) by {
            lemma_div_one(end - start + step - 1, step);
        }
    }
}

proof fn lemma_div_shift(a: int, step: int)
    requires
        a >= step,
        step >= 1,
    ensures
        (a + step) / step == (a - step + step) / step + 1,
{
    assert((a + step) / step == a / step + 1) by (nonlinear_arith)
        requires
            step >= 1,
    {
        vstd::arithmetic::div_mod::lemma_div_plus_one(a, step);
    }
}

proof fn lemma_div_one(a: int, step: int)
    requires
        step <= a < 2 * step,
        step >= 1,
    ensures
        a / step == 1,
{
    vstd::arithmetic::div_mod::lemma_div_is_ordered(step, a, step);
    vstd::arithmetic::div_mod::lemma_div_by_self(step);
    vstd::arithmetic::div_mod::lemma_div_plus_one(a - step, step);
    vstd::arithmetic::div_mod::lemma_basic_div(a - step, step);
}

} // verus!
