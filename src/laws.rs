use vstd::prelude::*;
use crate::blocklist::{lemma_block_terms_within, lemma_partition_complete};
use crate::extent::{lemma_extents_terms_within, terms_within};
use crate::kernel::{accumulates, fold_chain};
use crate::radbuf::Rgb;
use crate::scene::{channel_result, patch_ok, Scene};

verus! {

/// Trading the radiance buffers twice gives back the scene one started with.
pub proof fn lemma_swap_twice<T>(s0: Scene<T>, s1: Scene<T>, s2: Scene<T>)
    requires
        s0.swapped(s1),
        s1.swapped(s2),
    ensures
        s2 == s0,
{
}

/// In a well-formed scene, the bucketed step and the run-by-run step apply
/// to each patch the same (neighbor index, weight) pairs, each as often;
/// only the order of accumulation differs.
pub proof fn lemma_paths_apply_same_pairs<T>(s: Scene<T>, i: int)
    requires
        s.wf(),
        0 <= i < s.num_patches(),
    ensures
        s.terms_of(i, false).to_multiset() == s.terms_of(i, true).to_multiset(),
        s.terms_of(i, false).len() == s.terms_of(i, true).len(),
{
    assert(s.blocks@[i].wf());
    lemma_partition_complete(s.extents@[i]@);
    s.terms_of(i, false).to_multiset_ensures();
    s.terms_of(i, true).to_multiset_ensures();
}

/// `step` keeps `p`: from an accumulator and a radiance in `p`, a
/// reflectance in `dp` and a weight in `wp`, every result is in `p`.
pub open spec fn step_keeps<T, F: Fn(T, T, T, T) -> T>(
    step: F,
    p: spec_fn(T) -> bool,
    dp: spec_fn(T) -> bool,
    wp: spec_fn(T) -> bool,
) -> bool {
    forall|a: T, x: T, d: T, w: T, r: T|
        p(a) && p(x) && dp(d) && wp(w) && #[trigger] call_ensures(step, (a, x, d, w), r) ==> p(r)
}

/// `plus` keeps `p`: the sum of two values in `p` is in `p`.
pub open spec fn plus_keeps<T, G: Fn(T, T) -> T>(plus: G, p: spec_fn(T) -> bool) -> bool {
    forall|e: T, a: T, r: T| p(e) && p(a) && #[trigger] call_ensures(plus, (e, a), r) ==> p(r)
}

/// All three channels of every patch's radiance in the front buffer are in `p`.
pub open spec fn front_in<T>(s: Scene<T>, p: spec_fn(T) -> bool) -> bool {
    forall|i: int|
        0 <= i < s.num_patches() ==> {
            let c = #[trigger] s.rad_front.at(i);
            p(c.r) && p(c.g) && p(c.b)
        }
}

/// All three channels of every patch's emission are in `p`.
pub open spec fn emit_in<T>(s: Scene<T>, p: spec_fn(T) -> bool) -> bool {
    forall|i: int|
        0 <= i < s.num_patches() ==> {
            let c = #[trigger] s.emit@[i];
            p(c.r) && p(c.g) && p(c.b)
        }
}

/// All three channels of every patch's reflectance are in `dp`.
pub open spec fn diffuse_in<T>(s: Scene<T>, dp: spec_fn(T) -> bool) -> bool {
    forall|i: int|
        0 <= i < s.num_patches() ==> {
            let c = #[trigger] s.diffuse@[i];
            dp(c.r) && dp(c.g) && dp(c.b)
        }
}

/// Every weight a patch accumulates with is in `wp`.
pub open spec fn weights_in<T>(s: Scene<T>, via_extents: bool, wp: spec_fn(T) -> bool) -> bool {
    forall|i: int, k: int|
        0 <= i < s.num_patches() && 0 <= k < s.terms_of(i, via_extents).len() ==> wp(
            #[trigger] s.terms_of(i, via_extents)[k].1,
        )
}

/// `ss` is a run of propagation steps, each scene the step after the one before.
pub open spec fn steps<T, F: Fn(T, T, T, T) -> T, G: Fn(T, T) -> T>(
    ss: Seq<Scene<T>>,
    step: F,
    plus: G,
    via_extents: bool,
) -> bool {
    forall|k: int|
        0 <= k < ss.len() - 1 ==> (#[trigger] ss[k]).propagates_to(
            ss[k + 1],
            step,
            plus,
            via_extents,
        )
}

proof fn lemma_chain_keeps<T, F: Fn(T, T, T, T) -> T>(
    step: F,
    src: Seq<T>,
    d: T,
    ts: Seq<(int, T)>,
    accs: Seq<T>,
    k: int,
    p: spec_fn(T) -> bool,
    dp: spec_fn(T) -> bool,
    wp: spec_fn(T) -> bool,
)
    requires
        fold_chain(step, src, d, ts, accs),
        0 <= k <= ts.len(),
        p(accs[0]),
        dp(d),
        terms_within(ts, src.len() as int),
        forall|j: int| 0 <= j < ts.len() ==> wp(#[trigger] ts[j].1),
        forall|j: int| 0 <= j < src.len() ==> p(#[trigger] src[j]),
        step_keeps(step, p, dp, wp),
    ensures
        p(accs[k]),
    decreases k,
{
    if k > 0 {
        lemma_chain_keeps(step, src, d, ts, accs, k - 1, p, dp, wp);
        let j = k - 1;
        assert(call_ensures(step, (accs[j], src[ts[j].0], d, ts[j].1), accs[j + 1]));
        assert(0 <= ts[k - 1].0 < src.len());
        assert(p(src[ts[k - 1].0]));
        assert(wp(ts[k - 1].1));
    }
}

proof fn lemma_channel_keeps<T, F: Fn(T, T, T, T) -> T, G: Fn(T, T) -> T>(
    step: F,
    plus: G,
    src: Seq<T>,
    d: T,
    e: T,
    ts: Seq<(int, T)>,
    zero: T,
    out: T,
    p: spec_fn(T) -> bool,
    dp: spec_fn(T) -> bool,
    wp: spec_fn(T) -> bool,
)
    requires
        channel_result(step, plus, src, d, e, ts, zero, out),
        p(zero),
        p(e),
        dp(d),
        terms_within(ts, src.len() as int),
        forall|j: int| 0 <= j < ts.len() ==> wp(#[trigger] ts[j].1),
        forall|j: int| 0 <= j < src.len() ==> p(#[trigger] src[j]),
        step_keeps(step, p, dp, wp),
        plus_keeps(plus, p),
    ensures
        p(out),
{
    let acc = choose|acc: T|
        #[trigger] accumulates(step, src, d, ts, zero, acc) && call_ensures(plus, (e, acc), out);
    let accs = choose|accs: Seq<T>|
        #[trigger] fold_chain(step, src, d, ts, accs) && accs[0] == zero && accs.last() == acc;
    lemma_chain_keeps(step, src, d, ts, accs, ts.len() as int, p, dp, wp);
}

proof fn lemma_terms_of_within<T>(s: Scene<T>, i: int, via_extents: bool)
    requires
        s.wf(),
        0 <= i < s.num_patches(),
    ensures
        terms_within(s.terms_of(i, via_extents), s.num_patches()),
{
    if via_extents {
        assert(patch_ok(s.extents@[i]@, s.num_patches()));
        lemma_extents_terms_within(s.extents@[i]@, s.num_patches());
    } else {
        assert(s.blocks@[i].within(s.num_patches()));
        lemma_block_terms_within(s.blocks@[i], s.num_patches());
    }
}

proof fn lemma_step_keeps_front<T, F: Fn(T, T, T, T) -> T, G: Fn(T, T) -> T>(
    before: Scene<T>,
    after: Scene<T>,
    step: F,
    plus: G,
    via_extents: bool,
    p: spec_fn(T) -> bool,
    dp: spec_fn(T) -> bool,
    wp: spec_fn(T) -> bool,
)
    requires
        before.wf(),
        before.propagates_to(after, step, plus, via_extents),
        p(before.zero),
        front_in(before, p),
        emit_in(before, p),
        diffuse_in(before, dp),
        weights_in(before, via_extents, wp),
        step_keeps(step, p, dp, wp),
        plus_keeps(plus, p),
    ensures
        front_in(after, p),
{
    let n = before.num_patches();
    let src = before.rad_front;
    assert forall|i: int| 0 <= i < after.num_patches() implies {
        let c = #[trigger] after.rad_front.at(i);
        p(c.r) && p(c.g) && p(c.b)
    } by {
        let ts = before.terms_of(i, via_extents);
        let d = before.diffuse@[i];
        let e = before.emit@[i];
        let c = after.rad_front.at(i);
        lemma_terms_of_within(before, i, via_extents);
        assert(forall|j: int| 0 <= j < ts.len() ==> wp(#[trigger] ts[j].1));
        assert(dp(d.r) && dp(d.g) && dp(d.b));
        assert(p(e.r) && p(e.g) && p(e.b));
        assert forall|j: int| 0 <= j < src.r@.len() implies p(#[trigger] src.r@[j]) by {
            assert(p(src.at(j).r));
        }
        assert forall|j: int| 0 <= j < src.g@.len() implies p(#[trigger] src.g@[j]) by {
            assert(p(src.at(j).g));
        }
        assert forall|j: int| 0 <= j < src.b@.len() implies p(#[trigger] src.b@[j]) by {
            assert(p(src.at(j).b));
        }
        lemma_channel_keeps(step, plus, src.r@, d.r, e.r, ts, before.zero, c.r, p, dp, wp);
        lemma_channel_keeps(step, plus, src.g@, d.g, e.g, ts, before.zero, c.g, p, dp, wp);
        lemma_channel_keeps(step, plus, src.b@, d.b, e.b, ts, before.zero, c.b, p, dp, wp);
    }
}

/// A property of sample values that the arithmetic keeps, and that holds of
/// zero, of every emission and of the starting radiance, holds of the
/// radiance after any number of propagation steps. With `p` "is not
/// negative", reflectances and weights not negative, this is the energy
/// law: non-negative inputs never give negative radiance.
pub proof fn lemma_steps_keep_property<T, F: Fn(T, T, T, T) -> T, G: Fn(T, T) -> T>(
    ss: Seq<Scene<T>>,
    step: F,
    plus: G,
    via_extents: bool,
    p: spec_fn(T) -> bool,
    dp: spec_fn(T) -> bool,
    wp: spec_fn(T) -> bool,
)
    requires
        ss.len() > 0,
        ss[0].wf(),
        steps(ss, step, plus, via_extents),
        p(ss[0].zero),
        front_in(ss[0], p),
        emit_in(ss[0], p),
        diffuse_in(ss[0], dp),
        weights_in(ss[0], via_extents, wp),
        step_keeps(step, p, dp, wp),
        plus_keeps(plus, p),
    ensures
        forall|k: int| 0 <= k < ss.len() ==> front_in(#[trigger] ss[k], p),
{
    assert forall|k: int| 0 <= k < ss.len() implies front_in(#[trigger] ss[k], p) by {
        lemma_steps_keep_upto(ss, step, plus, via_extents, p, dp, wp, k);
    }
}

/// With zero emission and zero starting radiance, and arithmetic that
/// gives zero when the accumulator and the radiance are zero, whatever the
/// reflectance and weight, and when both terms of a sum are zero, repeated
/// propagation steps leave all radiance at zero.
pub proof fn lemma_zero_stays_zero<T, F: Fn(T, T, T, T) -> T, G: Fn(T, T) -> T>(
    ss: Seq<Scene<T>>,
    step: F,
    plus: G,
    via_extents: bool,
)
    requires
        ss.len() > 0,
        ss[0].wf(),
        steps(ss, step, plus, via_extents),
        forall|i: int|
            0 <= i < ss[0].num_patches() ==> #[trigger] ss[0].emit@[i] == (Rgb {
                r: ss[0].zero,
                g: ss[0].zero,
                b: ss[0].zero,
            }),
        forall|i: int|
            0 <= i < ss[0].num_patches() ==> #[trigger] ss[0].rad_front.at(i) == (Rgb {
                r: ss[0].zero,
                g: ss[0].zero,
                b: ss[0].zero,
            }),
        forall|d: T, w: T, r: T|
            #[trigger] call_ensures(step, (ss[0].zero, ss[0].zero, d, w), r) ==> r == ss[0].zero,
        forall|r: T| #[trigger] call_ensures(plus, (ss[0].zero, ss[0].zero), r) ==> r == ss[0].zero,
    ensures
        forall|k: int, i: int|
            0 <= k < ss.len() && 0 <= i < ss[0].num_patches() ==> #[trigger] ss[k].rad_front.at(i)
                == (Rgb { r: ss[0].zero, g: ss[0].zero, b: ss[0].zero }),
{
    let z = ss[0].zero;
    let p = |v: T| v == z;
    let t = |v: T| true;
    assert(step_keeps(step, p, t, t)) by {
        assert forall|a: T, x: T, d: T, w: T, r: T|
            p(a) && p(x) && t(d) && t(w) && #[trigger] call_ensures(step, (a, x, d, w), r) implies p(
            r,
        ) by {
            assert(call_ensures(step, (z, z, d, w), r));
        }
    }
    assert(plus_keeps(plus, p)) by {
        assert forall|e: T, a: T, r: T| p(e) && p(a) && #[trigger] call_ensures(plus, (e, a), r) implies p(r) by {
            assert(call_ensures(plus, (z, z), r));
        }
    }
    assert(front_in(ss[0], p)) by {
        assert forall|i: int| 0 <= i < ss[0].num_patches() implies {
            let c = #[trigger] ss[0].rad_front.at(i);
            p(c.r) && p(c.g) && p(c.b)
        } by {
            assert(ss[0].rad_front.at(i) == (Rgb { r: z, g: z, b: z }));
        }
    }
    assert(emit_in(ss[0], p)) by {
        assert forall|i: int| 0 <= i < ss[0].num_patches() implies {
            let c = #[trigger] ss[0].emit@[i];
            p(c.r) && p(c.g) && p(c.b)
        } by {
            assert(ss[0].emit@[i] == (Rgb { r: z, g: z, b: z }));
        }
    }
    lemma_steps_keep_property(ss, step, plus, via_extents, p, t, t);
    assert forall|k: int, i: int|
        0 <= k < ss.len() && 0 <= i < ss[0].num_patches() implies #[trigger] ss[k].rad_front.at(i)
        == (Rgb { r: z, g: z, b: z }) by {
        lemma_steps_keep_upto(ss, step, plus, via_extents, p, t, t, k);
        assert(front_in(ss[k], p));
        let c = ss[k].rad_front.at(i);
        assert(p(c.r) && p(c.g) && p(c.b));
    }
}

proof fn lemma_steps_keep_upto<T, F: Fn(T, T, T, T) -> T, G: Fn(T, T) -> T>(
    ss: Seq<Scene<T>>,
    step: F,
    plus: G,
    via_extents: bool,
    p: spec_fn(T) -> bool,
    dp: spec_fn(T) -> bool,
    wp: spec_fn(T) -> bool,
    k: int,
)
    requires
        0 <= k < ss.len(),
        ss[0].wf(),
        steps(ss, step, plus, via_extents),
        p(ss[0].zero),
        front_in(ss[0], p),
        emit_in(ss[0], p),
        diffuse_in(ss[0], dp),
        weights_in(ss[0], via_extents, wp),
        step_keeps(step, p, dp, wp),
        plus_keeps(plus, p),
    ensures
        front_in(ss[k], p),
        ss[k].wf(),
        ss[0].same_setup(ss[k]),
        ss[k].emit@ == ss[0].emit@,
    decreases k,
{
    if k > 0 {
        lemma_steps_keep_upto(ss, step, plus, via_extents, p, dp, wp, k - 1);
        let a = ss[k - 1];
        let b = ss[k];
        assert(a.propagates_to(b, step, plus, via_extents));
        assert(emit_in(a, p));
        assert(diffuse_in(a, dp));
        assert forall|i: int, j: int|
            0 <= i < a.num_patches() && 0 <= j < a.terms_of(i, via_extents).len() implies wp(
            #[trigger] a.terms_of(i, via_extents)[j].1,
        ) by {
            assert(a.terms_of(i, via_extents) == ss[0].terms_of(i, via_extents));
        }
        lemma_step_keeps_front(a, b, step, plus, via_extents, p, dp, wp);
        assert(b.wf());
    }
}

} // verus!
