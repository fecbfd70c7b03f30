use vstd::prelude::*;
use crate::blocklist::{extents_within, Blocklist};
use crate::extent::{extents_terms, lemma_pieces_terms_push, pieces_terms, run_terms, Extent};

verus! {

/// `step` may be called on any four samples.
pub open spec fn total_step<T, F: Fn(T, T, T, T) -> T>(step: F) -> bool {
    forall|a: T, x: T, d: T, w: T| call_requires(step, (a, x, d, w))
}

/// `accs` lists the accumulator before and after each pair of `ts` when
/// `step` is folded over them: the pair `(j, w)` at position `k` takes
/// `accs[k]` to `accs[k + 1]`, a result of `step(accs[k], src[j], d, w)`.
pub open spec fn fold_chain<T, F: Fn(T, T, T, T) -> T>(
    step: F,
    src: Seq<T>,
    d: T,
    ts: Seq<(int, T)>,
    accs: Seq<T>,
) -> bool {
    &&& accs.len() == ts.len() + 1
    &&& forall|k: int|
        0 <= k < ts.len() ==> call_ensures(
            step,
            (accs[k], src[ts[k].0], d, ts[k].1),
            #[trigger] accs[k + 1],
        )
}

/// `out` is a value that folding `step` over the pairs `ts`, starting from
/// `init`, can give.
pub open spec fn accumulates<T, F: Fn(T, T, T, T) -> T>(
    step: F,
    src: Seq<T>,
    d: T,
    ts: Seq<(int, T)>,
    init: T,
    out: T,
) -> bool {
    exists|accs: Seq<T>|
        #[trigger] fold_chain(step, src, d, ts, accs) && accs[0] == init && accs.last() == out
}

/// Folding over no pairs leaves the accumulator as it was.
pub proof fn lemma_accumulates_empty<T, F: Fn(T, T, T, T) -> T>(
    step: F,
    src: Seq<T>,
    d: T,
    ts: Seq<(int, T)>,
    init: T,
)
    requires
        ts.len() == 0,
    ensures
        accumulates(step, src, d, ts, init, init),
{
    assert(fold_chain(step, src, d, ts, seq![init]));
}

/// One more step extends a fold by one pair.
pub proof fn lemma_accumulates_push<T, F: Fn(T, T, T, T) -> T>(
    step: F,
    src: Seq<T>,
    d: T,
    ts: Seq<(int, T)>,
    t: (int, T),
    init: T,
    mid: T,
    out: T,
)
    requires
        accumulates(step, src, d, ts, init, mid),
        call_ensures(step, (mid, src[t.0], d, t.1), out),
    ensures
        accumulates(step, src, d, ts.push(t), init, out),
{
    let accs = choose|accs: Seq<T>|
        #[trigger] fold_chain(step, src, d, ts, accs) && accs[0] == init && accs.last() == mid;
    let accs2 = accs.push(out);
    let ts2 = ts.push(t);
    assert forall|k: int| 0 <= k < ts2.len() implies call_ensures(
        step,
        (accs2[k], src[ts2[k].0], d, ts2[k].1),
        #[trigger] accs2[k + 1],
    ) by {
        if k < ts.len() {
            assert(accs2[k + 1] == accs[k + 1]);
            assert(call_ensures(step, (accs[k], src[ts[k].0], d, ts[k].1), accs[k + 1]));
        }
    }
    assert(fold_chain(step, src, d, ts2, accs2));
}

/// Two folds, the second started where the first ended, make a fold over both.
pub proof fn lemma_accumulates_concat<T, F: Fn(T, T, T, T) -> T>(
    step: F,
    src: Seq<T>,
    d: T,
    ts1: Seq<(int, T)>,
    ts2: Seq<(int, T)>,
    init: T,
    mid: T,
    out: T,
)
    requires
        accumulates(step, src, d, ts1, init, mid),
        accumulates(step, src, d, ts2, mid, out),
    ensures
        accumulates(step, src, d, ts1 + ts2, init, out),
{
    let a1 = choose|accs: Seq<T>|
        #[trigger] fold_chain(step, src, d, ts1, accs) && accs[0] == init && accs.last() == mid;
    let a2 = choose|accs: Seq<T>|
        #[trigger] fold_chain(step, src, d, ts2, accs) && accs[0] == mid && accs.last() == out;
    let a = a1 + a2.drop_first();
    let ts = ts1 + ts2;
    let n1 = ts1.len();
    assert forall|k: int| 0 <= k < ts.len() implies call_ensures(
        step,
        (a[k], src[ts[k].0], d, ts[k].1),
        #[trigger] a[k + 1],
    ) by {
        if k < n1 {
            assert(call_ensures(step, (a1[k], src[ts1[k].0], d, ts1[k].1), a1[k + 1]));
            if k + 1 == n1 {
                assert(a[k + 1] == a2[0]);
            }
        } else {
            assert(call_ensures(
                step,
                (a2[k - n1], src[ts2[k - n1].0], d, ts2[k - n1].1),
                a2[k - n1 + 1],
            ));
            if k == n1 {
                assert(a[k] == a1.last());
            } else {
                assert(a[k] == a2[k - n1]);
            }
        }
    }
    assert(fold_chain(step, src, d, ts, a));
    if a2.len() == 1 {
        assert(a.last() == a1.last());
    } else {
        assert(a.last() == a2.last());
    }
}

/// Folds `step` over one run of weights on consecutive neighbors
/// `start, start + 1, ...`, whatever its width.
pub fn accumulate_run<T: Copy, F: Fn(T, T, T, T) -> T>(
    step: &F,
    src: &[T],
    d: T,
    start: usize,
    ffs: &[T],
    acc: T,
) -> (out: T)
    requires
        start + ffs@.len() <= src@.len(),
        total_step(*step),
    ensures
        accumulates(*step, src@, d, run_terms(start as int, ffs@), acc, out),
{
    let ghost ts = run_terms(start as int, ffs@);
    let mut out = acc;
    let mut k: usize = 0;
    assert(ts.take(0) =~= Seq::<(int, T)>::empty());
    proof {
        lemma_accumulates_empty(*step, src@, d, ts.take(0), acc);
    }
    while k < ffs.len()
        invariant
            k <= ffs@.len(),
            start + ffs@.len() <= src@.len(),
            total_step(*step),
            ts == run_terms(start as int, ffs@),
            accumulates(*step, src@, d, ts.take(k as int), acc, out),
        decreases ffs@.len() - k,
    {
        let ghost mid = out;
        out = step(out, src[start + k], d, ffs[k]);
        proof {
            lemma_accumulates_push(*step, src@, d, ts.take(k as int), ts[k as int], acc, mid, out);
            assert(ts.take(k + 1) =~= ts.take(k as int).push(ts[k as int]));
        }
        k += 1;
    }
    assert(ts.take(ffs@.len() as int) =~= ts);
    out
}

/// Folds `step` over every pair of a patch's buckets: the single pairs,
/// then the groups of four, then the groups of eight.
pub fn accumulate_block<T: Copy, F: Fn(T, T, T, T) -> T>(
    step: &F,
    src: &[T],
    d: T,
    block: &Blocklist<T>,
    zero: T,
) -> (out: T)
    requires
        block.wf(),
        block.within(src@.len() as int),
        total_step(*step),
    ensures
        accumulates(*step, src@, d, block.terms(), zero, out),
{
    broadcast use vstd::array::array_len_matches_n;

    let ghost s = block.single_terms();
    let ghost g4 = block.groups4();
    let ghost g8 = block.groups8();
    let mut acc = zero;
    let mut i: usize = 0;
    assert(s.take(0) =~= Seq::<(int, T)>::empty());
    proof {
        lemma_accumulates_empty(*step, src@, d, s.take(0), zero);
    }
    while i < block.single.len()
        invariant
            i <= block.single@.len(),
            s == block.single_terms(),
            block.within(src@.len() as int),
            total_step(*step),
            accumulates(*step, src@, d, s.take(i as int), zero, acc),
        decreases block.single@.len() - i,
    {
        let (j, w) = block.single[i];
        assert(s[i as int] == (j as int, w));
        assert(block.buckets().0[i as int].0 < src@.len());
        let ghost mid = acc;
        acc = step(acc, src[j as usize], d, w);
        proof {
            lemma_accumulates_push(*step, src@, d, s.take(i as int), s[i as int], zero, mid, acc);
            assert(s.take(i + 1) =~= s.take(i as int).push(s[i as int]));
        }
        i += 1;
    }
    assert(s.take(block.single@.len() as int) =~= s);
    assert(g4.take(0) =~= Seq::<(int, Seq<T>)>::empty());
    assert(s + pieces_terms(g4.take(0)) =~= s);
    let mut k: usize = 0;
    while k < block.vec4.len()
        invariant
            k <= block.vec4@.len(),
            block.wf(),
            g4 == block.groups4(),
            block.within(src@.len() as int),
            total_step(*step),
            accumulates(*step, src@, d, s + pieces_terms(g4.take(k as int)), zero, acc),
        decreases block.vec4@.len() - k,
    {
        let ghost mid = acc;
        let ghost before = s + pieces_terms(g4.take(k as int));
        assert(g4[k as int] == (block.vec4@[k as int] as int, block.vec4_ff@[k as int]@));
        acc = accumulate_run(step, src, d, block.vec4[k] as usize, block.vec4_ff[k].as_slice(), acc);
        proof {
            let g = g4[k as int];
            lemma_accumulates_concat(*step, src@, d, before, run_terms(g.0, g.1), zero, mid, acc);
            assert(g4.take(k + 1) =~= g4.take(k as int).push(g));
            lemma_pieces_terms_push(g4.take(k as int), g);
            assert(before + run_terms(g.0, g.1) =~= s + pieces_terms(g4.take(k + 1)));
        }
        k += 1;
    }
    assert(g4.take(block.vec4@.len() as int) =~= g4);
    let ghost s4 = s + pieces_terms(g4);
    assert(g8.take(0) =~= Seq::<(int, Seq<T>)>::empty());
    assert(s4 + pieces_terms(g8.take(0)) =~= s4);
    let mut k: usize = 0;
    while k < block.vec8.len()
        invariant
            k <= block.vec8@.len(),
            block.wf(),
            g8 == block.groups8(),
            block.within(src@.len() as int),
            total_step(*step),
            accumulates(*step, src@, d, s4 + pieces_terms(g8.take(k as int)), zero, acc),
        decreases block.vec8@.len() - k,
    {
        let ghost mid = acc;
        let ghost before = s4 + pieces_terms(g8.take(k as int));
        assert(g8[k as int] == (block.vec8@[k as int] as int, block.vec8_ff@[k as int]@));
        acc = accumulate_run(step, src, d, block.vec8[k] as usize, block.vec8_ff[k].as_slice(), acc);
        proof {
            let g = g8[k as int];
            lemma_accumulates_concat(*step, src@, d, before, run_terms(g.0, g.1), zero, mid, acc);
            assert(g8.take(k + 1) =~= g8.take(k as int).push(g));
            lemma_pieces_terms_push(g8.take(k as int), g);
            assert(before + run_terms(g.0, g.1) =~= s4 + pieces_terms(g8.take(k + 1)));
        }
        k += 1;
    }
    assert(g8.take(block.vec8@.len() as int) =~= g8);
    acc
}

/// Folds `step` over the pairs of a patch's runs, run after run.
pub fn accumulate_extents<T: Copy, F: Fn(T, T, T, T) -> T>(
    step: &F,
    src: &[T],
    d: T,
    extents: &Vec<Extent<T>>,
    zero: T,
) -> (out: T)
    requires
        extents_within(extents@, src@.len() as int),
        total_step(*step),
    ensures
        accumulates(*step, src@, d, extents_terms(extents@), zero, out),
{
    let mut acc = zero;
    let mut i: usize = 0;
    assert(extents@.take(0) =~= Seq::<Extent<T>>::empty());
    proof {
        lemma_accumulates_empty(*step, src@, d, extents_terms(extents@.take(0)), zero);
    }
    while i < extents.len()
        invariant
            i <= extents@.len(),
            extents_within(extents@, src@.len() as int),
            total_step(*step),
            accumulates(*step, src@, d, extents_terms(extents@.take(i as int)), zero, acc),
        decreases extents@.len() - i,
    {
        let e = &extents[i];
        assert(crate::extent::extent_within(extents@[i as int], src@.len() as int));
        let ghost mid = acc;
        acc = accumulate_run(step, src, d, e.start as usize, e.ffs.as_slice(), acc);
        proof {
            let before = extents_terms(extents@.take(i as int));
            lemma_accumulates_concat(*step, src@, d, before, e.terms(), zero, mid, acc);
            assert(extents@.take(i + 1).drop_last() =~= extents@.take(i as int));
        }
        i += 1;
    }
    assert(extents@.take(extents@.len() as int) =~= extents@);
    acc
}

} // verus!
