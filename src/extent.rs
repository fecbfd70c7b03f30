use vstd::prelude::*;

verus! {

/// A run of transfer weights from one patch to the consecutive neighbor
/// patches `start, start + 1, ...`, one weight per neighbor.
pub struct Extent<T> {
    pub start: u32,
    pub ffs: Vec<T>,
}

/// The (neighbor index, weight) pairs of a run of weights that begins at `start`.
pub open spec fn run_terms<T>(start: int, ffs: Seq<T>) -> Seq<(int, T)> {
    Seq::new(ffs.len(), |k: int| (start + k, ffs[k]))
}

/// The (neighbor index, weight) pairs of a sequence of runs, run after run.
pub open spec fn pieces_terms<T>(ps: Seq<(int, Seq<T>)>) -> Seq<(int, T)>
    decreases ps.len(),
{
    if ps.len() == 0 {
        Seq::empty()
    } else {
        run_terms(ps[0].0, ps[0].1) + pieces_terms(ps.drop_first())
    }
}

/// The width of the group that begins at neighbor index `pos` when `rem`
/// weights are left: the first of `widths` that is positive, fits in `rem`
/// and divides `pos`; a single lane when none does.
pub open spec fn lane_width(widths: Seq<usize>, pos: int, rem: int) -> int
    decreases widths.len(),
{
    if widths.len() == 0 {
        1
    } else {
        let w = widths[0] as int;
        if 0 < w && w <= rem && pos % w == 0 {
            w
        } else {
            lane_width(widths.drop_first(), pos, rem)
        }
    }
}

/// The aligned groups that a run of weights beginning at `start` splits into.
pub open spec fn aligned_pieces<T>(widths: Seq<usize>, start: int, ffs: Seq<T>) -> Seq<(int, Seq<T>)>
    decreases ffs.len(),
{
    if ffs.len() == 0 {
        Seq::empty()
    } else {
        let w = lane_width(widths, start, ffs.len() as int);
        if 1 <= w && w <= ffs.len() {
            seq![(start, ffs.take(w))] + aligned_pieces(widths, start + w, ffs.skip(w))
        } else {
            Seq::empty()
        }
    }
}

impl<T> Extent<T> {
    /// The (neighbor index, weight) pairs of this run.
    pub open spec fn terms(&self) -> Seq<(int, T)> {
        run_terms(self.start as int, self.ffs@)
    }

    /// Every neighbor index of the run fits in a `u32`.
    pub open spec fn fits(&self) -> bool {
        self.start as int + self.ffs@.len() <= 0x1_0000_0000
    }

    /// The run as a neighbor index and its weights.
    pub open spec fn piece(&self) -> (int, Seq<T>) {
        (self.start as int, self.ffs@)
    }
}

/// The pairs of a sequence of runs, run after run.
pub open spec fn extents_terms<T>(exts: Seq<Extent<T>>) -> Seq<(int, T)>
    decreases exts.len(),
{
    if exts.len() == 0 {
        Seq::empty()
    } else {
        extents_terms(exts.drop_last()) + exts.last().terms()
    }
}

/// The total number of weights of a sequence of runs.
pub open spec fn extents_count<T>(exts: Seq<Extent<T>>) -> int
    decreases exts.len(),
{
    if exts.len() == 0 {
        0
    } else {
        extents_count(exts.drop_last()) + exts.last().ffs@.len()
    }
}

/// The count of a sequence of runs is the number of its pairs.
pub proof fn lemma_extents_count<T>(exts: Seq<Extent<T>>)
    ensures
        extents_count(exts) == extents_terms(exts).len(),
        extents_count(exts) >= 0,
    decreases exts.len(),
{
    if exts.len() > 0 {
        lemma_extents_count(exts.drop_last());
    }
}

/// Every pair of the run names a neighbor below `n`.
pub open spec fn extent_within<T>(e: Extent<T>, n: int) -> bool {
    e.start as int + e.ffs@.len() <= n
}

/// Every group lies inside `[lo, hi)`.
pub open spec fn pieces_inside<T>(ps: Seq<(int, Seq<T>)>, lo: int, hi: int) -> bool {
    forall|k: int|
        0 <= k < ps.len() ==> lo <= (#[trigger] ps[k]).0 && ps[k].0 + ps[k].1.len() <= hi
}

/// The aligned groups of a run lie inside the run.
pub proof fn lemma_aligned_pieces_inside<T>(widths: Seq<usize>, start: int, ffs: Seq<T>)
    ensures
        pieces_inside(aligned_pieces(widths, start, ffs), start, start + ffs.len()),
    decreases ffs.len(),
{
    let ps = aligned_pieces(widths, start, ffs);
    if ffs.len() > 0 {
        let w = lane_width(widths, start, ffs.len() as int);
        lemma_lane_width_bounds(widths, start, ffs.len() as int);
        lemma_aligned_pieces_inside(widths, start + w, ffs.skip(w));
        let rest = aligned_pieces(widths, start + w, ffs.skip(w));
        assert forall|k: int| 0 <= k < ps.len() implies start <= (#[trigger] ps[k]).0 && ps[k].0
            + ps[k].1.len() <= start + ffs.len() by {
            if k > 0 {
                assert(ps[k] == rest[k - 1]);
            }
        }
    }
}

/// Every pair of `ts` names a neighbor in `[0, n)`.
pub open spec fn terms_within<T>(ts: Seq<(int, T)>, n: int) -> bool {
    forall|k: int| 0 <= k < ts.len() ==> 0 <= (#[trigger] ts[k]).0 < n
}

/// Joining two sequences of in-range pairs keeps them in range.
pub proof fn lemma_terms_within_concat<T>(a: Seq<(int, T)>, b: Seq<(int, T)>, n: int)
    requires
        terms_within(a, n),
        terms_within(b, n),
    ensures
        terms_within(a + b, n),
{
    assert forall|k: int| 0 <= k < (a + b).len() implies 0 <= (#[trigger] (a + b)[k]).0 < n by {
        if k < a.len() {
            assert((a + b)[k] == a[k]);
        } else {
            assert((a + b)[k] == b[k - a.len()]);
        }
    }
}

/// Groups inside `[0, n)` give pairs that name neighbors below `n`.
pub proof fn lemma_pieces_terms_within<T>(ps: Seq<(int, Seq<T>)>, n: int)
    requires
        pieces_inside(ps, 0, n),
    ensures
        terms_within(pieces_terms(ps), n),
    decreases ps.len(),
{
    if ps.len() > 0 {
        let q = ps.drop_first();
        assert(pieces_inside(q, 0, n)) by {
            assert forall|k: int| 0 <= k < q.len() implies 0 <= (#[trigger] q[k]).0 && q[k].0
                + q[k].1.len() <= n by {
                assert(q[k] == ps[k + 1]);
            }
        }
        lemma_pieces_terms_within(q, n);
        assert(0 <= ps[0].0 && ps[0].0 + ps[0].1.len() <= n);
        lemma_terms_within_concat(run_terms(ps[0].0, ps[0].1), pieces_terms(q), n);
    }
}

/// Runs inside `[0, n)` give pairs that name neighbors below `n`.
pub proof fn lemma_extents_terms_within<T>(exts: Seq<Extent<T>>, n: int)
    requires
        forall|i: int| 0 <= i < exts.len() ==> extent_within(#[trigger] exts[i], n),
    ensures
        terms_within(extents_terms(exts), n),
    decreases exts.len(),
{
    if exts.len() > 0 {
        let q = exts.drop_last();
        assert forall|i: int| 0 <= i < q.len() implies extent_within(#[trigger] q[i], n) by {
            assert(q[i] == exts[i]);
        }
        lemma_extents_terms_within(q, n);
        assert(extent_within(exts[exts.len() - 1], n));
        lemma_terms_within_concat(extents_terms(q), exts.last().terms(), n);
    }
}

/// A group is at least one wide and never wider than what is left.
pub proof fn lemma_lane_width_bounds(widths: Seq<usize>, pos: int, rem: int)
    requires
        1 <= rem,
    ensures
        1 <= lane_width(widths, pos, rem) <= rem,
    decreases widths.len(),
{
    if widths.len() > 0 {
        lemma_lane_width_bounds(widths.drop_first(), pos, rem);
    }
}

/// The pairs of two joined sequences of runs are the pairs of each, joined.
pub proof fn lemma_pieces_terms_concat<T>(a: Seq<(int, Seq<T>)>, b: Seq<(int, Seq<T>)>)
    ensures
        pieces_terms(a + b) == pieces_terms(a) + pieces_terms(b),
    decreases a.len(),
{
    if a.len() == 0 {
        assert(a + b =~= b);
        assert(pieces_terms(a) + pieces_terms(b) =~= pieces_terms(b));
    } else {
        assert((a + b).drop_first() =~= a.drop_first() + b);
        lemma_pieces_terms_concat(a.drop_first(), b);
        assert(pieces_terms(a + b) =~= pieces_terms(a) + pieces_terms(b));
    }
}

/// Appending a run appends its pairs.
pub proof fn lemma_pieces_terms_push<T>(a: Seq<(int, Seq<T>)>, p: (int, Seq<T>))
    ensures
        pieces_terms(a.push(p)) == pieces_terms(a) + run_terms(p.0, p.1),
{
    lemma_pieces_terms_concat(a, seq![p]);
    assert(a.push(p) =~= a + seq![p]);
    let e = Seq::<(int, Seq<T>)>::empty();
    assert(seq![p].drop_first() =~= e);
    assert(pieces_terms(e) == Seq::<(int, T)>::empty());
    assert(run_terms(p.0, p.1) + Seq::<(int, T)>::empty() =~= run_terms(p.0, p.1));
    assert(pieces_terms(seq![p]) == run_terms(p.0, p.1) + pieces_terms(e));
}

/// Splitting a run into aligned groups keeps its pairs, in their order.
pub proof fn lemma_aligned_pieces_terms<T>(widths: Seq<usize>, start: int, ffs: Seq<T>)
    ensures
        pieces_terms(aligned_pieces(widths, start, ffs)) == run_terms(start, ffs),
    decreases ffs.len(),
{
    let ps = aligned_pieces(widths, start, ffs);
    if ffs.len() == 0 {
        assert(run_terms(start, ffs) =~= Seq::<(int, T)>::empty());
    } else {
        let w = lane_width(widths, start, ffs.len() as int);
        lemma_lane_width_bounds(widths, start, ffs.len() as int);
        let rest = aligned_pieces(widths, start + w, ffs.skip(w));
        lemma_aligned_pieces_terms(widths, start + w, ffs.skip(w));
        assert(ps.drop_first() =~= rest);
        assert(run_terms(start, ffs.take(w)) + run_terms(start + w, ffs.skip(w)) =~= run_terms(
            start,
            ffs,
        ));
    }
}

impl<T: Copy> Extent<T> {
    /// Splits the run into consecutive groups, each as wide as the first
    /// entry of `widths` that fits in what is left and divides the group's
    /// first neighbor index; a group of one where none does.
    pub fn split_aligned(&self, widths: &[usize]) -> (r: Vec<Extent<T>>)
        requires
            self.fits(),
        ensures
            r@.map_values(|e: Extent<T>| e.piece()) == aligned_pieces(
                widths@,
                self.start as int,
                self.ffs@,
            ),
    {
        let n = self.ffs.len();
        let mut r: Vec<Extent<T>> = Vec::new();
        let mut pos: usize = 0;
        proof {
            assert(self.ffs@.skip(0) =~= self.ffs@);
            assert(r@.map_values(|e: Extent<T>| e.piece()) + aligned_pieces(
                widths@,
                self.start as int,
                self.ffs@,
            ) =~= aligned_pieces(widths@, self.start as int, self.ffs@));
        }
        while pos < n
            invariant
                n == self.ffs@.len(),
                self.fits(),
                pos <= n,
                r@.map_values(|e: Extent<T>| e.piece()) + aligned_pieces(
                    widths@,
                    self.start + pos,
                    self.ffs@.skip(pos as int),
                ) == aligned_pieces(widths@, self.start as int, self.ffs@),
            decreases n - pos,
        {
            let ghost rest = self.ffs@.skip(pos as int);
            let ghost before = r@.map_values(|e: Extent<T>| e.piece());
            let at: u32 = self.start + pos as u32;
            let w = pick_lane_width(widths, at, n - pos);
            proof {
                lemma_lane_width_bounds(widths@, at as int, (n - pos) as int);
            }
            let mut ffs: Vec<T> = Vec::new();
            let mut k: usize = 0;
            while k < w
                invariant
                    n == self.ffs@.len(),
                    pos + w <= n,
                    k <= w,
                    ffs@ == self.ffs@.subrange(pos as int, pos + k),
                decreases w - k,
            {
                ffs.push(self.ffs[pos + k]);
                k += 1;
                proof {
                    assert(ffs@ =~= self.ffs@.subrange(pos as int, pos + k));
                }
            }
            let piece = Extent { start: at, ffs };
            r.push(piece);
            proof {
                assert(rest.take(w as int) =~= ffs@);
                assert(rest.skip(w as int) =~= self.ffs@.skip(pos + w));
                assert(r@.map_values(|e: Extent<T>| e.piece()) =~= before.push(
                    (at as int, ffs@),
                ));
                assert(aligned_pieces(widths@, self.start + pos, rest) =~= seq![
                    (at as int, ffs@),
                ] + aligned_pieces(widths@, self.start + pos + w, self.ffs@.skip(pos + w)));
                assert(before.push((at as int, ffs@)) + aligned_pieces(
                    widths@,
                    self.start + pos + w,
                    self.ffs@.skip(pos + w),
                ) =~= before + aligned_pieces(widths@, self.start + pos, rest));
            }
            pos += w;
        }
        proof {
            assert(aligned_pieces(widths@, self.start + pos, self.ffs@.skip(pos as int))
                =~= Seq::<(int, Seq<T>)>::empty());
            assert(r@.map_values(|e: Extent<T>| e.piece()) + Seq::<(int, Seq<T>)>::empty()
                =~= r@.map_values(|e: Extent<T>| e.piece()));
        }
        r
    }
}

/// The width of the group at neighbor index `pos` with `rem` weights left.
fn pick_lane_width(widths: &[usize], pos: u32, rem: usize) -> (w: usize)
    ensures
        w == lane_width(widths@, pos as int, rem as int),
{
    let mut i: usize = 0;
    assert(widths@.skip(0) =~= widths@);
    while i < widths.len()
        invariant
            i <= widths@.len(),
            lane_width(widths@, pos as int, rem as int) == lane_width(
                widths@.skip(i as int),
                pos as int,
                rem as int,
            ),
        decreases widths@.len() - i,
    {
        let w = widths[i];
        proof {
            assert(widths@.skip(i as int)[0] == w);
            assert(widths@.skip(i as int).drop_first() =~= widths@.skip(i + 1));
        }
        if 0 < w && w <= rem && (pos as usize) % w == 0 {
            return w;
        }
        i += 1;
    }
    1
}

} // verus!
