use vstd::prelude::*;
use vstd::seq_lib::lemma_multiset_commutative;
use crate::extent::{
    extent_within, lemma_aligned_pieces_inside, lemma_pieces_terms_within,
    lemma_terms_within_concat, terms_within, pieces_inside, aligned_pieces, extents_count, extents_terms, lane_width, lemma_aligned_pieces_terms,
    lemma_extents_count, lemma_lane_width_bounds, lemma_pieces_terms_concat,
    lemma_pieces_terms_push, pieces_terms, run_terms, Extent,
};

verus! {

/// The group widths a patch's weights are bucketed into, widest first.
pub open spec fn lanes() -> Seq<usize> {
    seq![8usize, 4usize, 1usize]
}

/// One patch's weights, bucketed by group width: single (index, weight)
/// pairs, and groups of four and of eight consecutive neighbors given by
/// their first index and their packed weights.
pub struct Blocklist<T> {
    pub single: Vec<(u32, T)>,
    pub vec4: Vec<u32>,
    pub vec4_ff: Vec<[T; 4]>,
    pub vec8: Vec<u32>,
    pub vec8_ff: Vec<[T; 8]>,
}

/// Groups given by their first indices and their packed weights.
pub open spec fn groups<T, const N: usize>(starts: Seq<u32>, ffs: Seq<[T; N]>) -> Seq<(int, Seq<T>)> {
    Seq::new(starts.len(), |k: int| (starts[k] as int, ffs[k]@))
}

/// Buckets the groups of `ps`, in order: groups of eight and of four go to
/// their own buckets, any other group to the single pairs by its first pair.
pub open spec fn sort_pieces<T>(ps: Seq<(int, Seq<T>)>) -> (Seq<(int, T)>, Seq<(int, Seq<T>)>, Seq<(int, Seq<T>)>)
    decreases ps.len(),
{
    if ps.len() == 0 {
        (Seq::empty(), Seq::empty(), Seq::empty())
    } else {
        let (s, a, b) = sort_pieces(ps.drop_last());
        let p = ps.last();
        if p.1.len() == 8 {
            (s, a, b.push(p))
        } else if p.1.len() == 4 {
            (s, a.push(p), b)
        } else {
            (s.push((p.0, p.1[0])), a, b)
        }
    }
}

/// The aligned groups of a sequence of runs, run after run.
pub open spec fn all_pieces<T>(exts: Seq<Extent<T>>) -> Seq<(int, Seq<T>)>
    decreases exts.len(),
{
    if exts.len() == 0 {
        Seq::empty()
    } else {
        all_pieces(exts.drop_last()) + aligned_pieces(
            lanes(),
            exts.last().start as int,
            exts.last().ffs@,
        )
    }
}

/// The pairs held by three buckets: singles, then groups of four, then of eight.
pub open spec fn bucket_terms<T>(
    b: (Seq<(int, T)>, Seq<(int, Seq<T>)>, Seq<(int, Seq<T>)>),
) -> Seq<(int, T)> {
    b.0 + pieces_terms(b.1) + pieces_terms(b.2)
}

/// Every group is one, four or eight wide.
pub open spec fn lane_sized<T>(ps: Seq<(int, Seq<T>)>) -> bool {
    forall|k: int|
        0 <= k < ps.len() ==> {
            let l = #[trigger] ps[k].1.len();
            l == 1 || l == 4 || l == 8
        }
}

/// Every run's neighbor indices fit in a `u32`.
pub open spec fn all_fit<T>(exts: Seq<Extent<T>>) -> bool {
    forall|i: int| 0 <= i < exts.len() ==> (#[trigger] exts[i]).fits()
}

/// Every run of `exts` names neighbors below `n` only.
pub open spec fn extents_within<T>(exts: Seq<Extent<T>>, n: int) -> bool {
    forall|i: int| 0 <= i < exts.len() ==> extent_within(#[trigger] exts[i], n)
}

/// Every bucketed pair names a neighbor below `n`.
pub open spec fn buckets_within<T>(
    b: (Seq<(int, T)>, Seq<(int, Seq<T>)>, Seq<(int, Seq<T>)>),
    n: int,
) -> bool {
    &&& forall|k: int| 0 <= k < b.0.len() ==> 0 <= (#[trigger] b.0[k]).0 < n
    &&& pieces_inside(b.1, 0, n)
    &&& pieces_inside(b.2, 0, n)
}

/// Bucketing keeps every neighbor index below a bound that the runs keep to.
pub proof fn lemma_buckets_within<T>(exts: Seq<Extent<T>>, n: int)
    requires
        extents_within(exts, n),
    ensures
        buckets_within(sort_pieces(all_pieces(exts)), n),
{
    lemma_all_pieces_inside(exts, n);
    lemma_all_pieces_terms(exts);
    lemma_sort_pieces_inside(all_pieces(exts), n);
}

proof fn lemma_all_pieces_inside<T>(exts: Seq<Extent<T>>, n: int)
    requires
        extents_within(exts, n),
    ensures
        pieces_inside(all_pieces(exts), 0, n),
    decreases exts.len(),
{
    if exts.len() > 0 {
        let e = exts.last();
        let prev = all_pieces(exts.drop_last());
        let more = aligned_pieces(lanes(), e.start as int, e.ffs@);
        assert(extents_within(exts.drop_last(), n)) by {
            assert forall|i: int| 0 <= i < exts.drop_last().len() implies extent_within(
                #[trigger] exts.drop_last()[i],
                n,
            ) by {
                assert(exts.drop_last()[i] == exts[i]);
            }
        }
        assert(extent_within(exts[exts.len() - 1], n));
        lemma_all_pieces_inside(exts.drop_last(), n);
        lemma_aligned_pieces_inside(lanes(), e.start as int, e.ffs@);
        let all = prev + more;
        assert forall|k: int| 0 <= k < all.len() implies 0 <= (#[trigger] all[k]).0 && all[k].0
            + all[k].1.len() <= n by {
            if k < prev.len() {
                assert(all[k] == prev[k]);
            } else {
                assert(all[k] == more[k - prev.len()]);
            }
        }
    }
}

proof fn lemma_sort_pieces_inside<T>(ps: Seq<(int, Seq<T>)>, n: int)
    requires
        pieces_inside(ps, 0, n),
        lane_sized(ps),
    ensures
        buckets_within(sort_pieces(ps), n),
    decreases ps.len(),
{
    if ps.len() > 0 {
        let q = ps.drop_last();
        let p = ps.last();
        assert(pieces_inside(q, 0, n)) by {
            assert forall|k: int| 0 <= k < q.len() implies 0 <= (#[trigger] q[k]).0 && q[k].0
                + q[k].1.len() <= n by {
                assert(q[k] == ps[k]);
            }
        }
        assert(lane_sized(q)) by {
            assert forall|k: int| 0 <= k < q.len() implies {
                let l = #[trigger] q[k].1.len();
                l == 1 || l == 4 || l == 8
            } by {
                assert(q[k] == ps[k]);
            }
        }
        assert(ps[ps.len() - 1].1.len() >= 1);
        assert(0 <= ps[ps.len() - 1].0 && ps[ps.len() - 1].0 + ps[ps.len() - 1].1.len() <= n);
        lemma_sort_pieces_inside(q, n);
        let (s0, a0, b0) = sort_pieces(q);
        let (s, a, b) = sort_pieces(ps);
        if p.1.len() == 8 {
            assert forall|k: int| 0 <= k < b.len() implies 0 <= (#[trigger] b[k]).0 && b[k].0
                + b[k].1.len() <= n by {
                if k < b0.len() {
                    assert(b[k] == b0[k]);
                }
            }
        } else if p.1.len() == 4 {
            assert forall|k: int| 0 <= k < a.len() implies 0 <= (#[trigger] a[k]).0 && a[k].0
                + a[k].1.len() <= n by {
                if k < a0.len() {
                    assert(a[k] == a0[k]);
                }
            }
        } else {
            assert forall|k: int| 0 <= k < s.len() implies 0 <= (#[trigger] s[k]).0 < n by {
                if k < s0.len() {
                    assert(s[k] == s0[k]);
                }
            }
        }
    }
}

/// A patch's bucketed pairs name patches of the scene only.
pub proof fn lemma_block_terms_within<T>(b: Blocklist<T>, n: int)
    requires
        b.within(n),
    ensures
        terms_within(b.terms(), n),
{
    lemma_pieces_terms_within(b.groups4(), n);
    lemma_pieces_terms_within(b.groups8(), n);
    let s = b.single_terms();
    assert forall|k: int| 0 <= k < s.len() implies 0 <= (#[trigger] s[k]).0 < n by {
        assert(s[k] == b.buckets().0[k]);
    }
    lemma_terms_within_concat(b.single_terms(), pieces_terms(b.groups4()), n);
    lemma_terms_within_concat(
        b.single_terms() + pieces_terms(b.groups4()),
        pieces_terms(b.groups8()),
        n,
    );
}

impl<T> Blocklist<T> {
    /// Every pair names a neighbor below `n`.
    pub open spec fn within(&self, n: int) -> bool {
        buckets_within(self.buckets(), n)
    }

    /// Each group start has its packed weights.
    pub open spec fn wf(&self) -> bool {
        &&& self.vec4@.len() == self.vec4_ff@.len()
        &&& self.vec8@.len() == self.vec8_ff@.len()
    }

    pub open spec fn single_terms(&self) -> Seq<(int, T)> {
        self.single@.map_values(|p: (u32, T)| (p.0 as int, p.1))
    }

    pub open spec fn groups4(&self) -> Seq<(int, Seq<T>)> {
        groups(self.vec4@, self.vec4_ff@)
    }

    pub open spec fn groups8(&self) -> Seq<(int, Seq<T>)> {
        groups(self.vec8@, self.vec8_ff@)
    }

    /// The three buckets as sequences.
    pub open spec fn buckets(&self) -> (Seq<(int, T)>, Seq<(int, Seq<T>)>, Seq<(int, Seq<T>)>) {
        (self.single_terms(), self.groups4(), self.groups8())
    }

    /// All (neighbor index, weight) pairs, in the order they are accumulated.
    pub open spec fn terms(&self) -> Seq<(int, T)> {
        bucket_terms(self.buckets())
    }

    /// The number of pairs.
    pub open spec fn count(&self) -> int {
        self.single@.len() + 4 * self.vec4@.len() as int + 8 * self.vec8@.len() as int
    }
}

proof fn lemma_lane_width_lanes(pos: int, rem: int)
    requires
        1 <= rem,
    ensures
        ({
            let w = lane_width(lanes(), pos, rem);
            w == 1 || w == 4 || w == 8
        }),
{
    let l = lanes();
    assert(l.drop_first() =~= seq![4usize, 1usize]);
    assert(l.drop_first().drop_first() =~= seq![1usize]);
    assert(l.drop_first().drop_first().drop_first() =~= Seq::<usize>::empty());
    reveal_with_fuel(lane_width, 4);
}

proof fn lemma_aligned_lane_sized<T>(start: int, ffs: Seq<T>)
    ensures
        lane_sized(aligned_pieces(lanes(), start, ffs)),
    decreases ffs.len(),
{
    let ps = aligned_pieces(lanes(), start, ffs);
    if ffs.len() > 0 {
        let w = lane_width(lanes(), start, ffs.len() as int);
        lemma_lane_width_bounds(lanes(), start, ffs.len() as int);
        lemma_lane_width_lanes(start, ffs.len() as int);
        lemma_aligned_lane_sized(start + w, ffs.skip(w));
        let rest = aligned_pieces(lanes(), start + w, ffs.skip(w));
        assert forall|k: int| 0 <= k < ps.len() implies {
            let l = #[trigger] ps[k].1.len();
            l == 1 || l == 4 || l == 8
        } by {
            if k > 0 {
                assert(ps[k] == rest[k - 1]);
            }
        }
    }
}

proof fn lemma_all_pieces_terms<T>(exts: Seq<Extent<T>>)
    ensures
        pieces_terms(all_pieces(exts)) == extents_terms(exts),
        lane_sized(all_pieces(exts)),
    decreases exts.len(),
{
    if exts.len() == 0 {
        assert(pieces_terms(Seq::<(int, Seq<T>)>::empty()) == Seq::<(int, T)>::empty());
    } else {
        let e = exts.last();
        let prev = all_pieces(exts.drop_last());
        let more = aligned_pieces(lanes(), e.start as int, e.ffs@);
        lemma_all_pieces_terms(exts.drop_last());
        lemma_pieces_terms_concat(prev, more);
        lemma_aligned_pieces_terms(lanes(), e.start as int, e.ffs@);
        lemma_aligned_lane_sized(e.start as int, e.ffs@);
        let all = prev + more;
        assert forall|k: int| 0 <= k < all.len() implies {
            let l = #[trigger] all[k].1.len();
            l == 1 || l == 4 || l == 8
        } by {
            if k < prev.len() {
                assert(all[k] == prev[k]);
            } else {
                assert(all[k] == more[k - prev.len()]);
            }
        }
    }
}

proof fn lemma_sort_pieces_multiset<T>(ps: Seq<(int, Seq<T>)>)
    requires
        lane_sized(ps),
    ensures
        bucket_terms(sort_pieces(ps)).to_multiset() == pieces_terms(ps).to_multiset(),
    decreases ps.len(),
{
    let (s, a, b) = sort_pieces(ps);
    if ps.len() == 0 {
        assert(bucket_terms(sort_pieces(ps)) =~= Seq::<(int, T)>::empty());
        assert(pieces_terms(ps) =~= Seq::<(int, T)>::empty());
    } else {
        let q = ps.drop_last();
        let p = ps.last();
        assert(lane_sized(q)) by {
            assert forall|k: int| 0 <= k < q.len() implies {
                let l = #[trigger] q[k].1.len();
                l == 1 || l == 4 || l == 8
            } by {
                assert(q[k] == ps[k]);
            }
        }
        lemma_sort_pieces_multiset(q);
        let (s0, a0, b0) = sort_pieces(q);
        assert(ps =~= q.push(p));
        lemma_pieces_terms_push(q, p);
        let rt = run_terms(p.0, p.1);
        lemma_multiset_commutative(pieces_terms(q), rt);
        lemma_multiset_commutative(s0 + pieces_terms(a0), pieces_terms(b0));
        lemma_multiset_commutative(s0, pieces_terms(a0));
        lemma_multiset_commutative(s + pieces_terms(a), pieces_terms(b));
        lemma_multiset_commutative(s, pieces_terms(a));
        if p.1.len() == 8 {
            lemma_pieces_terms_push(b0, p);
            lemma_multiset_commutative(pieces_terms(b0), rt);
        } else if p.1.len() == 4 {
            lemma_pieces_terms_push(a0, p);
            lemma_multiset_commutative(pieces_terms(a0), rt);
        } else {
            assert(p.1.len() == 1) by {
                assert(ps[ps.len() - 1] == p);
            }
            assert(rt =~= seq![(p.0, p.1[0])]);
            assert(s =~= s0 + rt);
            lemma_multiset_commutative(s0, rt);
        }
        assert(bucket_terms(sort_pieces(ps)).to_multiset() =~= pieces_terms(ps).to_multiset());
    }
}

/// Bucketing the aligned groups of a patch's runs keeps every
/// (neighbor index, weight) pair: each lands in exactly one bucket, and the
/// buckets hold as many pairs as the runs.
pub proof fn lemma_partition_complete<T>(exts: Seq<Extent<T>>)
    ensures
        bucket_terms(sort_pieces(all_pieces(exts))).to_multiset() == extents_terms(
            exts,
        ).to_multiset(),
        bucket_terms(sort_pieces(all_pieces(exts))).len() == extents_count(exts),
{
    lemma_all_pieces_terms(exts);
    lemma_sort_pieces_multiset(all_pieces(exts));
    lemma_extents_count(exts);
    let b = bucket_terms(sort_pieces(all_pieces(exts)));
    b.to_multiset_ensures();
    extents_terms(exts).to_multiset_ensures();
}

proof fn lemma_pieces_terms_len<T>(ps: Seq<(int, Seq<T>)>, w: int)
    requires
        forall|k: int| 0 <= k < ps.len() ==> (#[trigger] ps[k]).1.len() == w,
    ensures
        pieces_terms(ps).len() == w * ps.len(),
    decreases ps.len(),
{
    if ps.len() > 0 {
        let q = ps.drop_first();
        assert forall|k: int| 0 <= k < q.len() implies (#[trigger] q[k]).1.len() == w by {
            assert(q[k] == ps[k + 1]);
        }
        lemma_pieces_terms_len(q, w);
        assert(w * ps.len() == w + w * q.len()) by (nonlinear_arith)
            requires
                ps.len() == q.len() + 1,
        ;
    }
}

impl<T: Copy> Blocklist<T> {
    /// Buckets a patch's runs: each run is split into aligned groups of
    /// eight, four or one, and each group goes to the bucket of its width.
    pub fn from_extents(extents: &Vec<Extent<T>>) -> (r: Blocklist<T>)
        requires
            all_fit(extents@),
        ensures
            r.wf(),
            r.buckets() == sort_pieces(all_pieces(extents@)),
            r.terms().to_multiset() == extents_terms(extents@).to_multiset(),
            r.count() == extents_count(extents@),
    {
        let widths: Vec<usize> = vec![8, 4, 1];
        proof {
            assert(widths@ =~= lanes());
        }
        let mut single: Vec<(u32, T)> = Vec::new();
        let mut vec4: Vec<u32> = Vec::new();
        let mut vec4_ff: Vec<[T; 4]> = Vec::new();
        let mut vec8: Vec<u32> = Vec::new();
        let mut vec8_ff: Vec<[T; 8]> = Vec::new();
        let mut i: usize = 0;
        proof {
            assert(extents@.take(0) =~= Seq::<Extent<T>>::empty());
            assert(single@.map_values(|p: (u32, T)| (p.0 as int, p.1)) =~= Seq::<(int, T)>::empty());
            assert(groups(vec4@, vec4_ff@) =~= Seq::<(int, Seq<T>)>::empty());
            assert(groups(vec8@, vec8_ff@) =~= Seq::<(int, Seq<T>)>::empty());
        }
        while i < extents.len()
            invariant
                all_fit(extents@),
                widths@ == lanes(),
                i <= extents@.len(),
                vec4@.len() == vec4_ff@.len(),
                vec8@.len() == vec8_ff@.len(),
                (
                    single@.map_values(|p: (u32, T)| (p.0 as int, p.1)),
                    groups(vec4@, vec4_ff@),
                    groups(vec8@, vec8_ff@),
                ) == sort_pieces(all_pieces(extents@.take(i as int))),
            decreases extents@.len() - i,
        {
            proof {
                assert(extents@[i as int].fits());
            }
            let pieces = extents[i].split_aligned(widths.as_slice());
            let ghost pv = pieces@.map_values(|e: Extent<T>| e.piece());
            let ghost done = all_pieces(extents@.take(i as int));
            proof {
                lemma_aligned_lane_sized(extents@[i as int].start as int, extents@[i as int].ffs@);
                assert(extents@.take(i + 1).drop_last() =~= extents@.take(i as int));
                assert(all_pieces(extents@.take(i + 1)) == done + pv);
                assert(pv.take(0) =~= Seq::<(int, Seq<T>)>::empty());
                assert(done + pv.take(0) =~= done);
            }
            let mut j: usize = 0;
            while j < pieces.len()
                invariant
                    pv == pieces@.map_values(|e: Extent<T>| e.piece()),
                    lane_sized(pv),
                    j <= pieces@.len(),
                    vec4@.len() == vec4_ff@.len(),
                    vec8@.len() == vec8_ff@.len(),
                    (
                        single@.map_values(|p: (u32, T)| (p.0 as int, p.1)),
                        groups(vec4@, vec4_ff@),
                        groups(vec8@, vec8_ff@),
                    ) == sort_pieces(done + pv.take(j as int)),
                decreases pieces@.len() - j,
            {
                let ghost before = done + pv.take(j as int);
                let ghost s0 = single@.map_values(|p: (u32, T)| (p.0 as int, p.1));
                let ghost a0 = groups(vec4@, vec4_ff@);
                let ghost b0 = groups(vec8@, vec8_ff@);
                let p = &pieces[j];
                let n = p.ffs.len();
                proof {
                    assert(pv[j as int] == p.piece());
                    assert(done + pv.take(j + 1) =~= before.push(p.piece()));
                    assert(before.push(p.piece()).drop_last() =~= before);
                }
                if n == 8 {
                    let f = &p.ffs;
                    let arr: [T; 8] = [f[0], f[1], f[2], f[3], f[4], f[5], f[6], f[7]];
                    vec8.push(p.start);
                    vec8_ff.push(arr);
                    proof {
                        assert(arr@ =~= f@);
                        assert(groups(vec8@, vec8_ff@) =~= b0.push(p.piece()));
                    }
                } else if n == 4 {
                    let f = &p.ffs;
                    let arr: [T; 4] = [f[0], f[1], f[2], f[3]];
                    vec4.push(p.start);
                    vec4_ff.push(arr);
                    proof {
                        assert(arr@ =~= f@);
                        assert(groups(vec4@, vec4_ff@) =~= a0.push(p.piece()));
                    }
                } else {
                    proof {
                        assert(pv[j as int].1.len() == n);
                    }
                    single.push((p.start, p.ffs[0]));
                    proof {
                        assert(single@.map_values(|p: (u32, T)| (p.0 as int, p.1)) =~= s0.push(
                            (p.start as int, p.ffs@[0]),
                        ));
                    }
                }
                j += 1;
            }
            proof {
                assert(pv.take(pieces@.len() as int) =~= pv);
            }
            i += 1;
        }
        proof {
            assert(extents@.take(extents@.len() as int) =~= extents@);
            lemma_partition_complete(extents@);
            lemma_all_pieces_terms(extents@);
            lemma_pieces_terms_len(groups(vec4@, vec4_ff@), 4);
            lemma_pieces_terms_len(groups(vec8@, vec8_ff@), 8);
        }
        Blocklist { single, vec4, vec4_ff, vec8, vec8_ff }
    }

    /// The number of (neighbor index, weight) pairs held.
    pub fn num_formfactors(&self) -> (r: usize)
        requires
            self.count() <= usize::MAX,
        ensures
            r == self.count(),
    {
        self.single.len() + self.vec4.len() * 4 + self.vec8.len() * 8
    }

    /// The number of single pairs, of groups of four and of groups of eight.
    pub fn get_sizes(&self) -> (r: (usize, usize, usize))
        ensures
            r.0 == self.single@.len(),
            r.1 == self.vec4@.len(),
            r.2 == self.vec8@.len(),
    {
        (self.single.len(), self.vec4.len(), self.vec8.len())
    }
}

} // verus!
