use vstd::prelude::*;
use crate::blocklist::{
    all_fit, all_pieces, extents_within, lemma_buckets_within, sort_pieces, Blocklist,
};
use crate::chunk::{chunk_ranges, chunk_size, splits, NUM_CHUNKS};
use crate::extent::{extents_count, extents_terms, lemma_extents_count, Extent};
use crate::kernel::{accumulate_block, accumulate_extents, accumulates, total_step};
use crate::radbuf::{all_eq, RadBuffer, Rgb};

verus! {

/// Why a scene cannot be built from a coefficient table.
#[derive(Debug, Clone, Copy, PartialEq, Eq, Structural)]
pub enum SceneError {
    /// A run of this patch names a neighbor outside the scene, or one whose
    /// index does not fit in a `u32`.
    NeighborOutOfRange { patch: usize },
    /// The table holds more coefficients than a `usize` can count.
    TooManyCoefficients,
}

/// `plus` may be called on any two samples.
pub open spec fn total_add<T, G: Fn(T, T) -> T>(plus: G) -> bool {
    forall|a: T, b: T| call_requires(plus, (a, b))
}

/// A patch's runs fit a scene of `n` patches.
pub open spec fn patch_ok<T>(exts: Seq<Extent<T>>, n: int) -> bool {
    extents_within(exts, n) && all_fit(exts)
}

/// Every patch's runs fit a scene of as many patches as there are runs lists.
pub open spec fn table_ok<T>(table: Seq<Vec<Extent<T>>>) -> bool {
    forall|i: int| 0 <= i < table.len() ==> patch_ok((#[trigger] table[i])@, table.len() as int)
}

/// The number of coefficients of the first `hi` patches.
pub open spec fn scene_count<T>(table: Seq<Vec<Extent<T>>>, hi: int) -> int
    decreases hi,
{
    if hi <= 0 {
        0
    } else {
        scene_count(table, hi - 1) + extents_count(table[hi - 1]@)
    }
}

/// Coefficient counts of patch prefixes are non-negative and grow with the prefix.
pub proof fn lemma_scene_count_mono<T>(table: Seq<Vec<Extent<T>>>, lo: int, hi: int)
    requires
        0 <= lo <= hi,
    ensures
        0 <= scene_count(table, lo) <= scene_count(table, hi),
    decreases hi,
{
    if hi > lo {
        lemma_extents_count(table[hi - 1]@);
        lemma_scene_count_mono(table, lo, hi - 1);
    } else if hi > 0 {
        lemma_scene_count_mono(table, 0, hi - 1);
        lemma_extents_count(table[hi - 1]@);
    }
}

/// `out` is a value one channel of a patch can take after a step: the
/// emission `e` combined by `plus` with a fold of `step` over the pairs `ts`
/// on the radiance `src`, started from `zero`.
pub open spec fn channel_result<T, F: Fn(T, T, T, T) -> T, G: Fn(T, T) -> T>(
    step: F,
    plus: G,
    src: Seq<T>,
    d: T,
    e: T,
    ts: Seq<(int, T)>,
    zero: T,
    out: T,
) -> bool {
    exists|acc: T|
        #[trigger] accumulates(step, src, d, ts, zero, acc) && call_ensures(plus, (e, acc), out)
}

/// `out` holds values each channel of a patch can take after a step.
pub open spec fn patch_result<T, F: Fn(T, T, T, T) -> T, G: Fn(T, T) -> T>(
    step: F,
    plus: G,
    src: RadBuffer<T>,
    d: Rgb<T>,
    e: Rgb<T>,
    ts: Seq<(int, T)>,
    zero: T,
    out: Rgb<T>,
) -> bool {
    &&& channel_result(step, plus, src.r@, d.r, e.r, ts, zero, out.r)
    &&& channel_result(step, plus, src.g@, d.g, e.g, ts, zero, out.g)
    &&& channel_result(step, plus, src.b@, d.b, e.b, ts, zero, out.b)
}

/// `out` is the emission `e` after a light: unchanged where the light does
/// not reach the patch (`None`), else each channel combined by `plus` with
/// the light's contribution.
pub open spec fn light_added<T, G: Fn(T, T) -> T>(
    plus: G,
    e: Rgb<T>,
    lit: Option<Rgb<T>>,
    out: Rgb<T>,
) -> bool {
    match lit {
        None => out == e,
        Some(c) => {
            &&& call_ensures(plus, (e.r, c.r), out.r)
            &&& call_ensures(plus, (e.g, c.g), out.g)
            &&& call_ensures(plus, (e.b, c.b), out.b)
        },
    }
}

/// A radiosity scene: per patch its bucketed coefficients, its runs, its
/// emission and reflectance, and two radiance buffers. `rad_front` holds the
/// result of the latest step, `rad_back` the radiance it was computed from.
pub struct Scene<T> {
    pub emit: Vec<Rgb<T>>,
    pub blocks: Vec<Blocklist<T>>,
    pub extents: Vec<Vec<Extent<T>>>,
    pub rad_front: RadBuffer<T>,
    pub rad_back: RadBuffer<T>,
    pub diffuse: Vec<Rgb<T>>,
    pub pints: usize,
    pub zero: T,
}

impl<T> Scene<T> {
    pub open spec fn num_patches(&self) -> int {
        self.blocks@.len() as int
    }

    /// All per-patch arrays have one entry per patch, every coefficient names
    /// a patch of the scene, each patch's buckets are those of its runs, and
    /// the number of coefficients fits in a `usize`.
    pub open spec fn wf(&self) -> bool {
        let n = self.num_patches();
        &&& self.emit@.len() == n
        &&& self.diffuse@.len() == n
        &&& self.extents@.len() == n
        &&& self.rad_front.has_len(n)
        &&& self.rad_back.has_len(n)
        &&& table_ok(self.extents@)
        &&& forall|i: int|
            0 <= i < n ==> {
                &&& (#[trigger] self.blocks@[i]).wf()
                &&& self.blocks@[i].within(n)
                &&& self.blocks@[i].buckets() == sort_pieces(all_pieces(self.extents@[i]@))
                &&& self.blocks@[i].count() == extents_count(self.extents@[i]@)
            }
        &&& scene_count(self.extents@, n) <= usize::MAX
    }

    /// The pairs patch `i` accumulates over: its buckets' pairs, or with
    /// `via_extents` its runs' pairs.
    pub open spec fn terms_of(&self, i: int, via_extents: bool) -> Seq<(int, T)> {
        if via_extents {
            extents_terms(self.extents@[i]@)
        } else {
            self.blocks@[i].terms()
        }
    }

    /// Everything but the emission, the radiance buffers and the counter is
    /// the same in `other`.
    pub open spec fn same_setup(&self, other: Scene<T>) -> bool {
        &&& other.blocks@ == self.blocks@
        &&& other.extents@ == self.extents@
        &&& other.diffuse@ == self.diffuse@
        &&& other.zero == self.zero
    }

    /// `after` is this scene after one propagation step: the buffers have
    /// traded roles, and each patch's new radiance is its emission plus the
    /// weighted sum, by `step`, of the radiance of the patches it sees.
    pub open spec fn propagates_to<F: Fn(T, T, T, T) -> T, G: Fn(T, T) -> T>(
        &self,
        after: Scene<T>,
        step: F,
        plus: G,
        via_extents: bool,
    ) -> bool {
        &&& self.same_setup(after)
        &&& after.emit@ == self.emit@
        &&& after.rad_back == self.rad_front
        &&& after.rad_front.has_len(self.num_patches())
        &&& forall|i: int|
            0 <= i < self.num_patches() ==> patch_result(
                step,
                plus,
                self.rad_front,
                self.diffuse@[i],
                self.emit@[i],
                self.terms_of(i, via_extents),
                self.zero,
                #[trigger] after.rad_front.at(i),
            )
    }

    /// `after` is this scene with the two radiance buffers traded.
    pub open spec fn swapped(&self, after: Scene<T>) -> bool {
        &&& after.rad_front == self.rad_back
        &&& after.rad_back == self.rad_front
        &&& after.emit == self.emit
        &&& after.blocks == self.blocks
        &&& after.extents == self.extents
        &&& after.diffuse == self.diffuse
        &&& after.pints == self.pints
        &&& after.zero == self.zero
    }
}

fn rgb_vec<T: Copy>(n: usize, v: T) -> (r: Vec<Rgb<T>>)
    ensures
        r@.len() == n,
        all_eq(r@, Rgb { r: v, g: v, b: v }),
{
    let mut r: Vec<Rgb<T>> = Vec::new();
    let mut i: usize = 0;
    while i < n
        invariant
            i <= n,
            r@.len() == i,
            all_eq(r@, Rgb { r: v, g: v, b: v }),
        decreases n - i,
    {
        r.push(Rgb::splat(v));
        i += 1;
    }
    r
}

impl<T: Copy> Scene<T> {
    /// Checks that the runs of one patch fit a scene of `n` patches.
    fn check_patch(exts: &Vec<Extent<T>>, n: usize) -> (ok: bool)
        ensures
            ok == patch_ok(exts@, n as int),
    {
        let mut j: usize = 0;
        while j < exts.len()
            invariant
                j <= exts@.len(),
                patch_ok(exts@.take(j as int), n as int),
                forall|k: int| 0 <= k < j ==> #[trigger] exts@[k] == exts@.take(j as int)[k],
            decreases exts@.len() - j,
        {
            let e = &exts[j];
            let start = e.start as usize;
            let len = e.ffs.len();
            if !(start <= n && len <= n - start && (len as u64) <= 0x1_0000_0000u64 - e.start as u64) {
                assert(!patch_ok(exts@, n as int)) by {
                    assert(exts@[j as int] == *e);
                }
                return false;
            }
            proof {
                let t = exts@.take(j + 1);
                assert forall|k: int| 0 <= k < t.len() implies crate::extent::extent_within(
                    #[trigger] t[k],
                    n as int,
                ) && t[k].fits() by {
                    if k < j {
                        assert(t[k] == exts@.take(j as int)[k]);
                    } else {
                        assert(t[k] == *e);
                    }
                }
            }
            j += 1;
        }
        assert(exts@.take(exts@.len() as int) =~= exts@);
        true
    }

    /// Builds the scene for a coefficient table with one list of runs per
    /// patch: buckets each patch's runs, sets every emission and radiance to
    /// `zero` and every reflectance to `one`.
    pub fn new(extents: Vec<Vec<Extent<T>>>, zero: T, one: T) -> (r: Result<Scene<T>, SceneError>)
        ensures
            r is Ok <==> table_ok(extents@) && scene_count(extents@, extents@.len() as int)
                <= usize::MAX,
            r matches Ok(s) ==> {
                &&& s.wf()
                &&& s.num_patches() == extents@.len()
                &&& s.extents@ == extents@
                &&& all_eq(s.emit@, Rgb { r: zero, g: zero, b: zero })
                &&& all_eq(s.diffuse@, Rgb { r: one, g: one, b: one })
                &&& all_eq(s.rad_front.r@, zero) && all_eq(s.rad_front.g@, zero)
                    && all_eq(s.rad_front.b@, zero)
                &&& all_eq(s.rad_back.r@, zero) && all_eq(s.rad_back.g@, zero)
                    && all_eq(s.rad_back.b@, zero)
                &&& s.zero == zero
                &&& s.pints == 0
            },
            r matches Err(SceneError::NeighborOutOfRange { patch }) ==> {
                &&& patch < extents@.len()
                &&& !patch_ok(extents@[patch as int]@, extents@.len() as int)
                &&& forall|p: int|
                    0 <= p < patch ==> patch_ok(
                        (#[trigger] extents@[p])@,
                        extents@.len() as int,
                    )
            },
    {
        let n = extents.len();
        let mut i: usize = 0;
        while i < n
            invariant
                n == extents@.len(),
                i <= n,
                forall|p: int| 0 <= p < i ==> patch_ok((#[trigger] extents@[p])@, n as int),
            decreases n - i,
        {
            if !Self::check_patch(&extents[i], n) {
                return Err(SceneError::NeighborOutOfRange { patch: i });
            }
            i += 1;
        }
        assert(table_ok(extents@));
        let mut blocks: Vec<Blocklist<T>> = Vec::new();
        let mut total: u128 = 0;
        let mut i: usize = 0;
        while i < n
            invariant
                n == extents@.len(),
                i <= n,
                table_ok(extents@),
                blocks@.len() == i,
                total == scene_count(extents@, i as int),
                total <= usize::MAX,
                forall|p: int|
                    0 <= p < i ==> {
                        &&& (#[trigger] blocks@[p]).wf()
                        &&& blocks@[p].within(n as int)
                        &&& blocks@[p].buckets() == sort_pieces(all_pieces(extents@[p]@))
                        &&& blocks@[p].count() == extents_count(extents@[p]@)
                    },
            decreases n - i,
        {
            assert(patch_ok(extents@[i as int]@, n as int));
            let b = Blocklist::from_extents(&extents[i]);
            proof {
                lemma_buckets_within(extents@[i as int]@, n as int);
            }
            let (s, v4, v8) = b.get_sizes();
            total = total + s as u128 + 4 * (v4 as u128) + 8 * (v8 as u128);
            if total > usize::MAX as u128 {
                proof {
                    lemma_scene_count_mono(extents@, i + 1, n as int);
                }
                return Err(SceneError::TooManyCoefficients);
            }
            blocks.push(b);
            i += 1;
        }
        let scene = Scene {
            emit: rgb_vec(n, zero),
            blocks,
            extents,
            rad_front: RadBuffer::new(n, zero),
            rad_back: RadBuffer::new(n, zero),
            diffuse: rgb_vec(n, one),
            pints: 0,
            zero,
        };
        Ok(scene)
    }

    /// Sets every patch's emission to zero.
    pub fn clear_emit(&mut self)
        requires
            old(self).wf(),
        ensures
            final(self).wf(),
            old(self).same_setup(*final(self)),
            final(self).rad_front == old(self).rad_front,
            final(self).rad_back == old(self).rad_back,
            final(self).pints == old(self).pints,
            final(self).emit@.len() == old(self).num_patches(),
            all_eq(final(self).emit@, Rgb { r: old(self).zero, g: old(self).zero, b: old(self).zero }),
    {
        let n = self.emit.len();
        let mut i: usize = 0;
        while i < n
            invariant
                n == self.num_patches(),
                self.wf(),
                i <= n,
                old(self).same_setup(*self),
                self.rad_front == old(self).rad_front,
                self.rad_back == old(self).rad_back,
                self.pints == old(self).pints,
                forall|j: int|
                    0 <= j < i ==> #[trigger] self.emit@[j] == (Rgb {
                        r: old(self).zero,
                        g: old(self).zero,
                        b: old(self).zero,
                    }),
            decreases n - i,
        {
            self.emit[i] = Rgb::splat(self.zero);
            i += 1;
        }
    }

    /// Adds one light's contribution to the emission of the patches it
    /// reaches: `lit[i]` is the contribution to patch `i`, or `None` where
    /// the light is blocked or behind the patch.
    pub fn apply_light<G: Fn(T, T) -> T>(&mut self, lit: &Vec<Option<Rgb<T>>>, plus: &G)
        requires
            old(self).wf(),
            lit@.len() == old(self).num_patches(),
            total_add(*plus),
        ensures
            final(self).wf(),
            old(self).same_setup(*final(self)),
            final(self).rad_front == old(self).rad_front,
            final(self).rad_back == old(self).rad_back,
            final(self).pints == old(self).pints,
            final(self).emit@.len() == old(self).num_patches(),
            forall|i: int|
                0 <= i < old(self).num_patches() ==> light_added(
                    *plus,
                    old(self).emit@[i],
                    lit@[i],
                    #[trigger] final(self).emit@[i],
                ),
    {
        let n = self.emit.len();
        let mut i: usize = 0;
        while i < n
            invariant
                n == self.num_patches(),
                n == lit@.len(),
                self.wf(),
                total_add(*plus),
                i <= n,
                old(self).same_setup(*self),
                self.rad_front == old(self).rad_front,
                self.rad_back == old(self).rad_back,
                self.pints == old(self).pints,
                forall|j: int|
                    0 <= j < i ==> light_added(
                        *plus,
                        old(self).emit@[j],
                        lit@[j],
                        #[trigger] self.emit@[j],
                    ),
                forall|j: int| i <= j < n ==> #[trigger] self.emit@[j] == old(self).emit@[j],
            decreases n - i,
        {
            match lit[i] {
                Some(c) => {
                    let e = self.emit[i];
                    self.emit[i] = Rgb { r: plus(e.r, c.r), g: plus(e.g, c.g), b: plus(e.b, c.b) };
                },
                None => {},
            }
            i += 1;
        }
    }

    /// Trades the front and back radiance buffers, without copying either.
    pub fn swap(&mut self)
        ensures
            old(self).swapped(*final(self)),
    {
        core::mem::swap(&mut self.rad_front, &mut self.rad_back);
    }

    /// The new radiance of patch `i`, computed from the back buffer through
    /// the patch's buckets.
    pub fn compute_patch<F: Fn(T, T, T, T) -> T, G: Fn(T, T) -> T>(
        &self,
        i: usize,
        step: &F,
        plus: &G,
    ) -> (c: Rgb<T>)
        requires
            self.wf(),
            i < self.num_patches(),
            total_step(*step),
            total_add(*plus),
        ensures
            patch_result(
                *step,
                *plus,
                self.rad_back,
                self.diffuse@[i as int],
                self.emit@[i as int],
                self.terms_of(i as int, false),
                self.zero,
                c,
            ),
    {
        let (r, g, b) = self.rad_back.slice_full();
        let d = self.diffuse[i];
        let e = self.emit[i];
        let block = &self.blocks[i];
        assert(block.wf() && block.within(self.num_patches()));
        let ar = accumulate_block(step, r, d.r, block, self.zero);
        let ag = accumulate_block(step, g, d.g, block, self.zero);
        let ab = accumulate_block(step, b, d.b, block, self.zero);
        let c = Rgb { r: plus(e.r, ar), g: plus(e.g, ag), b: plus(e.b, ab) };
        assert(accumulates(*step, self.rad_back.r@, d.r, block.terms(), self.zero, ar));
        assert(accumulates(*step, self.rad_back.g@, d.g, block.terms(), self.zero, ag));
        assert(accumulates(*step, self.rad_back.b@, d.b, block.terms(), self.zero, ab));
        c
    }

    /// The new radiance of patch `i`, computed from the back buffer through
    /// the patch's runs, one neighbor at a time.
    pub fn compute_patch_extents<F: Fn(T, T, T, T) -> T, G: Fn(T, T) -> T>(
        &self,
        i: usize,
        step: &F,
        plus: &G,
    ) -> (c: Rgb<T>)
        requires
            self.wf(),
            i < self.num_patches(),
            total_step(*step),
            total_add(*plus),
        ensures
            patch_result(
                *step,
                *plus,
                self.rad_back,
                self.diffuse@[i as int],
                self.emit@[i as int],
                self.terms_of(i as int, true),
                self.zero,
                c,
            ),
    {
        let (r, g, b) = self.rad_back.slice_full();
        let d = self.diffuse[i];
        let e = self.emit[i];
        let exts = &self.extents[i];
        assert(patch_ok(self.extents@[i as int]@, self.num_patches()));
        let ar = accumulate_extents(step, r, d.r, exts, self.zero);
        let ag = accumulate_extents(step, g, d.g, exts, self.zero);
        let ab = accumulate_extents(step, b, d.b, exts, self.zero);
        let c = Rgb { r: plus(e.r, ar), g: plus(e.g, ag), b: plus(e.b, ab) };
        assert(accumulates(*step, self.rad_back.r@, d.r, extents_terms(exts@), self.zero, ar));
        assert(accumulates(*step, self.rad_back.g@, d.g, extents_terms(exts@), self.zero, ag));
        assert(accumulates(*step, self.rad_back.b@, d.b, extents_terms(exts@), self.zero, ab));
        c
    }

    /// The number of coefficients of patch `i`.
    fn patch_count(&self, i: usize) -> (k: usize)
        requires
            self.wf(),
            i < self.num_patches(),
        ensures
            k == extents_count(self.extents@[i as int]@),
            k == scene_count(self.extents@, i + 1) - scene_count(self.extents@, i as int),
    {
        proof {
            lemma_scene_count_mono(self.extents@, i + 1, self.num_patches());
            lemma_scene_count_mono(self.extents@, 0, i as int);
            assert(self.blocks@[i as int].wf());
        }
        self.blocks[i].num_formfactors()
    }

    /// Writes the radiance of patch `i` into the front buffer.
    fn set_patch(&mut self, i: usize, c: Rgb<T>)
        requires
            old(self).wf(),
            i < old(self).num_patches(),
        ensures
            final(self).wf(),
            old(self).same_setup(*final(self)),
            final(self).emit == old(self).emit,
            final(self).rad_back == old(self).rad_back,
            final(self).pints == old(self).pints,
            final(self).rad_front.at(i as int) == c,
            forall|j: int|
                0 <= j < old(self).num_patches() && j != i ==> #[trigger] final(self).rad_front.at(j)
                    == old(self).rad_front.at(j),
    {
        self.rad_front.r[i] = c.r;
        self.rad_front.g[i] = c.g;
        self.rad_front.b[i] = c.b;
    }

    /// The new radiance of the patches `lo..hi`, computed from the back
    /// buffer through their buckets, and their number of coefficients.
    pub fn compute_chunk<F: Fn(T, T, T, T) -> T, G: Fn(T, T) -> T>(
        &self,
        lo: usize,
        hi: usize,
        step: &F,
        plus: &G,
    ) -> (r: (Vec<Rgb<T>>, usize))
        requires
            self.wf(),
            lo <= hi <= self.num_patches(),
            total_step(*step),
            total_add(*plus),
        ensures
            r.0@.len() == hi - lo,
            forall|k: int|
                0 <= k < hi - lo ==> patch_result(
                    *step,
                    *plus,
                    self.rad_back,
                    self.diffuse@[lo + k],
                    self.emit@[lo + k],
                    self.terms_of(lo + k, false),
                    self.zero,
                    #[trigger] r.0@[k],
                ),
            r.1 == scene_count(self.extents@, hi as int) - scene_count(self.extents@, lo as int),
    {
        let mut vals: Vec<Rgb<T>> = Vec::new();
        let mut count: usize = 0;
        let mut i: usize = lo;
        while i < hi
            invariant
                self.wf(),
                lo <= i <= hi <= self.num_patches(),
                total_step(*step),
                total_add(*plus),
                vals@.len() == i - lo,
                forall|k: int|
                    0 <= k < i - lo ==> patch_result(
                        *step,
                        *plus,
                        self.rad_back,
                        self.diffuse@[lo + k],
                        self.emit@[lo + k],
                        self.terms_of(lo + k, false),
                        self.zero,
                        #[trigger] vals@[k],
                    ),
                count == scene_count(self.extents@, i as int) - scene_count(self.extents@, lo as int),
            decreases hi - i,
        {
            let c = self.compute_patch(i, step, plus);
            vals.push(c);
            proof {
                lemma_scene_count_mono(self.extents@, lo as int, i + 1);
                lemma_scene_count_mono(self.extents@, i + 1, self.num_patches());
            }
            count = count + self.patch_count(i);
            i += 1;
        }
        (vals, count)
    }

    /// Writes the radiance of the patches `lo..lo + vals.len()` into the
    /// front buffer.
    pub fn store_chunk(&mut self, lo: usize, vals: &Vec<Rgb<T>>)
        requires
            old(self).wf(),
            lo + vals@.len() <= old(self).num_patches(),
        ensures
            final(self).wf(),
            old(self).same_setup(*final(self)),
            final(self).emit == old(self).emit,
            final(self).rad_back == old(self).rad_back,
            final(self).pints == old(self).pints,
            forall|j: int|
                0 <= j < old(self).num_patches() ==> #[trigger] final(self).rad_front.at(j) == if lo
                    <= j < lo + vals@.len() {
                    vals@[j - lo]
                } else {
                    old(self).rad_front.at(j)
                },
    {
        let n = self.blocks.len();
        let mut k: usize = 0;
        while k < vals.len()
            invariant
                n == self.num_patches(),
                self.wf(),
                lo + vals@.len() <= self.num_patches(),
                k <= vals@.len(),
                old(self).same_setup(*self),
                self.emit == old(self).emit,
                self.rad_back == old(self).rad_back,
                self.pints == old(self).pints,
                forall|j: int|
                    0 <= j < old(self).num_patches() ==> #[trigger] self.rad_front.at(j) == if lo
                        <= j < lo + k {
                        vals@[j - lo]
                    } else {
                        old(self).rad_front.at(j)
                    },
            decreases vals@.len() - k,
        {
            self.set_patch(lo + k, vals[k]);
            k += 1;
        }
    }

    /// One propagation step through the buckets: trades the buffers, then
    /// computes every patch's new radiance chunk by chunk from the back
    /// buffer. Returns the number of coefficients applied, which is also
    /// added, saturating, to the running counter `pints`.
    pub fn do_rad_blocks<F: Fn(T, T, T, T) -> T, G: Fn(T, T) -> T>(
        &mut self,
        step: &F,
        plus: &G,
    ) -> (r: usize)
        requires
            old(self).wf(),
            total_step(*step),
            total_add(*plus),
        ensures
            final(self).wf(),
            old(self).propagates_to(*final(self), *step, *plus, false),
            r == scene_count(old(self).extents@, old(self).num_patches()),
            final(self).pints == if old(self).pints + r <= usize::MAX {
                old(self).pints + r
            } else {
                usize::MAX as int
            },
    {
        self.swap();
        let n = self.blocks.len();
        let ranges = chunk_ranges(n, NUM_CHUNKS);
        let mut total: usize = 0;
        let mut c: usize = 0;
        let ghost mut done: int = 0;
        while c < ranges.len()
            invariant
                self.wf(),
                n == self.num_patches(),
                total_step(*step),
                total_add(*plus),
                splits(ranges@, n as int, chunk_size(n as int, NUM_CHUNKS as int)),
                c <= ranges@.len(),
                0 <= done <= n,
                c < ranges@.len() ==> ranges@[c as int].0 == done,
                c == ranges@.len() ==> done == n,
                old(self).same_setup(*self),
                self.emit == old(self).emit,
                self.rad_back == old(self).rad_front,
                self.pints == old(self).pints,
                forall|i: int|
                    0 <= i < done ==> patch_result(
                        *step,
                        *plus,
                        old(self).rad_front,
                        old(self).diffuse@[i],
                        old(self).emit@[i],
                        old(self).terms_of(i, false),
                        old(self).zero,
                        #[trigger] self.rad_front.at(i),
                    ),
                total == scene_count(old(self).extents@, done),
            decreases ranges@.len() - c,
        {
            let (lo, hi) = ranges[c];
            assert(ranges@[c as int].0 < ranges@[c as int].1 <= n);
            let (vals, cnt) = self.compute_chunk(lo, hi, step, plus);
            self.store_chunk(lo, &vals);
            proof {
                lemma_scene_count_mono(old(self).extents@, hi as int, n as int);
                if c + 1 < ranges@.len() {
                    assert(ranges@[c as int].1 == ranges@[c + 1].0);
                }
                assert forall|i: int| 0 <= i < hi implies patch_result(
                    *step,
                    *plus,
                    old(self).rad_front,
                    old(self).diffuse@[i],
                    old(self).emit@[i],
                    old(self).terms_of(i, false),
                    old(self).zero,
                    #[trigger] self.rad_front.at(i),
                ) by {
                    if i >= lo {
                        assert(vals@[i - lo] == self.rad_front.at(i));
                    }
                }
                done = hi as int;
            }
            total = total + cnt;
            c += 1;
        }
        self.pints = self.pints.saturating_add(total);
        total
    }

    /// One propagation step through the buckets; see `do_rad_blocks`.
    pub fn do_rad<F: Fn(T, T, T, T) -> T, G: Fn(T, T) -> T>(&mut self, step: &F, plus: &G) -> (r: usize)
        requires
            old(self).wf(),
            total_step(*step),
            total_add(*plus),
        ensures
            final(self).wf(),
            old(self).propagates_to(*final(self), *step, *plus, false),
            r == scene_count(old(self).extents@, old(self).num_patches()),
            final(self).pints == if old(self).pints + r <= usize::MAX {
                old(self).pints + r
            } else {
                usize::MAX as int
            },
    {
        self.do_rad_blocks(step, plus)
    }

    /// One propagation step through the runs, patch by patch and neighbor by
    /// neighbor: the plain scalar path the bucketed step can be checked against.
    pub fn do_rad_extents<F: Fn(T, T, T, T) -> T, G: Fn(T, T) -> T>(
        &mut self,
        step: &F,
        plus: &G,
    ) -> (r: usize)
        requires
            old(self).wf(),
            total_step(*step),
            total_add(*plus),
        ensures
            final(self).wf(),
            old(self).propagates_to(*final(self), *step, *plus, true),
            r == scene_count(old(self).extents@, old(self).num_patches()),
            final(self).pints == if old(self).pints + r <= usize::MAX {
                old(self).pints + r
            } else {
                usize::MAX as int
            },
    {
        self.swap();
        let n = self.blocks.len();
        let mut total: usize = 0;
        let mut i: usize = 0;
        while i < n
            invariant
                self.wf(),
                n == self.num_patches(),
                total_step(*step),
                total_add(*plus),
                i <= n,
                old(self).same_setup(*self),
                self.emit == old(self).emit,
                self.rad_back == old(self).rad_front,
                self.pints == old(self).pints,
                forall|j: int|
                    0 <= j < i ==> patch_result(
                        *step,
                        *plus,
                        old(self).rad_front,
                        old(self).diffuse@[j],
                        old(self).emit@[j],
                        old(self).terms_of(j, true),
                        old(self).zero,
                        #[trigger] self.rad_front.at(j),
                    ),
                total == scene_count(old(self).extents@, i as int),
            decreases n - i,
        {
            let c = self.compute_patch_extents(i, step, plus);
            proof {
                lemma_scene_count_mono(old(self).extents@, i + 1, n as int);
            }
            total = total + self.patch_count(i);
            self.set_patch(i, c);
            i += 1;
        }
        self.pints = self.pints.saturating_add(total);
        total
    }
}

} // verus!
