use crystal_planes::blocklist::Blocklist;
use crystal_planes::channel::LightChannel;
use crystal_planes::chunk::{chunk_ranges, NUM_CHUNKS};
use crystal_planes::extent::Extent;
use crystal_planes::radbuf::{RadBuffer, Rgb};
use crystal_planes::scene::{Scene, SceneError};

fn step(acc: f32, x: f32, d: f32, w: f32) -> f32 {
    acc + x * d * w
}

fn plus(a: f32, b: f32) -> f32 {
    a + b
}

fn ext(start: u32, ffs: &[f32]) -> Extent<f32> {
    Extent { start, ffs: ffs.to_vec() }
}

fn pieces(v: &[Extent<f32>]) -> Vec<(u32, Vec<f32>)> {
    v.iter().map(|e| (e.start, e.ffs.clone())).collect()
}

fn weights(n: usize, seed: u32) -> Vec<f32> {
    (0..n).map(|k| ((k as u32 * 7 + seed * 13) % 17) as f32 / 64.0).collect()
}

/// Every (index, weight) pair a blocklist holds, sorted by index.
fn block_pairs(b: &Blocklist<f32>) -> Vec<(u32, f32)> {
    let mut v: Vec<(u32, f32)> = b.single.clone();
    for (s, ff) in b.vec4.iter().zip(b.vec4_ff.iter()) {
        for k in 0..4 {
            v.push((s + k as u32, ff[k]));
        }
    }
    for (s, ff) in b.vec8.iter().zip(b.vec8_ff.iter()) {
        for k in 0..8 {
            v.push((s + k as u32, ff[k]));
        }
    }
    v.sort_by(|a, b| a.0.cmp(&b.0));
    v
}

fn extent_pairs(exts: &[Extent<f32>]) -> Vec<(u32, f32)> {
    let mut v = Vec::new();
    for e in exts {
        for (k, w) in e.ffs.iter().enumerate() {
            v.push((e.start + k as u32, *w));
        }
    }
    v.sort_by(|a, b| a.0.cmp(&b.0));
    v
}

#[test]
fn split_aligned_prefers_wide_aligned_groups() {
    let w = weights(13, 1);
    let e = ext(0, &w);
    let got = pieces(&e.split_aligned(&[8, 4, 1]));
    assert_eq!(
        got,
        vec![(0, w[0..8].to_vec()), (8, w[8..12].to_vec()), (12, w[12..13].to_vec())]
    );
}

#[test]
fn split_aligned_waits_for_alignment() {
    let w = weights(20, 2);
    let e = ext(5, &w);
    let got = pieces(&e.split_aligned(&[8, 4, 1]));
    assert_eq!(
        got,
        vec![
            (5, w[0..1].to_vec()),
            (6, w[1..2].to_vec()),
            (7, w[2..3].to_vec()),
            (8, w[3..11].to_vec()),
            (16, w[11..19].to_vec()),
            (24, w[19..20].to_vec()),
        ]
    );
}

#[test]
fn split_aligned_empty_run() {
    let e = ext(3, &[]);
    assert!(e.split_aligned(&[8, 4, 1]).is_empty());
}

#[test]
fn split_aligned_without_widths_gives_singles() {
    let e = ext(4, &[1.0, 2.0]);
    assert_eq!(pieces(&e.split_aligned(&[])), vec![(4, vec![1.0]), (5, vec![2.0])]);
}

#[test]
fn blocklist_buckets_by_width() {
    let w = weights(20, 3);
    let exts = vec![ext(5, &w), ext(36, &[0.5, 0.25, 0.125, 0.0625])];
    let b = Blocklist::from_extents(&exts);
    assert_eq!(b.get_sizes(), (4, 1, 2));
    assert_eq!(b.vec8, vec![8, 16]);
    assert_eq!(b.vec4, vec![36]);
    assert_eq!(b.vec4_ff, vec![[0.5, 0.25, 0.125, 0.0625]]);
    assert_eq!(b.vec8_ff[0].to_vec(), w[3..11].to_vec());
    assert_eq!(b.single, vec![(5, w[0]), (6, w[1]), (7, w[2]), (24, w[19])]);
    assert_eq!(b.num_formfactors(), 24);
}

#[test]
fn blocklist_keeps_every_pair_once() {
    for start in 0..20u32 {
        for len in 0..40usize {
            let w = weights(len, start);
            let exts = vec![ext(start, &w), ext(start + len as u32 + 3, &w[..len / 2])];
            let b = Blocklist::from_extents(&exts);
            assert_eq!(b.num_formfactors(), len + len / 2);
            assert_eq!(block_pairs(&b), extent_pairs(&exts));
            for s in &b.vec8 {
                assert_eq!(s % 8, 0);
            }
            for s in &b.vec4 {
                assert_eq!(s % 4, 0);
            }
        }
    }
}

#[test]
fn blocklist_of_no_runs_is_empty() {
    let b = Blocklist::<f32>::from_extents(&vec![]);
    assert_eq!(b.get_sizes(), (0, 0, 0));
    assert_eq!(b.num_formfactors(), 0);
}

#[test]
fn chunk_ranges_cover_patches() {
    let r = chunk_ranges(100, NUM_CHUNKS);
    assert_eq!(r.len(), 34);
    assert_eq!(r[0], (0, 3));
    assert_eq!(r[32], (96, 99));
    assert_eq!(r[33], (99, 100));
    for k in 0..r.len() - 1 {
        assert_eq!(r[k].1, r[k + 1].0);
    }
}

#[test]
fn chunk_ranges_fewer_patches_than_chunks() {
    let r = chunk_ranges(5, NUM_CHUNKS);
    assert_eq!(r, vec![(0, 1), (1, 2), (2, 3), (3, 4), (4, 5)]);
    assert!(chunk_ranges(0, NUM_CHUNKS).is_empty());
    assert_eq!(chunk_ranges(64, NUM_CHUNKS).len(), 32);
}

#[test]
fn rad_buffer_new_is_zero() {
    let b = RadBuffer::new(7, 0.0f32);
    assert_eq!(b.len(), 7);
    let (r, g, bl) = b.slice_full();
    assert!(r.iter().chain(g.iter()).chain(bl.iter()).all(|v| *v == 0.0));
    assert_eq!(RadBuffer::aligned_vector_init(3, 2.5f32), vec![2.5, 2.5, 2.5]);
}

#[test]
fn rad_buffer_slice_full_mut_writes_through() {
    let mut b = RadBuffer::new(3, 0.0f32);
    {
        let (r, g, bl) = b.slice_full_mut();
        r[0] = 1.0;
        g[1] = 2.0;
        bl[2] = 3.0;
    }
    let c = b.get(1);
    assert_eq!((c.r, c.g, c.b), (0.0, 2.0, 0.0));
    assert_eq!(b.b[2], 3.0);
}

fn three_patch_scene() -> Scene<f32> {
    let table = vec![vec![ext(1, &[0.5, 0.25])], vec![], vec![]];
    let mut s = Scene::new(table, 0.0f32, 1.0f32).unwrap();
    s.emit[0] = Rgb { r: 1.0, g: 0.0, b: 0.0 };
    s
}

#[test]
fn scene_new_sizes_every_array() {
    for n in [0usize, 1, 5, 40] {
        let table: Vec<Vec<Extent<f32>>> = (0..n).map(|_| vec![]).collect();
        let s = Scene::new(table, 0.0f32, 1.0f32).unwrap();
        assert_eq!(s.blocks.len(), n);
        assert_eq!(s.emit.len(), n);
        assert_eq!(s.diffuse.len(), n);
        assert_eq!(s.rad_front.len(), n);
        assert_eq!(s.rad_back.len(), n);
        assert_eq!(s.rad_front.g.len(), n);
        assert_eq!(s.rad_back.b.len(), n);
        assert!(s.diffuse.iter().all(|d| d.r == 1.0 && d.g == 1.0 && d.b == 1.0));
        assert!(s.emit.iter().all(|e| e.r == 0.0 && e.g == 0.0 && e.b == 0.0));
        assert_eq!(s.pints, 0);
    }
}

#[test]
fn scene_new_rejects_neighbor_out_of_range() {
    let table = vec![vec![ext(0, &[1.0])], vec![ext(2, &[0.5, 0.5])], vec![ext(9, &[1.0])]];
    match Scene::new(table, 0.0f32, 1.0f32) {
        Err(e) => assert_eq!(e, SceneError::NeighborOutOfRange { patch: 1 }),
        Ok(_) => panic!("a run past the last patch was accepted"),
    }
}

#[test]
fn scene_new_accepts_run_ending_at_last_patch() {
    let table = vec![vec![ext(1, &[1.0, 1.0])], vec![], vec![]];
    assert!(Scene::new(table, 0.0f32, 1.0f32).is_ok());
}

#[test]
fn swap_twice_restores_buffers() {
    let mut s = three_patch_scene();
    s.rad_front.r[0] = 3.0;
    s.rad_back.g[2] = 5.0;
    s.swap();
    assert_eq!(s.rad_front.g[2], 5.0);
    assert_eq!(s.rad_back.r[0], 3.0);
    s.swap();
    assert_eq!(s.rad_front.r, vec![3.0, 0.0, 0.0]);
    assert_eq!(s.rad_front.g, vec![0.0, 0.0, 0.0]);
    assert_eq!(s.rad_back.g, vec![0.0, 0.0, 5.0]);
    assert_eq!(s.rad_back.r, vec![0.0, 0.0, 0.0]);
}

#[test]
fn three_patch_step_matches_scalar_sum() {
    let mut s = three_patch_scene();
    let n = s.do_rad(&step, &plus);
    assert_eq!(n, 2);
    assert_eq!(s.rad_front.r[0], 1.0);
    assert_eq!(s.rad_front.g[0], 0.0);
    assert_eq!(s.rad_front.r[1], 0.0);

    s.rad_front.r = vec![0.0, 2.0, 4.0];
    s.rad_front.g = vec![0.0, 1.0, 1.0];
    s.rad_front.b = vec![0.0, 0.0, 8.0];
    s.do_rad(&step, &plus);
    let expect_r = 1.0 + 2.0 * 0.5 + 4.0 * 0.25;
    let expect_g = 0.5 + 0.25;
    let expect_b = 8.0 * 0.25;
    assert!((s.rad_front.r[0] - expect_r).abs() < 1e-5);
    assert!((s.rad_front.g[0] - expect_g).abs() < 1e-5);
    assert!((s.rad_front.b[0] - expect_b).abs() < 1e-5);
    assert_eq!(s.rad_back.r, vec![0.0, 2.0, 4.0]);
    assert_eq!(s.pints, 4);
}

#[test]
fn do_rad_extents_gives_scalar_sums() {
    let mut s = three_patch_scene();
    s.rad_front.r = vec![0.0, 2.0, 4.0];
    let n = s.do_rad_extents(&step, &plus);
    assert_eq!(n, 2);
    assert_eq!(s.rad_front.r[0], 3.0);
}

fn ring_scene(n: usize) -> Scene<f32> {
    let table: Vec<Vec<Extent<f32>>> = (0..n)
        .map(|i| {
            let a = (i * 5) % n;
            let len_a = (n - a).min(19);
            let mut runs = vec![ext(a as u32, &weights(len_a, i as u32))];
            if n > 40 {
                runs.push(ext(30, &weights(9, i as u32 + 1)));
            }
            runs
        })
        .collect();
    let mut s = Scene::new(table, 0.0f32, 1.0f32).unwrap();
    for i in 0..n {
        s.emit[i] = Rgb { r: (i % 3) as f32, g: (i % 5) as f32 * 0.5, b: 0.25 };
        s.diffuse[i] = Rgb { r: 0.5, g: 0.8, b: 0.3 };
    }
    s
}

#[test]
fn bucketed_and_run_steps_agree() {
    for n in [1usize, 7, 33, 100] {
        let mut a = ring_scene(n);
        let mut b = ring_scene(n);
        for _ in 0..4 {
            let ca = a.do_rad(&step, &plus);
            let cb = b.do_rad_extents(&step, &plus);
            assert_eq!(ca, cb);
            for i in 0..n {
                let tol = 1e-5 * (1.0 + b.rad_front.r[i].abs());
                assert!((a.rad_front.r[i] - b.rad_front.r[i]).abs() < tol);
                assert!((a.rad_front.g[i] - b.rad_front.g[i]).abs() < 1e-5 * (1.0 + b.rad_front.g[i].abs()));
                assert!((a.rad_front.b[i] - b.rad_front.b[i]).abs() < 1e-5 * (1.0 + b.rad_front.b[i].abs()));
            }
        }
    }
}

#[test]
fn step_count_is_number_of_coefficients() {
    let mut s = ring_scene(100);
    let total: usize = s.blocks.iter().map(|b| b.num_formfactors()).sum();
    assert_eq!(s.do_rad(&step, &plus), total);
    assert_eq!(s.do_rad(&step, &plus), total);
    assert_eq!(s.pints, 2 * total);
}

#[test]
fn non_negative_inputs_stay_non_negative() {
    let mut s = ring_scene(50);
    for _ in 0..10 {
        s.do_rad(&step, &plus);
        let (r, g, b) = s.rad_front.slice_full();
        assert!(r.iter().chain(g.iter()).chain(b.iter()).all(|v| *v >= 0.0));
    }
}

#[test]
fn zero_scene_stays_zero() {
    let mut s = ring_scene(40);
    s.clear_emit();
    for _ in 0..5 {
        s.do_rad(&step, &plus);
        assert!(s.rad_front.r.iter().all(|v| *v == 0.0));
        assert!(s.rad_front.g.iter().all(|v| *v == 0.0));
        assert!(s.rad_front.b.iter().all(|v| *v == 0.0));
    }
}

#[test]
fn empty_scene_step_does_nothing() {
    let mut s = Scene::<f32>::new(vec![], 0.0, 1.0).unwrap();
    assert_eq!(s.do_rad(&step, &plus), 0);
    assert_eq!(s.rad_front.len(), 0);
}

#[test]
fn clear_emit_zeroes_emission() {
    let mut s = ring_scene(10);
    s.clear_emit();
    assert!(s.emit.iter().all(|e| e.r == 0.0 && e.g == 0.0 && e.b == 0.0));
}

#[test]
fn blocked_light_adds_nothing() {
    let mut s = ring_scene(6);
    let before: Vec<(f32, f32, f32)> = s.emit.iter().map(|e| (e.r, e.g, e.b)).collect();
    let lit: Vec<Option<Rgb<f32>>> = vec![None; 6];
    s.apply_light(&lit, &plus);
    let after: Vec<(f32, f32, f32)> = s.emit.iter().map(|e| (e.r, e.g, e.b)).collect();
    assert_eq!(before, after);
}

#[test]
fn visible_light_adds_its_share() {
    let mut s = three_patch_scene();
    let lit = vec![Some(Rgb { r: 0.5, g: 0.25, b: 2.0 }), None, Some(Rgb { r: 1.0, g: 1.0, b: 1.0 })];
    s.apply_light(&lit, &plus);
    assert_eq!((s.emit[0].r, s.emit[0].g, s.emit[0].b), (1.5, 0.25, 2.0));
    assert_eq!((s.emit[1].r, s.emit[1].g, s.emit[1].b), (0.0, 0.0, 0.0));
    assert_eq!((s.emit[2].r, s.emit[2].g, s.emit[2].b), (1.0, 1.0, 1.0));
}

#[test]
fn compute_and_store_chunk_match_step() {
    let mut a = ring_scene(33);
    let mut b = ring_scene(33);
    a.do_rad(&step, &plus);
    b.swap();
    let mut total = 0;
    for (lo, hi) in chunk_ranges(33, NUM_CHUNKS) {
        let (vals, c) = b.compute_chunk(lo, hi, &step, &plus);
        assert_eq!(vals.len(), hi - lo);
        b.store_chunk(lo, &vals);
        total += c;
    }
    assert_eq!(total, a.blocks.iter().map(|x| x.num_formfactors()).sum::<usize>());
    assert_eq!(a.rad_front.r, b.rad_front.r);
    assert_eq!(a.rad_front.g, b.rad_front.g);
    assert_eq!(a.rad_front.b, b.rad_front.b);
}

#[test]
fn compute_patch_paths_agree_on_one_patch() {
    let mut s = three_patch_scene();
    s.rad_back.r = vec![0.0, 2.0, 4.0];
    let a = s.compute_patch(0, &step, &plus);
    let b = s.compute_patch_extents(0, &step, &plus);
    assert_eq!(a.r, 3.0);
    assert_eq!(b.r, 3.0);
}

#[test]
fn rgb_splat_sets_all_channels() {
    let c = Rgb::splat(0.75f32);
    assert_eq!((c.r, c.g, c.b), (0.75, 0.75, 0.75));
}

#[test]
fn light_channel_is_plain_value() {
    let c = LightChannel::Color;
    let d = c;
    assert_eq!(c, d);
    assert_eq!(format!("{:?}", d), "Color");
}
