use depth_drawer::{Depth, DrawError, DrawUnit, Drawer, ImageKey, Placement, RunStat, Submission};

fn depth(x: f32) -> Depth {
    Depth::from_bits(x.to_bits()).unwrap()
}

fn drawer_with(textures: &[&'static str]) -> (Drawer<&'static str, u32>, Vec<ImageKey>) {
    let mut d: Drawer<&'static str, u32> = Drawer::new();
    let keys = textures.iter().map(|t| d.add_image(*t).unwrap()).collect();
    (d, keys)
}

fn bounds(s: &RunStat) -> (u32, u32) {
    (s.min.key(), s.max.key())
}

#[test]
fn split_scenario_gives_three_runs() {
    let (mut d, k) = drawer_with(&["A", "B"]);
    d.add(k[0], 10, depth(1.0));
    d.add(k[0], 30, depth(3.0));
    d.add(k[1], 20, depth(2.0));
    let stat = d.stat();
    assert_eq!(stat.len(), 3);
    assert_eq!(stat[0].image_key, k[0]);
    assert_eq!(stat[1].image_key, k[1]);
    assert_eq!(stat[2].image_key, k[0]);
    assert_eq!(bounds(&stat[0]), (depth(1.0).key(), depth(1.0).key()));
    assert_eq!(bounds(&stat[1]), (depth(2.0).key(), depth(2.0).key()));
    assert_eq!(bounds(&stat[2]), (depth(3.0).key(), depth(3.0).key()));
    let params: Vec<u32> = d.flattened().iter().map(|c| c.param).collect();
    assert_eq!(params, vec![10, 20, 30]);
}

#[test]
fn same_texture_extends_one_run() {
    let (mut d, k) = drawer_with(&["A"]);
    d.add(k[0], 1, depth(0.5));
    d.add(k[0], 2, depth(0.1));
    d.add(k[0], 3, depth(0.9));
    assert_eq!(d.run_count(), 1);
    let stat = d.stat();
    assert_eq!(stat[0].len, 3);
    assert_eq!(bounds(&stat[0]), (depth(0.1).key(), depth(0.9).key()));
}

#[test]
fn extends_neighbour_run_at_either_edge() {
    let (mut d, k) = drawer_with(&["A", "B"]);
    d.add(k[0], 1, depth(1.0));
    d.add(k[1], 2, depth(5.0));
    // below B and above A: joins A at its end
    d.add(k[0], 3, depth(2.0));
    // below B and above A: joins B at its start
    d.add(k[1], 4, depth(4.0));
    assert_eq!(d.run_count(), 2);
    let params: Vec<u32> = d.flattened().iter().map(|c| c.param).collect();
    assert_eq!(params, vec![1, 3, 4, 2]);
}

#[test]
fn new_run_between_other_textures() {
    let (mut d, k) = drawer_with(&["A", "B", "C"]);
    d.add(k[0], 1, depth(1.0));
    d.add(k[1], 2, depth(5.0));
    d.add(k[2], 3, depth(3.0));
    let stat = d.stat();
    let keys: Vec<ImageKey> = stat.iter().map(|s| s.image_key).collect();
    assert_eq!(keys, vec![k[0], k[2], k[1]]);
}

#[test]
fn equal_depth_later_call_goes_after() {
    let (mut d, k) = drawer_with(&["A", "B"]);
    d.add(k[0], 1, depth(1.0));
    d.add(k[1], 2, depth(1.0));
    d.add(k[0], 3, depth(1.0));
    let params: Vec<u32> = d.flattened().iter().map(|c| c.param).collect();
    assert_eq!(params, vec![1, 2, 3]);
    assert_eq!(d.run_count(), 3);
}

#[test]
fn equal_depth_inside_other_texture_splits_after_equals() {
    let (mut d, k) = drawer_with(&["A", "B"]);
    d.add(k[0], 1, depth(1.0));
    d.add(k[0], 2, depth(2.0));
    d.add(k[0], 3, depth(3.0));
    d.add(k[1], 4, depth(2.0));
    let params: Vec<u32> = d.flattened().iter().map(|c| c.param).collect();
    assert_eq!(params, vec![1, 2, 4, 3]);
    let lens: Vec<usize> = d.stat().iter().map(|s| s.len).collect();
    assert_eq!(lens, vec![2, 1, 1]);
}

#[test]
fn draw_uses_single_and_batch() {
    let (mut d, k) = drawer_with(&["A", "B"]);
    d.add(k[0], 1, depth(1.0));
    d.add(k[0], 2, depth(2.0));
    d.add(k[1], 3, depth(3.0));
    let plan = d.draw();
    assert_eq!(plan.len(), 2);
    match &plan[0] {
        Submission::Batch { image_key, params } => {
            assert_eq!(*image_key, k[0]);
            assert_eq!(params, &vec![1, 2]);
        }
        _ => panic!("expected a batch"),
    }
    match &plan[1] {
        Submission::Single { image_key, param } => {
            assert_eq!(*image_key, k[1]);
            assert_eq!(*param, 3);
        }
        _ => panic!("expected a single draw"),
    }
    // drawing does not change the runs
    assert_eq!(d.draw().len(), 2);
}

#[test]
fn clear_then_draw_renders_nothing() {
    let (mut d, k) = drawer_with(&["A"]);
    d.add(k[0], 1, depth(1.0));
    d.clear();
    assert!(d.draw().is_empty());
    d.clear();
    assert!(d.draw().is_empty());
    assert_eq!(d.run_count(), 0);
    // textures survive a clear
    assert_eq!(d.resolve(k[0]), Ok(&"A"));
}

struct Lcg(u64);

impl Lcg {
    fn next_unit(&mut self) -> f32 {
        self.0 = self.0.wrapping_mul(6364136223846793005).wrapping_add(1442695040888963407);
        ((self.0 >> 40) as f32) / ((1u64 << 24) as f32)
    }
}

fn groups(keys: &[ImageKey]) -> usize {
    let mut n = 0;
    for i in 0..keys.len() {
        if i == 0 || keys[i] != keys[i - 1] {
            n += 1;
        }
    }
    n
}

#[test]
fn interleaved_random_textures_batch_minimally() {
    let (mut d, k) = drawer_with(&["A", "B"]);
    let mut rng = Lcg(7);
    let mut submitted: Vec<(f32, u32)> = Vec::new();
    for i in 0..1000u32 {
        let z = rng.next_unit();
        assert!((0.0..1.0).contains(&z));
        d.add(k[(i % 2) as usize], i, depth(z));
        submitted.push((z, i));
    }
    let flat = d.flattened();
    assert_eq!(flat.len(), 1000);
    // sorted by depth, as a stable sort of the submissions would be
    submitted.sort_by(|a, b| a.0.partial_cmp(&b.0).unwrap());
    let got: Vec<u32> = flat.iter().map(|c| c.param).collect();
    let want: Vec<u32> = submitted.iter().map(|s| s.1).collect();
    assert_eq!(got, want);
    let keys: Vec<ImageKey> = flat.iter().map(|c| c.image_key).collect();
    let plan = d.draw();
    assert_eq!(plan.len(), groups(&keys));
    assert_eq!(d.run_count(), groups(&keys));
    assert!(plan.len() < 1000);
    // bounds are in order and do not overlap
    let stat = d.stat();
    for s in stat.iter() {
        assert!(s.min.key() <= s.max.key());
    }
    for w in stat.windows(2) {
        assert!(w[0].max.key() <= w[1].min.key());
        assert_ne!(w[0].image_key, w[1].image_key);
    }
}

#[test]
fn alternating_textures_give_one_run_per_group() {
    let (mut d, k) = drawer_with(&["A", "B"]);
    // depths 0..12, texture A on 0..4 and 8..12, B on 4..8, submitted out of order
    let order = [5u32, 0, 9, 3, 7, 11, 1, 4, 10, 2, 6, 8];
    for &i in order.iter() {
        let tex = if (4..8).contains(&i) { k[1] } else { k[0] };
        d.add(tex, i, depth(i as f32));
    }
    assert_eq!(d.run_count(), 3);
    let params: Vec<u32> = d.flattened().iter().map(|c| c.param).collect();
    assert_eq!(params, (0..12).collect::<Vec<u32>>());
}

#[test]
fn every_payload_is_kept() {
    let (mut d, k) = drawer_with(&["A", "B", "C"]);
    let depths = [0.3f32, -2.0, 7.5, 0.3, 1.0e-3, -0.0, 0.0, 100.0];
    for (i, z) in depths.iter().enumerate() {
        d.add(k[i % 3], i as u32, depth(*z));
    }
    let flat = d.flattened();
    assert_eq!(flat.len(), depths.len());
    for i in 0..depths.len() as u32 {
        assert_eq!(flat.iter().filter(|c| c.param == i).count(), 1);
    }
    for w in flat.windows(2) {
        assert!(w[0].depth.key() <= w[1].depth.key());
    }
}

#[test]
fn register_fails_when_domain_is_exhausted() {
    let mut d: Drawer<&'static str, u32> = Drawer::with_handle_domain(3);
    assert_eq!(d.add_image("a").unwrap().id(), 0);
    assert_eq!(d.add_image("b").unwrap().id(), 1);
    assert_eq!(d.add_image("c").unwrap().id(), 2);
    assert_eq!(d.add_image("d"), Err(DrawError::ResourceExhausted));
    assert_eq!(d.resolve(ImageKey(2)), Ok(&"c"));
}

#[test]
fn resolve_unknown_handle_is_invalid() {
    let (d, _) = drawer_with(&["A"]);
    assert_eq!(d.resolve(ImageKey(0)), Ok(&"A"));
    assert_eq!(d.resolve(ImageKey(1)), Err(DrawError::InvalidHandle));
}

#[test]
fn run_insert_split_and_order() {
    let key = ImageKey(4);
    let mut r: DrawUnit<u32> = DrawUnit::new_singleton(key, 1, depth(2.0));
    r.insert(depth(4.0), 2);
    r.insert(depth(2.0), 3);
    r.insert(depth(3.0), 4);
    let got: Vec<u32> = (0..r.len()).map(|i| r.get(i).param).collect();
    assert_eq!(got, vec![1, 3, 4, 2]);
    assert_eq!(r.bounds(), (depth(2.0), depth(4.0)));
    assert_eq!(r.order(depth(1.0)), Placement::Before);
    assert_eq!(r.order(depth(2.0)), Placement::Within);
    assert_eq!(r.order(depth(4.0)), Placement::Within);
    assert_eq!(r.order(depth(5.0)), Placement::After);
    let tail = r.split_off(depth(2.0));
    assert_eq!(r.params(), vec![1, 3]);
    assert_eq!(tail.params(), vec![4, 2]);
    assert_eq!(tail.image_key(), key);
}
