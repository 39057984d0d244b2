use raytracer::bvh::{BoxKey, BvhChild, BvhLayout};
use raytracer::nearest::nearest_in_list;

fn order_key(x: f64) -> u64 {
    let bits = x.to_bits();
    if bits >> 63 == 1 {
        !bits
    } else {
        bits | (1u64 << 63)
    }
}

#[derive(Clone, Copy)]
struct Ball {
    c: [f64; 3],
    r: f64,
}

impl Ball {
    fn lo(&self) -> [f64; 3] {
        [self.c[0] - self.r, self.c[1] - self.r, self.c[2] - self.r]
    }
    fn hi(&self) -> [f64; 3] {
        [self.c[0] + self.r, self.c[1] + self.r, self.c[2] + self.r]
    }
    fn hit(&self, o: [f64; 3], d: [f64; 3], t_min: f64, t_max: f64) -> Option<f64> {
        let oc = [o[0] - self.c[0], o[1] - self.c[1], o[2] - self.c[2]];
        let a = d[0] * d[0] + d[1] * d[1] + d[2] * d[2];
        let half_b = oc[0] * d[0] + oc[1] * d[1] + oc[2] * d[2];
        let c = oc[0] * oc[0] + oc[1] * oc[1] + oc[2] * oc[2] - self.r * self.r;
        let disc = half_b * half_b - a * c;
        if disc < 0.0 {
            return None;
        }
        let root = (-half_b - disc.sqrt()) / a;
        if root < t_min || t_max < root {
            None
        } else {
            Some(root)
        }
    }
}

fn slab_hit(lo: [f64; 3], hi: [f64; 3], o: [f64; 3], d: [f64; 3], t_min: f64, t_max: f64) -> bool {
    let mut t_min = t_min;
    let mut t_max = t_max;
    for a in 0..3 {
        let inv = 1.0 / d[a];
        let mut t0 = (lo[a] - o[a]) * inv;
        let mut t1 = (hi[a] - o[a]) * inv;
        if inv < 0.0 {
            std::mem::swap(&mut t0, &mut t1);
        }
        t_min = if t0 > t_min { t0 } else { t_min };
        t_max = if t1 < t_max { t1 } else { t_max };
        if t_max <= t_min {
            return false;
        }
    }
    true
}

fn keys_of(balls: &[Ball]) -> Vec<BoxKey> {
    balls
        .iter()
        .map(|b| {
            let lo = b.lo();
            BoxKey { x: order_key(lo[0]), y: order_key(lo[1]), z: order_key(lo[2]) }
        })
        .collect()
}

fn node_boxes(layout: &BvhLayout, balls: &[Ball]) -> Vec<([f64; 3], [f64; 3])> {
    let mut boxes: Vec<([f64; 3], [f64; 3])> = Vec::new();
    for link in &layout.nodes {
        let side = |c: BvhChild, boxes: &Vec<([f64; 3], [f64; 3])>| match c {
            BvhChild::Object(o) => (balls[o].lo(), balls[o].hi()),
            BvhChild::Node(j) => boxes[j],
        };
        let (l0, l1) = side(link.left, &boxes);
        let (r0, r1) = side(link.right, &boxes);
        let mut lo = [0.0; 3];
        let mut hi = [0.0; 3];
        for a in 0..3 {
            lo[a] = l0[a].min(r0[a]);
            hi[a] = l1[a].max(r1[a]);
        }
        boxes.push((lo, hi));
    }
    boxes
}

struct Lcg(u64);

impl Lcg {
    fn next(&mut self) -> f64 {
        self.0 = self.0.wrapping_mul(6364136223846793005).wrapping_add(1442695040888963407);
        ((self.0 >> 11) as f64) / ((1u64 << 53) as f64)
    }
    fn range(&mut self, lo: f64, hi: f64) -> f64 {
        lo + (hi - lo) * self.next()
    }
}

fn scene(rng: &mut Lcg, n: usize) -> Vec<Ball> {
    (0..n)
        .map(|_| Ball {
            c: [rng.range(-10.0, 10.0), rng.range(-10.0, 10.0), rng.range(-10.0, 10.0)],
            r: rng.range(0.2, 1.5),
        })
        .collect()
}

fn search_tree(layout: &BvhLayout, balls: &[Ball], o: [f64; 3], d: [f64; 3]) -> Option<u64> {
    let boxes = node_boxes(layout, balls);
    let hit_object = |i: usize| balls[i].hit(o, d, 0.001, f64::MAX).map(|t| (order_key(t), i));
    let hit_box = |j: usize| slab_hit(boxes[j].0, boxes[j].1, o, d, 0.001, f64::MAX);
    layout.nearest_hit(&hit_object, &hit_box).map(|(k, _)| k)
}

fn search_list(balls: &[Ball], o: [f64; 3], d: [f64; 3]) -> Option<u64> {
    let hit_object = |i: usize| balls[i].hit(o, d, 0.001, f64::MAX).map(|t| (order_key(t), i));
    nearest_in_list(balls.len(), &hit_object).map(|(k, _)| k)
}

fn objects_below(layout: &BvhLayout, c: BvhChild, out: &mut Vec<usize>) {
    match c {
        BvhChild::Object(o) => {
            if !out.contains(&o) {
                out.push(o)
            }
        }
        BvhChild::Node(j) => {
            objects_below(layout, layout.nodes[j].left, out);
            objects_below(layout, layout.nodes[j].right, out);
        }
    }
}

#[test]
fn single_object_fills_both_children() {
    let keys = vec![BoxKey { x: 1, y: 2, z: 3 }];
    let layout = BvhLayout::new(&keys);
    assert_eq!(layout.nodes.len(), 1);
    assert_eq!(layout.root(), 0);
    assert_eq!(layout.nodes[0].left, BvhChild::Object(0));
    assert_eq!(layout.nodes[0].right, BvhChild::Object(0));
}

#[test]
fn two_objects_are_the_children() {
    let keys = vec![BoxKey { x: 9, y: 9, z: 9 }, BoxKey { x: 1, y: 1, z: 1 }];
    let layout = BvhLayout::new(&keys);
    assert_eq!(layout.nodes.len(), 1);
    assert_eq!(layout.nodes[0].left, BvhChild::Object(0));
    assert_eq!(layout.nodes[0].right, BvhChild::Object(1));
}

#[test]
fn five_objects_split_two_and_three() {
    let keys: Vec<BoxKey> = (0..5u64).map(|i| BoxKey { x: 10 - i, y: i * 3, z: (i * 7) % 5 }).collect();
    let layout = BvhLayout::new(&keys);
    let root = layout.nodes[layout.root()];
    let mut left = Vec::new();
    let mut right = Vec::new();
    objects_below(&layout, root.left, &mut left);
    objects_below(&layout, root.right, &mut right);
    assert_eq!(left.len(), 2);
    assert_eq!(right.len(), 3);
    let mut all: Vec<usize> = left.iter().chain(right.iter()).cloned().collect();
    all.sort();
    assert_eq!(all, vec![0, 1, 2, 3, 4]);
    let axis_key = |k: &BoxKey, a: usize| [k.x, k.y, k.z][a];
    let separated = (0..3).any(|a| {
        left.iter().all(|&l| right.iter().all(|&r| axis_key(&keys[l], a) <= axis_key(&keys[r], a)))
    });
    assert!(separated);
}

#[test]
fn every_object_reached_once() {
    let keys: Vec<BoxKey> = (0..37u64).map(|i| BoxKey { x: (i * 13) % 37, y: (i * 5) % 37, z: i }).collect();
    let layout = BvhLayout::new(&keys);
    let mut all = Vec::new();
    objects_below(&layout, BvhChild::Node(layout.root()), &mut all);
    all.sort();
    assert_eq!(all, (0..37).collect::<Vec<usize>>());
}

#[test]
fn split_axis_is_drawn_at_random() {
    // On x the objects come in index order, on y in reverse, on z interleaved: each
    // axis gives another left half at the root.
    let keys = vec![
        BoxKey { x: 0, y: 3, z: 0 },
        BoxKey { x: 1, y: 2, z: 2 },
        BoxKey { x: 2, y: 1, z: 1 },
        BoxKey { x: 3, y: 0, z: 3 },
    ];
    let mut seen: Vec<Vec<usize>> = Vec::new();
    for _ in 0..200 {
        let layout = BvhLayout::new(&keys);
        let mut left = Vec::new();
        objects_below(&layout, layout.nodes[layout.root()].left, &mut left);
        left.sort();
        if !seen.contains(&left) {
            seen.push(left);
        }
    }
    assert!(seen.len() >= 2);
    for left in &seen {
        assert!(left == &vec![0, 1] || left == &vec![2, 3] || left == &vec![0, 2]);
    }
}

#[test]
fn hierarchy_matches_linear_scan() {
    let mut rng = Lcg(7);
    let balls = scene(&mut rng, 60);
    let layout = BvhLayout::new(&keys_of(&balls));
    let mut hits = 0;
    for _ in 0..500 {
        let o = [rng.range(-15.0, 15.0), rng.range(-15.0, 15.0), rng.range(-15.0, 15.0)];
        let d = [rng.range(-1.0, 1.0), rng.range(-1.0, 1.0), rng.range(-1.0, 1.0)];
        let tree = search_tree(&layout, &balls, o, d);
        let list = search_list(&balls, o, d);
        assert_eq!(tree, list);
        if tree.is_some() {
            hits += 1;
        }
    }
    assert!(hits > 0);
}

#[test]
fn permuted_scene_gives_same_nearest_hit() {
    let mut rng = Lcg(11);
    let balls = scene(&mut rng, 40);
    let mut permuted = balls.clone();
    permuted.reverse();
    permuted.swap(3, 17);
    let first = BvhLayout::new(&keys_of(&balls));
    let second = BvhLayout::new(&keys_of(&permuted));
    for _ in 0..300 {
        let o = [rng.range(-15.0, 15.0), rng.range(-15.0, 15.0), 20.0];
        let d = [rng.range(-0.5, 0.5), rng.range(-0.5, 0.5), -1.0];
        assert_eq!(search_tree(&first, &balls, o, d), search_tree(&second, &permuted, o, d));
    }
}

#[test]
fn sphere_straight_ahead_hit_at_distance_minus_radius() {
    let balls = vec![Ball { c: [0.0, 0.0, 0.0], r: 2.0 }];
    let layout = BvhLayout::new(&keys_of(&balls));
    let found = search_tree(&layout, &balls, [0.0, 0.0, 5.0], [0.0, 0.0, -1.0]);
    assert_eq!(found, Some(order_key(3.0)));
}

#[test]
fn ray_pointing_away_misses() {
    let balls = vec![Ball { c: [0.0, 0.0, 0.0], r: 2.0 }, Ball { c: [0.0, 5.0, 0.0], r: 1.0 }];
    let layout = BvhLayout::new(&keys_of(&balls));
    assert_eq!(search_tree(&layout, &balls, [0.0, 0.0, 5.0], [0.0, 0.0, 1.0]), None);
    assert_eq!(search_list(&balls, [0.0, 0.0, 5.0], [0.0, 0.0, 1.0]), None);
}

fn height(layout: &BvhLayout, c: BvhChild) -> u32 {
    match c {
        BvhChild::Object(_) => 0,
        BvhChild::Node(j) => 1 + height(layout, layout.nodes[j].left).max(height(layout, layout.nodes[j].right)),
    }
}

#[test]
fn hierarchy_height_is_logarithmic() {
    for &n in &[1u64, 2, 3, 4, 5, 8, 9, 100, 1000] {
        let keys: Vec<BoxKey> = (0..n).map(|i| BoxKey { x: (i * 7919) % n, y: i, z: n - i }).collect();
        let layout = BvhLayout::new(&keys);
        let h = height(&layout, BvhChild::Node(layout.root()));
        let mut bound: u32 = 1;
        while (1u64 << bound) < n {
            bound += 1;
        }
        assert!(h <= bound, "n = {}: height {} over {}", n, h, bound);
    }
}
