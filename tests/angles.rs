use unlight::angular::{angle_range, bucket_of, wrap_delta, AngularCache, CELLS, CENTER, SZ};
use unlight::position::BoardPosition;
use unlight::shadow::{in_full_light, pass_radius, shadow_floors};

fn raw_angle(x: f32, y: f32) -> i64 {
    let dist = (x * x + y * y).sqrt();
    let a = (x / dist).acos() * y.signum() * 48.0 / std::f32::consts::PI / 2.0;
    a.round() as i64
}

fn cache() -> AngularCache {
    let mut raw: Vec<i64> = Vec::new();
    let mut corners: Vec<[i64; 4]> = Vec::new();
    for ix in 0..SZ {
        for iy in 0..SZ {
            let x = ix as f32 - CENTER as f32;
            let y = iy as f32 - CENTER as f32;
            raw.push(if x == 0.0 && y == 0.0 { 0 } else { raw_angle(x, y) });
            corners.push([
                raw_angle(x - 0.5, y - 0.5),
                raw_angle(x - 0.5, y + 0.5),
                raw_angle(x + 0.5, y - 0.5),
                raw_angle(x + 0.5, y + 0.5),
            ]);
        }
    }
    assert_eq!(raw.len(), CELLS);
    AngularCache::new(&raw, &corners)
}

fn at(x: i64, y: i64) -> BoardPosition {
    BoardPosition::new(x, y, 0)
}

#[test]
fn buckets_wrap_into_a_turn() {
    assert_eq!(bucket_of(0), 0);
    assert_eq!(bucket_of(-1), 47);
    assert_eq!(bucket_of(-24), 24);
    assert_eq!(bucket_of(24), 24);
    assert_eq!(wrap_delta(30), -18);
    assert_eq!(wrap_delta(-30), 18);
    assert_eq!(wrap_delta(-24), -24);
    assert_eq!(wrap_delta(24), 24);
    assert_eq!(wrap_delta(-71), -23);
}

#[test]
fn angle_range_keeps_zero_inside() {
    assert_eq!(angle_range(0, &[1, 2, -1, 0]), (-1, 2));
    assert_eq!(angle_range(10, &[11, 12, 13, 14]), (0, 4));
    assert_eq!(angle_range(47, &[-1, 0, 1, -2]), (-1, 2));
    assert_eq!(angle_range(2, &[-24, 24, 2, 2]), (0, 22));
    assert_eq!(angle_range(30, &[-24, 24, 5, 6]), (-24, 23));
}

#[test]
fn cache_holds_axis_buckets_and_squared_distance() {
    let c = cache();
    let o = at(0, 0);
    assert_eq!(c.bpos_angle(&o, &at(3, 0)), 0);
    assert_eq!(c.bpos_angle(&o, &at(0, 3)), 12);
    assert_eq!(c.bpos_angle(&o, &at(-3, 0)), 24);
    assert_eq!(c.bpos_angle(&o, &at(0, -3)), 36);
    assert_eq!(c.bpos_angle(&o, &at(2, 2)), 6);
    assert_eq!(c.bpos_dist_sq(&o, &at(3, -4)), 25);
    assert_eq!(c.bpos_dist_sq(&o, &at(-32, 32)), 2048);
}

#[test]
fn zero_offset_has_bucket_zero_and_no_span() {
    let c = cache();
    let p = at(7, -3);
    assert_eq!(c.bpos_angle(&p, &p), 0);
    assert_eq!(c.bpos_angle_range(&p, &p), (0, 0));
    assert_eq!(c.bpos_dist_sq(&p, &p), 0);
}

#[test]
fn tables_depend_on_offset_alone_and_spans_are_ordered() {
    let c = cache();
    let roots = [at(0, 0), at(100, -50), at(-7, 13)];
    for dx in -CENTER..=CENTER {
        for dy in -CENTER..=CENTER {
            let first = &roots[0];
            let d0 = at(first.x + dx, first.y + dy);
            let a0 = c.bpos_angle(first, &d0);
            let r0 = c.bpos_angle_range(first, &d0);
            assert!(a0 < 48);
            assert!(r0.0 <= r0.1);
            for s in roots.iter().skip(1) {
                let d = at(s.x + dx, s.y + dy);
                assert_eq!(c.bpos_angle(s, &d), a0);
                assert_eq!(c.bpos_angle_range(s, &d), r0);
            }
        }
    }
}

#[test]
fn passes_narrow_their_radius() {
    assert_eq!(pass_radius(0), 26);
    assert_eq!(pass_radius(1), 6);
    assert_eq!(pass_radius(2), 3);
}

#[test]
fn open_floors_without_occluders() {
    let c = cache();
    let f = shadow_floors(&c, &at(0, 0), 6, &vec![], false);
    assert_eq!(f.len(), 48);
    assert!(f.iter().all(|&v| v == 49));
}

#[test]
fn opaque_source_lets_nothing_out() {
    let c = cache();
    let f = shadow_floors(&c, &at(0, 0), 6, &vec![at(2, 0)], true);
    assert!(f.iter().all(|&v| v == 0));
    assert!(!in_full_light(&f, 5, 1));
    assert!(in_full_light(&f, 5, 0));
}

#[test]
fn occluder_between_source_and_target_shadows_it() {
    let c = cache();
    let root = at(2, 2);
    let f = shadow_floors(&c, &root, 26, &vec![at(3, 2)], false);
    let blocked = at(4, 2);
    let open = at(2, 4);
    let b_blocked = c.bpos_angle(&root, &blocked);
    let b_open = c.bpos_angle(&root, &open);
    assert_eq!(f[b_blocked], 1);
    assert_eq!(f[b_open], 27 * 27);
    assert!(!in_full_light(&f, b_blocked, c.bpos_dist_sq(&root, &blocked) as u64));
    assert!(in_full_light(&f, b_open, c.bpos_dist_sq(&root, &open) as u64));
    assert!(in_full_light(&f, b_blocked, 1));
}

#[test]
fn nearest_occluder_sets_the_floor() {
    let c = cache();
    let root = at(0, 0);
    let f = shadow_floors(&c, &root, 26, &vec![at(5, 0), at(2, 0), at(9, 0)], false);
    assert_eq!(f[0], 4);
}

#[test]
fn another_occluder_never_raises_a_floor() {
    let c = cache();
    let root = at(0, 0);
    let base = vec![at(3, 1), at(-2, 4)];
    let f1 = shadow_floors(&c, &root, 26, &base, false);
    let mut more = base.clone();
    more.push(at(1, 1));
    let f2 = shadow_floors(&c, &root, 26, &more, false);
    for b in 0..48 {
        assert!(f2[b] <= f1[b]);
    }
    assert!(f2[6] < f1[6]);
}
