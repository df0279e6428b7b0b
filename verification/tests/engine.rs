//! The spatial query engine and its geometry, exercised on concrete
//! worlds: sampling, ordering, deduplication and the scenario rays.
use wandcast::geometry::{block_axis, isqrt_u64, normalize, Aabb, BlockPos, Vec3};
use wandcast::ray::{raycast, Ray, RayHit};
use wandcast::world::{Actor, World, WorldSet, BLOCK_AIR, BLOCK_CAVE_AIR};

const STONE: u64 = 7;

fn v(x: i64, y: i64, z: i64) -> Vec3 {
    Vec3 { x, y, z }
}

fn bp(x: i64, y: i64, z: i64) -> BlockPos {
    BlockPos { x, y, z }
}

#[test]
fn isqrt_small_values() {
    assert_eq!(isqrt_u64(0), 0);
    assert_eq!(isqrt_u64(1), 1);
    assert_eq!(isqrt_u64(15), 3);
    assert_eq!(isqrt_u64(16), 4);
    assert_eq!(isqrt_u64(1_000_000), 1000);
}

#[test]
fn normalize_rescales_to_milli() {
    let d = normalize(v(300, 0, 400));
    assert_eq!(d, v(600, 0, 800));
    let d2 = normalize(v(0, 0, 500));
    assert_eq!(d2, v(0, 0, 1000));
    let d3 = normalize(v(0, -2000, 0));
    assert_eq!(d3, v(0, -1000, 0));
}

#[test]
fn block_axis_floors_toward_negative() {
    assert_eq!(block_axis(0), 0);
    assert_eq!(block_axis(999), 0);
    assert_eq!(block_axis(1000), 1);
    assert_eq!(block_axis(-1), -1);
    assert_eq!(block_axis(-1000), -1);
    assert_eq!(block_axis(-1001), -2);
}

#[test]
fn aabb_closed_face_overlap() {
    let a = Aabb { min: v(0, 0, 0), max: v(1000, 1000, 1000) };
    let point_on_face = Aabb { min: v(1000, 500, 500), max: v(1000, 500, 500) };
    assert!(a.intersects(&point_on_face));
    let outside = Aabb { min: v(1001, 500, 500), max: v(1001, 500, 500) };
    assert!(!a.intersects(&outside));
}

#[test]
fn ray_at_walks_the_line() {
    let ray = Ray::new(v(100, 200, 300), v(0, -1000, 0), 5000);
    let p = ray.at(1500);
    assert_eq!(p, v(100, -1300, 300));
    assert_eq!(ray.at(0), v(100, 200, 300));
}

#[test]
fn world_lookup_and_override() {
    let mut w = World::new();
    assert_eq!(w.block_at(&bp(1, 2, 3)), None);
    w.set_block(bp(1, 2, 3), STONE);
    w.set_block(bp(4, 5, 6), BLOCK_AIR);
    assert_eq!(w.block_at(&bp(1, 2, 3)), Some(STONE));
    assert_eq!(w.block_at(&bp(4, 5, 6)), Some(BLOCK_AIR));
    w.set_block(bp(1, 2, 3), 9);
    assert_eq!(w.block_at(&bp(1, 2, 3)), Some(9));
    assert_eq!(w.block_at(&bp(0, 0, 0)), None);
}

#[test]
fn world_set_resolves_handles() {
    let mut ws = WorldSet::new();
    ws.insert(5, World::new());
    assert!(ws.get(5).is_some());
    assert!(ws.get(6).is_none());
}

#[test]
fn zero_length_ray_reports_nothing() {
    let mut w = World::new();
    w.set_block(bp(0, 0, 0), STONE);
    let actors = vec![Actor {
        id: 1,
        hitbox: Aabb { min: v(-100, -100, -100), max: v(100, 100, 100) },
    }];
    let ray = Ray::new(v(0, 0, 0), v(0, 0, 1000), 0);
    let hits = raycast(ray, &w, &actors);
    assert!(hits.is_empty());
}

#[test]
fn unloaded_world_reports_no_block_hits() {
    let w = World::new();
    let actors: Vec<Actor> = Vec::new();
    let ray = Ray::new(v(0, 65400, 0), v(0, 0, 1000), 2500);
    let hits = raycast(ray, &w, &actors);
    assert!(hits.is_empty());
}

#[test]
fn scenario_block_ahead_is_hit_before_ray_end() {
    // origin (0, 65.4, 0), direction +z, length 2.5 blocks, one solid
    // block at (0, 65, 2): one hit, at that coordinate, with offset
    // almost zero on x and z.
    let mut w = World::new();
    w.set_block(bp(0, 65, 2), STONE);
    let actors: Vec<Actor> = Vec::new();
    let ray = Ray::new(v(0, 65400, 0), v(0, 0, 1000), 2500);
    let hits = raycast(ray, &w, &actors);
    assert_eq!(hits.len(), 1);
    match hits[0] {
        RayHit::Block { state, pos, offset } => {
            assert_eq!(state, STONE);
            assert_eq!(pos, bp(0, 65, 2));
            assert_eq!(offset.x, 0);
            assert_eq!(offset.z, 0);
            assert_eq!(offset.y, 400);
        },
        RayHit::Entity { .. } => panic!("expected a block hit"),
    }
}

#[test]
fn hits_are_ordered_and_deduplicated() {
    // air block, then an actor, then a second block along one ray: three
    // hits in sample order, each identity once, though hundreds of
    // samples fall inside each of them.
    let mut w = World::new();
    w.set_block(bp(0, 65, 0), BLOCK_AIR);
    w.set_block(bp(0, 65, 1), STONE);
    let actors = vec![Actor {
        id: 42,
        hitbox: Aabb { min: v(-100, 65000, 500), max: v(100, 66000, 700) },
    }];
    let ray = Ray::new(v(0, 65400, 0), v(0, 0, 1000), 2500);
    let hits = raycast(ray, &w, &actors);
    assert_eq!(hits.len(), 3);
    match hits[0] {
        RayHit::Block { state, pos, .. } => {
            assert_eq!(state, BLOCK_AIR);
            assert_eq!(pos, bp(0, 65, 0));
        },
        RayHit::Entity { .. } => panic!("expected the air block first"),
    }
    match hits[1] {
        RayHit::Entity { entity, position } => {
            assert_eq!(entity, 42);
            assert_eq!(position, v(0, 65400, 500));
        },
        RayHit::Block { .. } => panic!("expected the actor second"),
    }
    match hits[2] {
        RayHit::Block { state, pos, offset } => {
            assert_eq!(state, STONE);
            assert_eq!(pos, bp(0, 65, 1));
            assert_eq!(offset, v(0, 400, 0));
        },
        RayHit::Entity { .. } => panic!("expected the stone block last"),
    }
}

#[test]
fn duplicate_ray_through_cave_air_reports_it_once() {
    let mut w = World::new();
    w.set_block(bp(0, 65, 1), BLOCK_CAVE_AIR);
    let actors: Vec<Actor> = Vec::new();
    let ray = Ray::new(v(0, 65400, 0), v(0, 0, 1000), 2500);
    let hits = raycast(ray, &w, &actors);
    assert_eq!(hits.len(), 1);
    match hits[0] {
        RayHit::Block { state, pos, .. } => {
            assert_eq!(state, BLOCK_CAVE_AIR);
            assert_eq!(pos, bp(0, 65, 1));
        },
        RayHit::Entity { .. } => panic!("expected the cave-air block"),
    }
}
