//! The projectile lifecycle and the cast trigger on concrete scenarios:
//! spawning, flight through air, block impacts, actor impacts, expiry,
//! and the missing-world soft failure.
use wandcast::events::{cast_event_for_swing, WandCastEvent};
use wandcast::geometry::{Aabb, BlockPos, Vec3};
use wandcast::projectile::{
    first_collision, spawn_projectile, CasterState, Effect, ParticleKind, Projectile,
    ProjectileManager, SPEED,
};
use wandcast::ray::RayHit;
use wandcast::world::{Actor, World, WorldSet, BLOCK_AIR, BLOCK_CAVE_AIR};

const STONE: u64 = 7;
const WORLD_HANDLE: u64 = 5;

fn v(x: i64, y: i64, z: i64) -> Vec3 {
    Vec3 { x, y, z }
}

fn bp(x: i64, y: i64, z: i64) -> BlockPos {
    BlockPos { x, y, z }
}

fn caster_at_origin() -> CasterState {
    CasterState { position: v(0, 64000, 0), look: v(0, 0, 1000), world: WORLD_HANDLE }
}

fn impacts(effects: &[Effect]) -> Vec<Vec3> {
    let mut r = Vec::new();
    for e in effects {
        if let Effect::Impact { position } = e {
            r.push(*position);
        }
    }
    r
}

#[test]
fn swing_on_bar_slot_zero_casts() {
    let r = cast_event_for_swing(9, 36);
    assert_eq!(r, Some(WandCastEvent { client: 9, slot: 36 }));
}

#[test]
fn swing_on_other_slot_is_ignored() {
    assert_eq!(cast_event_for_swing(9, 37), None);
    assert_eq!(cast_event_for_swing(9, 0), None);
    assert_eq!(cast_event_for_swing(9, 44), None);
}

#[test]
fn spawn_offsets_and_normalizes() {
    let caster = CasterState { position: v(100, 64000, 200), look: v(0, 0, 250), world: 3 };
    let p = spawn_projectile(11, 77, &caster);
    assert_eq!(p.id, 11);
    assert_eq!(p.spawn_time, 77);
    assert_eq!(p.world, 3);
    assert_eq!(p.particle, ParticleKind::Dust);
    assert_eq!(p.position, v(100, 65400, 200));
    assert_eq!(p.direction, v(0, 0, 1000));
    assert_eq!(p.speed, SPEED);
}

#[test]
fn first_collision_skips_passable_hits() {
    let hits = vec![
        RayHit::Block { state: BLOCK_AIR, pos: bp(0, 65, 0), offset: v(0, 400, 0) },
        RayHit::Block { state: BLOCK_CAVE_AIR, pos: bp(0, 65, 1), offset: v(0, 400, 0) },
        RayHit::Entity { entity: 8, position: v(0, 65400, 1500) },
        RayHit::Block { state: STONE, pos: bp(0, 65, 2), offset: v(0, 400, 0) },
    ];
    let r = first_collision(&hits);
    assert_eq!(r, Some(RayHit::Entity { entity: 8, position: v(0, 65400, 1500) }));
}

#[test]
fn first_collision_none_through_air() {
    let hits = vec![RayHit::Block { state: BLOCK_AIR, pos: bp(0, 65, 0), offset: v(0, 0, 0) }];
    assert_eq!(first_collision(&hits), None);
}

#[test]
fn cast_queue_drains_in_order_once() {
    let mut mgr = ProjectileManager::new();
    mgr.enqueue_cast(WandCastEvent { client: 1, slot: 36 });
    mgr.enqueue_cast(WandCastEvent { client: 2, slot: 36 });
    let evs = mgr.take_pending();
    assert_eq!(evs.len(), 2);
    assert_eq!(evs[0].client, 1);
    assert_eq!(evs[1].client, 2);
    assert!(mgr.take_pending().is_empty());
}

#[test]
fn cast_for_missing_caster_is_discarded() {
    let mut mgr = ProjectileManager::new();
    assert!(!mgr.spawn_from_cast(None, 0));
    assert_eq!(mgr.active.len(), 0);
    assert!(mgr.spawn_from_cast(Some(&caster_at_origin()), 0));
    assert_eq!(mgr.active.len(), 1);
}

#[test]
fn air_path_survives_exactly_to_ttl() {
    // air and cave air all along the path: the projectile lives through
    // every tick up to five seconds of age, emitting only its trail, and
    // despawns silently on the first tick past that.
    let mut world = World::new();
    for z in 0..=20 {
        world.set_block(bp(0, 65, z), if z == 3 { BLOCK_CAVE_AIR } else { BLOCK_AIR });
    }
    let mut worlds = WorldSet::new();
    worlds.insert(WORLD_HANDLE, world);
    let actors: Vec<Actor> = Vec::new();
    let mut mgr = ProjectileManager::new();
    mgr.spawn_from_cast(Some(&caster_at_origin()), 0);

    for tick in 1..=5u64 {
        let effects = mgr.tick(tick * 1000, &worlds, &actors);
        assert_eq!(mgr.active.len(), 1, "alive at {} ms", tick * 1000);
        assert_eq!(effects.len(), 1);
        match effects[0] {
            Effect::Trail { kind, position } => {
                assert_eq!(kind, ParticleKind::Dust);
                assert_eq!(position, v(0, 65400, (tick as i64) * 2500));
            },
            Effect::Impact { .. } => panic!("no impact may be drawn on a clear path"),
        }
    }
    // 5000 ms old: still alive; 6000 ms: age exceeds the time-to-live
    let effects = mgr.tick(6000, &worlds, &actors);
    assert_eq!(mgr.active.len(), 0);
    assert!(effects.is_empty());
}

#[test]
fn solid_block_despawns_with_one_impact_inside_cube() {
    let mut world = World::new();
    world.set_block(bp(0, 65, 2), STONE);
    let mut worlds = WorldSet::new();
    worlds.insert(WORLD_HANDLE, world);
    let actors: Vec<Actor> = Vec::new();
    let mut mgr = ProjectileManager::new();
    mgr.spawn_from_cast(Some(&caster_at_origin()), 0);

    let effects = mgr.tick(1000, &worlds, &actors);
    assert_eq!(mgr.active.len(), 0, "despawns on the tick the block is marched over");
    assert_eq!(effects.len(), 2);
    assert_eq!(effects[0], Effect::Trail { kind: ParticleKind::Dust, position: v(0, 65400, 2500) });
    let imps = impacts(&effects);
    assert_eq!(imps.len(), 1);
    let ip = imps[0];
    assert_eq!(ip, v(0, 65400, 2000));
    // inside the struck block's unit cube
    assert!(2000 <= ip.z && ip.z < 3000);
    assert!(65000 <= ip.y && ip.y < 66000);
    assert!(0 <= ip.x && ip.x < 1000);
}

#[test]
fn actor_before_block_takes_the_impact() {
    let mut world = World::new();
    world.set_block(bp(0, 65, 2), STONE);
    let mut worlds = WorldSet::new();
    worlds.insert(WORLD_HANDLE, world);
    let actors = vec![Actor {
        id: 7,
        hitbox: Aabb { min: v(-100, 65000, 1000), max: v(100, 66000, 1200) },
    }];
    let mut mgr = ProjectileManager::new();
    mgr.spawn_from_cast(Some(&caster_at_origin()), 0);

    let effects = mgr.tick(1000, &worlds, &actors);
    assert_eq!(mgr.active.len(), 0);
    assert_eq!(effects.len(), 2);
    let imps = impacts(&effects);
    assert_eq!(imps.len(), 1, "exactly one impact, none for the block behind the actor");
    assert_eq!(imps[0], v(0, 65400, 1000), "the impact is at the actor's recorded position");
}

#[test]
fn missing_world_skips_the_tick() {
    let worlds = WorldSet::new();
    let actors: Vec<Actor> = Vec::new();
    let mut mgr = ProjectileManager::new();
    mgr.spawn_from_cast(Some(&caster_at_origin()), 0);
    let before: Projectile = mgr.active[0];

    let effects = mgr.tick(1000, &worlds, &actors);
    assert!(effects.is_empty());
    assert_eq!(mgr.active.len(), 1);
    assert_eq!(mgr.active[0], before, "a skipped tick moves nothing");
}

#[test]
fn survivors_keep_their_order() {
    let mut world = World::new();
    world.set_block(bp(0, 65, 2), STONE);
    let mut worlds = WorldSet::new();
    worlds.insert(WORLD_HANDLE, world);
    let actors: Vec<Actor> = Vec::new();
    let mut mgr = ProjectileManager::new();
    // one shot into the wall, one straight up into the open
    mgr.spawn_from_cast(Some(&caster_at_origin()), 0);
    let up = CasterState { position: v(9000, 64000, 0), look: v(0, 500, 0), world: WORLD_HANDLE };
    mgr.spawn_from_cast(Some(&up), 0);
    let second_id = mgr.active[1].id;

    let effects = mgr.tick(1000, &worlds, &actors);
    assert_eq!(mgr.active.len(), 1);
    assert_eq!(mgr.active[0].id, second_id);
    assert_eq!(impacts(&effects).len(), 1);
}
