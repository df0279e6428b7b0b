//! The projectile lifecycle: spawning from a cast, advancing tick by
//! tick, and the termination rules applied to the spatial query's hits.
//! The engine reports what is present; this module decides what blocks a
//! shot: any actor, and any block that is not air.
use vstd::prelude::*;
use crate::geometry::{normalize, normalize_spec, norm_sq, scale_milli, Vec3};
use crate::ray::{lemma_march_elem_bounds, march_hits, n_samples, Ray, RayHit};
use crate::events::WandCastEvent;
use crate::world::{
    distinct_actor_ids, is_air, world_lookup, Actor, World, WorldEntry, WorldSet,
};
use crate::{MAX_RAY_LENGTH, MILLI};
use crate::geometry::{MAX_LOOK, MIN_LOOK_SQ};

verus! {

/// Distance a projectile travels each tick, in milliblocks.
pub const SPEED: i64 = 2500;

/// How long a projectile lives, in milliseconds.
pub const TTL_MILLIS: u64 = 5000;

/// How far above the caster's feet a projectile spawns, in milliblocks.
pub const CAST_HEIGHT_OFFSET: i64 = 1400;

/// Largest coordinate magnitude a projectile may fly in; one tick's
/// travel from here still leaves ray samples inside `MAX_COORD`.
pub const POS_LIMIT: i64 = 100_000_000;

/// The kinds of visual effect a projectile asks the renderer for.
#[derive(Clone, Copy, PartialEq, Eq, Structural, Debug)]
pub enum ParticleKind {
    /// The trail drawn along the flight path.
    Dust,
    /// The burst drawn where a projectile lands.
    Explosion,
}

/// A fire-and-forget command to the external renderer.
#[derive(Clone, Copy, PartialEq, Eq, Structural, Debug)]
pub enum Effect {
    /// Draw a projectile's trail at its new position.
    Trail {
        /// The projectile's own trail particle.
        kind: ParticleKind,
        /// The projectile's position after this tick's movement.
        position: Vec3,
    },
    /// Draw an impact burst where something was struck.
    Impact {
        /// The point struck: a sample inside the struck actor's volume,
        /// or the sample offset within the struck block.
        position: Vec3,
    },
}

/// One live projectile, owned by the lifecycle manager alone.
#[derive(Clone, Copy, PartialEq, Eq, Structural, Debug)]
pub struct Projectile {
    /// The manager's handle for this projectile.
    pub id: u64,
    /// When the projectile was cast, in milliseconds.
    pub spawn_time: u64,
    /// The handle of the world the projectile flies in.
    pub world: u64,
    /// The trail particle drawn along the path.
    pub particle: ParticleKind,
    /// Current position, in milliblocks.
    pub position: Vec3,
    /// Unit-scale flight direction, fixed at spawn.
    pub direction: Vec3,
    /// Milliblocks travelled per tick.
    pub speed: i64,
}

impl Projectile {
    /// Bounds every live projectile keeps: position inside the flight
    /// region, direction no longer than one block per axis, speed
    /// nonnegative and bounded.
    pub open spec fn wf(self) -> bool {
        &&& -POS_LIMIT <= self.position.x <= POS_LIMIT
        &&& -POS_LIMIT <= self.position.y <= POS_LIMIT
        &&& -POS_LIMIT <= self.position.z <= POS_LIMIT
        &&& -MILLI <= self.direction.x <= MILLI
        &&& -MILLI <= self.direction.y <= MILLI
        &&& -MILLI <= self.direction.z <= MILLI
        &&& 0 <= self.speed <= MAX_RAY_LENGTH
    }

    /// Whether the projectile's age exceeds the time-to-live at `now`.
    pub open spec fn expired(self, now: u64) -> bool {
        now - self.spawn_time > TTL_MILLIS
    }

    /// The ray one tick of flight sweeps: from the position before the
    /// move, along the flight direction, one tick's travel long.
    pub open spec fn flight_ray(self) -> Ray {
        Ray { origin: self.position, direction: self.direction, length: self.speed }
    }

    /// The projectile after one tick's movement.
    pub open spec fn advanced(self) -> Projectile {
        Projectile {
            position: Vec3 {
                x: (self.position.x + scale_milli(self.direction.x as int, self.speed as int)) as i64,
                y: (self.position.y + scale_milli(self.direction.y as int, self.speed as int)) as i64,
                z: (self.position.z + scale_milli(self.direction.z as int, self.speed as int)) as i64,
            },
            ..self
        }
    }
}

/// Whether a hit terminates a projectile: every actor does, and every
/// block that is neither air nor cave air.
pub open spec fn is_blocking(h: RayHit) -> bool {
    match h {
        RayHit::Entity { .. } => true,
        RayHit::Block { state, .. } => !is_air(state),
    }
}

/// The first blocking hit at or after position `i`, scanning in order.
pub open spec fn first_blocking_from(hits: Seq<RayHit>, i: int) -> Option<RayHit>
    decreases hits.len() - i,
{
    if i < 0 || i >= hits.len() {
        None
    } else if is_blocking(hits[i]) {
        Some(hits[i])
    } else {
        first_blocking_from(hits, i + 1)
    }
}

/// The first blocking hit of an ordered hit sequence, if any.
pub open spec fn first_blocking(hits: Seq<RayHit>) -> Option<RayHit> {
    first_blocking_from(hits, 0)
}

/// A first blocking hit is an element of the sequence.
pub proof fn lemma_first_blocking_is_elem(hits: Seq<RayHit>, i: int)
    requires
        0 <= i <= hits.len(),
        first_blocking_from(hits, i) is Some,
    ensures
        exists|m: int|
            i <= m < hits.len() && #[trigger] hits[m] == first_blocking_from(hits, i)->Some_0
                && is_blocking(hits[m]),
    decreases hits.len() - i,
{
    if is_blocking(hits[i]) {
        assert(hits[i] == first_blocking_from(hits, i)->Some_0 && is_blocking(hits[i]));
    } else {
        lemma_first_blocking_is_elem(hits, i + 1);
    }
}

/// Walk the hits in order and take the first that blocks: the first
/// actor met, or the first non-air block, whichever came earlier.
pub fn first_collision(hits: &Vec<RayHit>) -> (r: Option<RayHit>)
    ensures
        r == first_blocking(hits@),
{
    let mut j: usize = 0;
    while j < hits.len()
        invariant
            j <= hits@.len(),
            first_blocking(hits@) == first_blocking_from(hits@, j as int),
        decreases hits@.len() - j,
    {
        let h = hits[j];
        let blocking = match h {
            RayHit::Entity { .. } => true,
            RayHit::Block { state, .. } => state != crate::world::BLOCK_AIR && state
                != crate::world::BLOCK_CAVE_AIR,
        };
        if blocking {
            return Some(h);
        }
        j = j + 1;
    }
    None
}

/// Where a blocking hit's impact burst is drawn: the sample point inside
/// the actor's volume, or the struck block's corner plus the in-block
/// offset.
pub open spec fn impact_position(h: RayHit) -> Vec3 {
    match h {
        RayHit::Entity { position, .. } => position,
        RayHit::Block { pos, offset, .. } => Vec3 {
            x: (pos.x * MILLI + offset.x) as i64,
            y: (pos.y * MILLI + offset.y) as i64,
            z: (pos.z * MILLI + offset.z) as i64,
        },
    }
}

/// The hits one tick of flight sweeps over.
pub open spec fn tick_hits(p: Projectile, w: World, actors: Seq<Actor>) -> Seq<RayHit> {
    march_hits(p.flight_ray(), w.blocks@, actors, n_samples(p.speed as int))
}

/// The trail command one tick of flight emits.
pub open spec fn trail_of(p: Projectile) -> Effect {
    Effect::Trail { kind: p.particle, position: p.advanced().position }
}

/// One tick of flight in a resolved world: the projectile moves one
/// step, its trail is drawn at the new position, and the first blocking
/// hit along the step, if any, despawns it with one impact burst.
pub open spec fn flight_step(p: Projectile, w: World, actors: Seq<Actor>) -> (
    Projectile,
    bool,
    Seq<Effect>,
) {
    match first_blocking(tick_hits(p, w, actors)) {
        Some(h) => (p.advanced(), true, seq![trail_of(p), Effect::Impact {
            position: impact_position(h),
        }]),
        None => (p.advanced(), false, seq![trail_of(p)]),
    }
}

/// One whole per-tick transition of one projectile: age check first,
/// then world resolution, then movement, trail, query and termination.
pub open spec fn step_result(
    p: Projectile,
    now: u64,
    world: Option<World>,
    actors: Seq<Actor>,
) -> (Projectile, bool, Seq<Effect>) {
    if p.expired(now) {
        (p, true, Seq::empty())
    } else {
        match world {
            None => (p, false, Seq::empty()),
            Some(w) => flight_step(p, w, actors),
        }
    }
}

/// What one tick did to one projectile.
pub struct TickOutcome {
    /// Whether the projectile left the active set this tick.
    pub despawn: bool,
    /// The effect commands this tick emitted, in order.
    pub effects: Vec<Effect>,
}

/// The world the step sees, as a value.
pub open spec fn world_of(world: Option<&World>) -> Option<World> {
    match world {
        Some(w) => Some(*w),
        None => None,
    }
}

/// Advance one projectile by one tick against this tick's world and
/// actor snapshot. An expired projectile despawns silently; a missing
/// world skips the tick without despawning; otherwise the projectile
/// moves, leaves its trail, and despawns with one impact burst exactly
/// when its step crossed an actor or a non-air block.
///
/// The snapshot is taken as handed in: a caster whose own hitbox stands
/// in it can be struck by its own shot. Whether to exclude the caster is
/// an open design choice left to the caller assembling the snapshot.
pub fn step_projectile(
    p: &mut Projectile,
    now: u64,
    world: Option<&World>,
    actors: &Vec<Actor>,
) -> (r: TickOutcome)
    requires
        old(p).wf(),
        old(p).spawn_time <= now,
        distinct_actor_ids(actors@),
    ensures
        (*final(p), r.despawn, r.effects@) == step_result(*old(p), now, world_of(world), actors@),
{
    if now - p.spawn_time > TTL_MILLIS {
        return TickOutcome { despawn: true, effects: Vec::new() };
    }
    let w = match world {
        Some(w) => w,
        None => {
            return TickOutcome { despawn: false, effects: Vec::new() };
        },
    };
    let ray = Ray::new(p.position, p.direction, p.speed);
    let travel = p.direction.scaled(p.speed);
    p.position = p.position.add(travel);
    proof {
        assert(*p == old(p).advanced());
    }
    let trail = Effect::Trail { kind: p.particle, position: p.position };
    let hits = crate::ray::raycast(ray, w, actors);
    let col = first_collision(&hits);
    let mut effects: Vec<Effect> = Vec::new();
    effects.push(trail);
    match col {
        None => {
            proof {
                assert(effects@ =~= seq![trail_of(*old(p))]);
            }
            TickOutcome { despawn: false, effects }
        },
        Some(h) => {
            proof {
                lemma_first_blocking_is_elem(hits@, 0);
                let m = choose|m: int|
                    0 <= m < hits@.len() && #[trigger] hits@[m] == first_blocking_from(hits@, 0)->Some_0
                        && is_blocking(hits@[m]);
                lemma_march_elem_bounds(
                    ray,
                    w.blocks@,
                    actors@,
                    n_samples(ray.length as int),
                    m,
                );
            }
            let ipos = match h {
                RayHit::Entity { position, .. } => position,
                RayHit::Block { pos, offset, .. } => Vec3 {
                    x: pos.x * MILLI + offset.x,
                    y: pos.y * MILLI + offset.y,
                    z: pos.z * MILLI + offset.z,
                },
            };
            proof {
                assert(ipos == impact_position(h));
            }
            effects.push(Effect::Impact { position: ipos });
            proof {
                assert(effects@ =~= seq![trail_of(*old(p)), Effect::Impact {
                    position: impact_position(h),
                }]);
            }
            TickOutcome { despawn: true, effects }
        },
    }
}

/// What the cast trigger reads of a caster at cast time.
#[derive(Clone, Copy, PartialEq, Eq, Structural, Debug)]
pub struct CasterState {
    /// The caster's feet position, in milliblocks.
    pub position: Vec3,
    /// The caster's look vector; any scale, but not near zero.
    pub look: Vec3,
    /// The handle of the world the caster stands in.
    pub world: u64,
}

impl CasterState {
    /// Bounds under which a cast spawns a well-formed projectile.
    pub open spec fn wf(self) -> bool {
        &&& -POS_LIMIT <= self.position.x <= POS_LIMIT
        &&& -POS_LIMIT <= self.position.y <= POS_LIMIT - CAST_HEIGHT_OFFSET
        &&& -POS_LIMIT <= self.position.z <= POS_LIMIT
        &&& -MAX_LOOK <= self.look.x <= MAX_LOOK
        &&& -MAX_LOOK <= self.look.y <= MAX_LOOK
        &&& -MAX_LOOK <= self.look.z <= MAX_LOOK
        &&& MIN_LOOK_SQ <= norm_sq(self.look)
    }
}

/// The projectile a cast at `now` by this caster produces: spawned one
/// cast height above the feet, flying along the normalized look vector
/// at the fixed speed, trailing dust.
pub open spec fn spawned_projectile(id: u64, now: u64, caster: CasterState) -> Projectile {
    Projectile {
        id,
        spawn_time: now,
        world: caster.world,
        particle: ParticleKind::Dust,
        position: Vec3 {
            x: caster.position.x,
            y: (caster.position.y + CAST_HEIGHT_OFFSET) as i64,
            z: caster.position.z,
        },
        direction: Vec3 {
            x: normalize_spec(caster.look).0 as i64,
            y: normalize_spec(caster.look).1 as i64,
            z: normalize_spec(caster.look).2 as i64,
        },
        speed: SPEED,
    }
}

/// Build the projectile one cast produces.
pub fn spawn_projectile(id: u64, now: u64, caster: &CasterState) -> (p: Projectile)
    requires
        caster.wf(),
    ensures
        p == spawned_projectile(id, now, *caster),
        p.wf(),
        p.spawn_time == now,
{
    let direction = normalize(caster.look);
    Projectile {
        id,
        spawn_time: now,
        world: caster.world,
        particle: ParticleKind::Dust,
        position: Vec3 {
            x: caster.position.x,
            y: caster.position.y + CAST_HEIGHT_OFFSET,
            z: caster.position.z,
        },
        direction,
        speed: SPEED,
    }
}

/// One tick over a whole active set, head first: each projectile is
/// stepped against the world its handle resolves to; survivors keep
/// their order, and every effect is kept in emission order.
pub open spec fn tick_all(
    ps: Seq<Projectile>,
    now: u64,
    ws: Seq<WorldEntry>,
    actors: Seq<Actor>,
) -> (Seq<Projectile>, Seq<Effect>)
    decreases ps.len(),
{
    if ps.len() == 0 {
        (Seq::empty(), Seq::empty())
    } else {
        let head = step_result(ps[0], now, world_lookup(ws, ps[0].world), actors);
        let rest = tick_all(ps.drop_first(), now, ws, actors);
        (
            if head.1 {
                rest.0
            } else {
                seq![head.0] + rest.0
            },
            head.2 + rest.1,
        )
    }
}

/// The owner of every live projectile: the active set, the queue of
/// cast requests awaiting this tick, and the next free handle.
pub struct ProjectileManager {
    /// The live projectiles, stepped once per tick in stable order.
    pub active: Vec<Projectile>,
    /// Cast requests waiting to be drained, one tick after they fired.
    pub pending: Vec<WandCastEvent>,
    /// The handle the next spawn takes.
    pub next_id: u64,
}

impl ProjectileManager {
    /// Every live projectile is well formed and no younger than `now`.
    pub open spec fn wf_at(self, now: u64) -> bool {
        forall|i: int|
            0 <= i < self.active@.len() ==> (#[trigger] self.active@[i]).wf()
                && self.active@[i].spawn_time <= now
    }

    /// A manager with nothing in flight.
    pub fn new() -> (m: ProjectileManager)
        ensures
            m.active@ =~= Seq::<Projectile>::empty(),
            m.pending@ =~= Seq::<WandCastEvent>::empty(),
            m.next_id == 0,
    {
        ProjectileManager { active: Vec::new(), pending: Vec::new(), next_id: 0 }
    }

    /// The cast trigger hands its request over; it waits here until the
    /// queue is drained.
    pub fn enqueue_cast(&mut self, ev: WandCastEvent)
        ensures
            final(self).pending@ == old(self).pending@.push(ev),
            final(self).active@ == old(self).active@,
            final(self).next_id == old(self).next_id,
    {
        self.pending.push(ev);
    }

    /// Drain the cast queue, once per tick: every waiting request, in
    /// arrival order, and an empty queue behind it.
    pub fn take_pending(&mut self) -> (evs: Vec<WandCastEvent>)
        ensures
            evs@ == old(self).pending@,
            final(self).pending@ =~= Seq::<WandCastEvent>::empty(),
            final(self).active@ == old(self).active@,
            final(self).next_id == old(self).next_id,
    {
        let mut evs: Vec<WandCastEvent> = Vec::new();
        let n = self.pending.len();
        let mut i: usize = 0;
        while i < n
            invariant
                i <= n,
                n == self.pending@.len(),
                self.pending@ == old(self).pending@,
                evs@ == self.pending@.take(i as int),
            decreases n - i,
        {
            evs.push(self.pending[i]);
            proof {
                assert(self.pending@.take(i as int + 1) =~= self.pending@.take(i as int).push(
                    self.pending@[i as int],
                ));
            }
            i = i + 1;
        }
        proof {
            assert(self.pending@.take(n as int) =~= self.pending@);
        }
        self.pending.clear();
        evs
    }

    /// Consume one cast request: spawn a projectile for the caster it
    /// named, or discard it silently when that caster is gone.
    pub fn spawn_from_cast(&mut self, caster: Option<&CasterState>, now: u64) -> (spawned: bool)
        requires
            match caster {
                Some(c) => c.wf(),
                None => true,
            },
            old(self).next_id < u64::MAX,
        ensures
            caster is None ==> *final(self) == *old(self) && !spawned,
            caster is Some ==> spawned && final(self).active@ == old(self).active@.push(
                spawned_projectile(old(self).next_id, now, *caster->Some_0),
            ) && final(self).next_id == old(self).next_id + 1 && final(self).pending@ == old(
                self,
            ).pending@,
    {
        match caster {
            None => false,
            Some(c) => {
                let p = spawn_projectile(self.next_id, now, c);
                self.active.push(p);
                self.next_id = self.next_id + 1;
                true
            },
        }
    }

    /// Step every live projectile once against this tick's context:
    /// survivors stay in order, despawned projectiles leave the set, and
    /// the emitted effect commands come back in order.
    #[verifier::loop_isolation(false)]
    pub fn tick(&mut self, now: u64, worlds: &WorldSet, actors: &Vec<Actor>) -> (effects: Vec<
        Effect,
    >)
        requires
            old(self).wf_at(now),
            distinct_actor_ids(actors@),
        ensures
            (final(self).active@, effects@) == tick_all(
                old(self).active@,
                now,
                worlds.worlds@,
                actors@,
            ),
            final(self).next_id == old(self).next_id,
            final(self).pending@ == old(self).pending@,
    {
        let ghost ps = self.active@;
        let ghost ws = worlds.worlds@;
        let mut survivors: Vec<Projectile> = Vec::new();
        let mut effects: Vec<Effect> = Vec::new();
        let n = self.active.len();
        proof {
            assert(ps.skip(0) =~= ps);
        }
        let mut i: usize = 0;
        while i < n
            invariant
                i <= n,
                n == ps.len(),
                self.active@ == ps,
                self.pending@ == old(self).pending@,
                self.next_id == old(self).next_id,
                tick_all(ps, now, ws, actors@) == (
                    survivors@ + tick_all(ps.skip(i as int), now, ws, actors@).0,
                    effects@ + tick_all(ps.skip(i as int), now, ws, actors@).1,
                ),
            decreases n - i,
        {
            let mut q = self.active[i];
            let wopt = worlds.get(q.world);
            let mut out = step_projectile(&mut q, now, wopt, actors);
            proof {
                assert(ps.skip(i as int)[0] == ps[i as int]);
                assert(ps.skip(i as int).drop_first() =~= ps.skip(i as int + 1));
                assert(world_of(wopt) == world_lookup(ws, ps[i as int].world));
                assert((q, out.despawn, out.effects@) == step_result(
                    ps[i as int],
                    now,
                    world_lookup(ws, ps[i as int].world),
                    actors@,
                ));
            }
            let ghost pre_survivors = survivors@;
            let ghost pre_effects = effects@;
            if !out.despawn {
                survivors.push(q);
                proof {
                    assert(survivors@ =~= pre_survivors + seq![q]);
                }
            }
            effects.append(&mut out.effects);
            proof {
                let head = step_result(ps[i as int], now, world_lookup(ws, ps[i as int].world), actors@);
                let rest = tick_all(ps.skip(i as int + 1), now, ws, actors@);
                assert(tick_all(ps.skip(i as int), now, ws, actors@) == (
                    if head.1 {
                        rest.0
                    } else {
                        seq![head.0] + rest.0
                    },
                    head.2 + rest.1,
                ));
                assert(survivors@ + rest.0 =~= pre_survivors + (if head.1 {
                    rest.0
                } else {
                    seq![head.0] + rest.0
                }));
                assert(effects@ + rest.1 =~= pre_effects + (head.2 + rest.1));
            }
            i = i + 1;
        }
        proof {
            assert(ps.skip(n as int) =~= Seq::<Projectile>::empty());
            assert(tick_all(ps.skip(n as int), now, ws, actors@) == (
                Seq::<Projectile>::empty(),
                Seq::<Effect>::empty(),
            ));
            assert(survivors@ + Seq::<Projectile>::empty() =~= survivors@);
            assert(effects@ + Seq::<Effect>::empty() =~= effects@);
        }
        self.active = survivors;
        effects
    }
}

/// A projectile whose tick path meets nothing blocking survives exactly
/// until its time-to-live passes: within the time-to-live it moves one
/// step and draws only its trail; past it, it despawns with no effect at
/// all, impact or otherwise.
pub proof fn lemma_clear_path_lifetime(p: Projectile, now: u64, w: World, actors: Seq<Actor>)
    requires
        p.spawn_time <= now,
        first_blocking(tick_hits(p, w, actors)) is None,
    ensures
        now <= p.spawn_time + TTL_MILLIS ==> step_result(p, now, Some(w), actors) == (
            p.advanced(),
            false,
            seq![trail_of(p)],
        ),
        now > p.spawn_time + TTL_MILLIS ==> step_result(p, now, Some(w), actors) == (
            p,
            true,
            Seq::<Effect>::empty(),
        ),
{
}

/// A projectile whose step first crosses a non-air block despawns on
/// that tick, drawing exactly one impact burst, at a point inside the
/// struck block's unit cube.
pub proof fn lemma_block_impact(p: Projectile, now: u64, w: World, actors: Seq<Actor>)
    requires
        p.wf(),
        p.spawn_time <= now,
        !p.expired(now),
        first_blocking(tick_hits(p, w, actors)) matches Some(RayHit::Block { .. }),
    ensures
        ({
            let h = first_blocking(tick_hits(p, w, actors))->Some_0;
            let r = step_result(p, now, Some(w), actors);
            &&& r == (p.advanced(), true, seq![trail_of(p), Effect::Impact {
                position: impact_position(h),
            }])
            &&& (h matches RayHit::Block { pos, .. } ==> (MILLI as int) * pos.x <= impact_position(
                h,
            ).x < (MILLI as int) * pos.x + MILLI && (MILLI as int) * pos.y <= impact_position(h).y
                < (MILLI as int) * pos.y + MILLI && (MILLI as int) * pos.z <= impact_position(h).z
                < (MILLI as int) * pos.z + MILLI)
        }),
{
    let hits = tick_hits(p, w, actors);
    lemma_first_blocking_is_elem(hits, 0);
    let m = choose|m: int|
        0 <= m < hits.len() && #[trigger] hits[m] == first_blocking_from(hits, 0)->Some_0
            && is_blocking(hits[m]);
    lemma_march_elem_bounds(p.flight_ray(), w.blocks@, actors, n_samples(p.speed as int), m);
}

/// A projectile whose step meets an actor before any solid block
/// despawns at that actor's recorded position: one impact burst exactly
/// there, and no block impact on that tick.
pub proof fn lemma_actor_impact(p: Projectile, now: u64, w: World, actors: Seq<Actor>)
    requires
        p.spawn_time <= now,
        !p.expired(now),
        first_blocking(tick_hits(p, w, actors)) matches Some(RayHit::Entity { .. }),
    ensures
        ({
            let h = first_blocking(tick_hits(p, w, actors))->Some_0;
            h matches RayHit::Entity { position, .. } ==> step_result(p, now, Some(w), actors)
                == (p.advanced(), true, seq![trail_of(p), Effect::Impact { position }])
        }),
{
}

} // verus!
