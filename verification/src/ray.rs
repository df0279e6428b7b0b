//! The spatial query engine: a ray marched through the world in fixed
//! steps, reporting every block and actor it passes through, ordered by
//! distance and deduplicated by identity. The engine is policy-free: it
//! reports air blocks too, and the caller decides what blocks a shot.
use vstd::prelude::*;
use crate::geometry::{aabb_contains, block_of, mul_milli, scale_milli, Aabb, BlockPos, Vec3};
use crate::world::{block_lookup, distinct_actor_ids, Actor, World};
use crate::{MAX_COORD, MAX_RAY_LENGTH, MILLI, STEP};
use vstd::arithmetic::div_mod::{lemma_fundamental_div_mod, lemma_fundamental_div_mod_converse};

verus! {

/// One thing a ray passed through: an actor's bounding volume, or a block
/// present in the world.
#[derive(Clone, Copy, PartialEq, Eq, Structural, Debug)]
pub enum RayHit {
    /// The ray sampled a point inside this actor's bounding volume.
    Entity {
        /// The actor's handle.
        entity: u64,
        /// The sample point at which the actor was first met.
        position: Vec3,
    },
    /// The ray sampled a point inside a block present in the world.
    Block {
        /// The state found in the world at this coordinate.
        state: u64,
        /// The block coordinate.
        pos: BlockPos,
        /// Where inside the block's unit cube the sample fell, in
        /// `[0, MILLI)` on each axis.
        offset: Vec3,
    },
}

/// A straight path: `origin + direction * t / MILLI` for `t` in
/// `[0, length]`, all in milliblocks. `direction` is nominally of
/// magnitude `MILLI`.
#[derive(Clone, Copy, PartialEq, Eq, Structural, Debug)]
pub struct Ray {
    /// Starting point, in milliblocks.
    pub origin: Vec3,
    /// Direction, nominally of magnitude `MILLI`.
    pub direction: Vec3,
    /// How far the ray reaches, in milliblocks.
    pub length: i64,
}

impl Ray {
    /// Bounds under which every sample of the ray stays inside `i64`
    /// arithmetic: the origin in the world's coordinate range, the
    /// direction no longer than one block per axis, the length
    /// nonnegative and bounded.
    pub open spec fn wf(self) -> bool {
        &&& -MAX_COORD <= self.origin.x <= MAX_COORD
        &&& -MAX_COORD <= self.origin.y <= MAX_COORD
        &&& -MAX_COORD <= self.origin.z <= MAX_COORD
        &&& -MILLI <= self.direction.x <= MILLI
        &&& -MILLI <= self.direction.y <= MILLI
        &&& -MILLI <= self.direction.z <= MILLI
        &&& 0 <= self.length <= MAX_RAY_LENGTH
    }

    /// Bundle the three fields of a ray.
    pub fn new(origin: Vec3, direction: Vec3, length: i64) -> (r: Ray)
        ensures
            r == (Ray { origin, direction, length }),
    {
        Ray { origin, direction, length }
    }

    /// The point `t` milliblocks along the ray, one integer per axis.
    pub open spec fn at_spec(self, t: int) -> (int, int, int) {
        (
            self.origin.x + scale_milli(self.direction.x as int, t),
            self.origin.y + scale_milli(self.direction.y as int, t),
            self.origin.z + scale_milli(self.direction.z as int, t),
        )
    }

    /// The point `t` milliblocks along the ray.
    pub fn at(&self, t: i64) -> (p: Vec3)
        requires
            self.wf(),
            0 <= t <= self.length,
        ensures
            p.m() == self.at_spec(t as int),
            -2 * MAX_COORD <= p.x <= 2 * MAX_COORD,
            -2 * MAX_COORD <= p.y <= 2 * MAX_COORD,
            -2 * MAX_COORD <= p.z <= 2 * MAX_COORD,
    {
        Vec3 {
            x: self.origin.x + mul_milli(self.direction.x, t),
            y: self.origin.y + mul_milli(self.direction.y, t),
            z: self.origin.z + mul_milli(self.direction.z, t),
        }
    }
}

/// How many samples a march of this length takes: one every `STEP`
/// milliblocks, from `t = 0` while `t < length`.
pub open spec fn n_samples(length: int) -> int {
    (length + STEP - 1) / (STEP as int)
}

/// The point sampled at step `k`.
pub open spec fn sample_point(ray: Ray, k: int) -> (int, int, int) {
    ray.at_spec((STEP as int) * k)
}

/// The block coordinate containing the point sampled at step `k`.
pub open spec fn sample_block(ray: Ray, k: int) -> (int, int, int) {
    let p = sample_point(ray, k);
    (block_of(p.0), block_of(p.1), block_of(p.2))
}

/// Where inside its block the point sampled at step `k` falls.
pub open spec fn sample_offset(ray: Ray, k: int) -> (int, int, int) {
    let p = sample_point(ray, k);
    let b = sample_block(ray, k);
    (p.0 - (MILLI as int) * b.0, p.1 - (MILLI as int) * b.1, p.2 - (MILLI as int) * b.2)
}

/// Whether the point sampled at step `k` lies inside actor `i`'s box.
pub open spec fn actor_hit_at(ray: Ray, actors: Seq<Actor>, i: int, k: int) -> bool {
    aabb_contains(actors[i].hitbox, sample_point(ray, k))
}

/// Whether actor `i` was already met at a sample strictly before step `k`.
pub open spec fn actor_seen_before(ray: Ray, actors: Seq<Actor>, i: int, k: int) -> bool {
    exists|k2: int| 0 <= k2 < k && #[trigger] actor_hit_at(ray, actors, i, k2)
}

/// Whether block coordinate `c` was already crossed strictly before
/// step `k`.
pub open spec fn block_seen_before(ray: Ray, k: int, c: (int, int, int)) -> bool {
    exists|j: int| 0 <= j < k && #[trigger] sample_block(ray, j) == c
}

/// The actor hit recorded for handle `id` at point `p`.
pub open spec fn entity_hit(id: u64, p: (int, int, int)) -> RayHit {
    RayHit::Entity {
        entity: id,
        position: Vec3 { x: p.0 as i64, y: p.1 as i64, z: p.2 as i64 },
    }
}

/// The block hit recorded for state `state` at coordinate `c` with
/// in-block offset `off`.
pub open spec fn block_hit_of(state: u64, c: (int, int, int), off: (int, int, int)) -> RayHit {
    RayHit::Block {
        state,
        pos: BlockPos { x: c.0 as i64, y: c.1 as i64, z: c.2 as i64 },
        offset: Vec3 { x: off.0 as i64, y: off.1 as i64, z: off.2 as i64 },
    }
}

/// The actor hits appended at step `k` by the first `i` actors, in actor
/// order: each actor whose box holds the sample point and which no
/// earlier sample met.
pub open spec fn actor_hits_at(ray: Ray, actors: Seq<Actor>, k: int, i: int) -> Seq<RayHit>
    decreases i,
{
    if i <= 0 {
        Seq::empty()
    } else {
        let pre = actor_hits_at(ray, actors, k, i - 1);
        if actor_hit_at(ray, actors, i - 1, k) && !actor_seen_before(ray, actors, i - 1, k) {
            pre.push(entity_hit(actors[i - 1].id, sample_point(ray, k)))
        } else {
            pre
        }
    }
}

/// Everything appended at step `k`: first the newly met actors in actor
/// order, then the sample's block if the world has one there and no
/// earlier sample crossed that coordinate.
pub open spec fn hits_at(
    ray: Ray,
    blocks: Seq<(BlockPos, u64)>,
    actors: Seq<Actor>,
    k: int,
) -> Seq<RayHit> {
    let a = actor_hits_at(ray, actors, k, actors.len() as int);
    let c = sample_block(ray, k);
    match block_lookup(blocks, c) {
        Some(state) => if !block_seen_before(ray, k, c) {
            a.push(block_hit_of(state, c, sample_offset(ray, k)))
        } else {
            a
        },
        None => a,
    }
}

/// The full hit sequence of a march of `n` samples.
pub open spec fn march_hits(
    ray: Ray,
    blocks: Seq<(BlockPos, u64)>,
    actors: Seq<Actor>,
    n: int,
) -> Seq<RayHit>
    decreases n,
{
    if n <= 0 {
        Seq::empty()
    } else {
        march_hits(ray, blocks, actors, n - 1) + hits_at(ray, blocks, actors, n - 1)
    }
}

/// Whether `h` is the actor hit of handle `id`.
pub open spec fn is_entity_with(h: RayHit, id: u64) -> bool {
    match h {
        RayHit::Entity { entity, .. } => entity == id,
        RayHit::Block { .. } => false,
    }
}

/// Whether `h` is the block hit of coordinate `c`.
pub open spec fn is_block_with(h: RayHit, c: (int, int, int)) -> bool {
    match h {
        RayHit::Entity { .. } => false,
        RayHit::Block { pos, .. } => pos.m() == c,
    }
}

/// Whether some element of `hits` is an actor hit of handle `id`.
pub open spec fn has_entity_hit(hits: Seq<RayHit>, id: u64) -> bool {
    exists|n: int| 0 <= n < hits.len() && is_entity_with(#[trigger] hits[n], id)
}

/// Whether some element of `hits` is a block hit of coordinate `c`.
pub open spec fn has_block_hit(hits: Seq<RayHit>, c: (int, int, int)) -> bool {
    exists|n: int| 0 <= n < hits.len() && is_block_with(#[trigger] hits[n], c)
}

/// Appending a hit adds exactly its own actor identity.
proof fn lemma_has_entity_push(hits: Seq<RayHit>, h: RayHit, id: u64)
    ensures
        has_entity_hit(hits.push(h), id) == (has_entity_hit(hits, id) || is_entity_with(h, id)),
{
    if has_entity_hit(hits, id) {
        let n = choose|n: int| 0 <= n < hits.len() && is_entity_with(#[trigger] hits[n], id);
        assert(hits.push(h)[n] == hits[n]);
        assert(has_entity_hit(hits.push(h), id));
    }
    if is_entity_with(h, id) {
        assert(hits.push(h)[hits.len() as int] == h);
        assert(has_entity_hit(hits.push(h), id));
    }
    if has_entity_hit(hits.push(h), id) && !is_entity_with(h, id) {
        let n = choose|n: int|
            0 <= n < hits.push(h).len() && is_entity_with(#[trigger] hits.push(h)[n], id);
        assert(n < hits.len());
        assert(hits[n] == hits.push(h)[n]);
        assert(has_entity_hit(hits, id));
    }
}

/// Appending a hit adds exactly its own block identity.
proof fn lemma_has_block_push(hits: Seq<RayHit>, h: RayHit, c: (int, int, int))
    ensures
        has_block_hit(hits.push(h), c) == (has_block_hit(hits, c) || is_block_with(h, c)),
{
    if has_block_hit(hits, c) {
        let n = choose|n: int| 0 <= n < hits.len() && is_block_with(#[trigger] hits[n], c);
        assert(hits.push(h)[n] == hits[n]);
        assert(has_block_hit(hits.push(h), c));
    }
    if is_block_with(h, c) {
        assert(hits.push(h)[hits.len() as int] == h);
        assert(has_block_hit(hits.push(h), c));
    }
    if has_block_hit(hits.push(h), c) && !is_block_with(h, c) {
        let n = choose|n: int|
            0 <= n < hits.push(h).len() && is_block_with(#[trigger] hits.push(h)[n], c);
        assert(n < hits.len());
        assert(hits[n] == hits.push(h)[n]);
        assert(has_block_hit(hits, c));
    }
}

/// Meeting an actor by step `k + 1` is meeting it by step `k` or exactly
/// at step `k`.
proof fn lemma_actor_seen_step(ray: Ray, actors: Seq<Actor>, i: int, k: int)
    requires
        0 <= k,
    ensures
        actor_seen_before(ray, actors, i, k + 1) == (actor_seen_before(ray, actors, i, k)
            || actor_hit_at(ray, actors, i, k)),
{
    if actor_seen_before(ray, actors, i, k + 1) {
        let k2 = choose|k2: int| 0 <= k2 < k + 1 && #[trigger] actor_hit_at(ray, actors, i, k2);
        if k2 < k {
            assert(actor_seen_before(ray, actors, i, k));
        }
    }
    if actor_hit_at(ray, actors, i, k) {
        assert(actor_seen_before(ray, actors, i, k + 1));
    }
}

/// Crossing a coordinate by step `k + 1` is crossing it by step `k` or
/// exactly at step `k`.
proof fn lemma_block_seen_step(ray: Ray, c: (int, int, int), k: int)
    requires
        0 <= k,
    ensures
        block_seen_before(ray, k + 1, c) == (block_seen_before(ray, k, c) || sample_block(ray, k)
            == c),
{
    if block_seen_before(ray, k + 1, c) {
        let j = choose|j: int| 0 <= j < k + 1 && #[trigger] sample_block(ray, j) == c;
        if j < k {
            assert(block_seen_before(ray, k, c));
        }
    }
    if sample_block(ray, k) == c {
        assert(block_seen_before(ray, k + 1, c));
    }
}

/// A march that stopped at `t = STEP * k >= length`, having sampled every
/// earlier step, took exactly `n_samples(length)` samples.
proof fn lemma_n_samples_exact(length: int, k: int)
    requires
        0 <= length,
        0 <= k,
        (STEP as int) * k >= length,
        k == 0 || (STEP as int) * (k - 1) < length,
    ensures
        k == n_samples(length),
{
    if k == 0 {
        assert(length == 0);
        assert(n_samples(0) == 0);
    } else {
        assert(10 * k - 10 < length <= 10 * k);
        assert(0 <= length + 9 - 10 * k <= 9);
        lemma_fundamental_div_mod_converse(length + 9, 10, k, length + 9 - 10 * k);
    }
}

/// Whether two hits name the same thing: the same actor handle, or the
/// same block coordinate.
pub open spec fn same_identity(h1: RayHit, h2: RayHit) -> bool {
    match (h1, h2) {
        (RayHit::Entity { entity: e1, .. }, RayHit::Entity { entity: e2, .. }) => e1 == e2,
        (RayHit::Block { pos: p1, .. }, RayHit::Block { pos: p2, .. }) => p1.m() == p2.m(),
        _ => false,
    }
}

/// Identities found on either side of a concatenation, and nowhere else.
proof fn lemma_has_concat(s1: Seq<RayHit>, s2: Seq<RayHit>)
    ensures
        forall|id: u64| #[trigger] has_entity_hit(s1 + s2, id) == (has_entity_hit(s1, id)
            || has_entity_hit(s2, id)),
        forall|c: (int, int, int)| #[trigger] has_block_hit(s1 + s2, c) == (has_block_hit(s1, c)
            || has_block_hit(s2, c)),
{
    assert forall|id: u64| #[trigger] has_entity_hit(s1 + s2, id) == (has_entity_hit(s1, id)
        || has_entity_hit(s2, id)) by {
        if has_entity_hit(s1, id) {
            let n = choose|n: int| 0 <= n < s1.len() && is_entity_with(#[trigger] s1[n], id);
            assert((s1 + s2)[n] == s1[n]);
            assert(has_entity_hit(s1 + s2, id));
        }
        if has_entity_hit(s2, id) {
            let n = choose|n: int| 0 <= n < s2.len() && is_entity_with(#[trigger] s2[n], id);
            assert((s1 + s2)[s1.len() + n] == s2[n]);
            assert(has_entity_hit(s1 + s2, id));
        }
        if has_entity_hit(s1 + s2, id) {
            let n = choose|n: int|
                0 <= n < (s1 + s2).len() && is_entity_with(#[trigger] (s1 + s2)[n], id);
            if n < s1.len() {
                assert(s1[n] == (s1 + s2)[n]);
                assert(has_entity_hit(s1, id));
            } else {
                assert(s2[n - s1.len()] == (s1 + s2)[n]);
                assert(has_entity_hit(s2, id));
            }
        }
    }
    assert forall|c: (int, int, int)| #[trigger] has_block_hit(s1 + s2, c) == (has_block_hit(s1, c)
        || has_block_hit(s2, c)) by {
        if has_block_hit(s1, c) {
            let n = choose|n: int| 0 <= n < s1.len() && is_block_with(#[trigger] s1[n], c);
            assert((s1 + s2)[n] == s1[n]);
            assert(has_block_hit(s1 + s2, c));
        }
        if has_block_hit(s2, c) {
            let n = choose|n: int| 0 <= n < s2.len() && is_block_with(#[trigger] s2[n], c);
            assert((s1 + s2)[s1.len() + n] == s2[n]);
            assert(has_block_hit(s1 + s2, c));
        }
        if has_block_hit(s1 + s2, c) {
            let n = choose|n: int|
                0 <= n < (s1 + s2).len() && is_block_with(#[trigger] (s1 + s2)[n], c);
            if n < s1.len() {
                assert(s1[n] == (s1 + s2)[n]);
                assert(has_block_hit(s1, c));
            } else {
                assert(s2[n - s1.len()] == (s1 + s2)[n]);
                assert(has_block_hit(s2, c));
            }
        }
    }
}

/// What one sample's actor pass contains: exactly the actors whose box
/// holds the sample point and which no earlier sample met; never a block.
proof fn lemma_chunk_contents(ray: Ray, actors: Seq<Actor>, k: int, i: int)
    requires
        0 <= i <= actors.len(),
    ensures
        forall|id: u64| #[trigger] has_entity_hit(actor_hits_at(ray, actors, k, i), id)
            <==> exists|i2: int|
            0 <= i2 < i && (#[trigger] actors[i2].id) == id && actor_hit_at(ray, actors, i2, k)
                && !actor_seen_before(ray, actors, i2, k),
        forall|c: (int, int, int)| !(#[trigger] has_block_hit(actor_hits_at(ray, actors, k, i), c)),
    decreases i,
{
    if i <= 0 {
    } else {
        lemma_chunk_contents(ray, actors, k, i - 1);
        let pre = actor_hits_at(ray, actors, k, i - 1);
        let cur = actor_hits_at(ray, actors, k, i);
        if actor_hit_at(ray, actors, i - 1, k) && !actor_seen_before(ray, actors, i - 1, k) {
            let e = entity_hit(actors[i - 1].id, sample_point(ray, k));
            assert(cur == pre.push(e));
            assert forall|id: u64| #[trigger] has_entity_hit(cur, id) <==> exists|i2: int|
                0 <= i2 < i && (#[trigger] actors[i2].id) == id && actor_hit_at(ray, actors, i2, k)
                    && !actor_seen_before(ray, actors, i2, k) by {
                lemma_has_entity_push(pre, e, id);
                if has_entity_hit(cur, id) {
                    if is_entity_with(e, id) {
                        assert(0 <= i - 1 < i && actors[i - 1].id == id && actor_hit_at(
                            ray,
                            actors,
                            i - 1,
                            k,
                        ) && !actor_seen_before(ray, actors, i - 1, k));
                    }
                }
            }
            assert forall|c: (int, int, int)| !(#[trigger] has_block_hit(cur, c)) by {
                lemma_has_block_push(pre, e, c);
            }
        } else {
            assert(cur == pre);
            assert forall|id: u64| #[trigger] has_entity_hit(cur, id) <==> exists|i2: int|
                0 <= i2 < i && (#[trigger] actors[i2].id) == id && actor_hit_at(ray, actors, i2, k)
                    && !actor_seen_before(ray, actors, i2, k) by {
                if has_entity_hit(cur, id) {
                    let i2 = choose|i2: int|
                        0 <= i2 < i - 1 && (#[trigger] actors[i2].id) == id && actor_hit_at(
                            ray,
                            actors,
                            i2,
                            k,
                        ) && !actor_seen_before(ray, actors, i2, k);
                    assert(0 <= i2 < i && actors[i2].id == id && actor_hit_at(ray, actors, i2, k)
                        && !actor_seen_before(ray, actors, i2, k));
                }
                if exists|i2: int|
                    0 <= i2 < i && (#[trigger] actors[i2].id) == id && actor_hit_at(
                        ray,
                        actors,
                        i2,
                        k,
                    ) && !actor_seen_before(ray, actors, i2, k) {
                    let i2 = choose|i2: int|
                        0 <= i2 < i && (#[trigger] actors[i2].id) == id && actor_hit_at(
                            ray,
                            actors,
                            i2,
                            k,
                        ) && !actor_seen_before(ray, actors, i2, k);
                    assert(i2 != i - 1);
                    assert(has_entity_hit(pre, id));
                }
            }
        }
    }
}

/// Every element of one sample's actor pass is the record of an actor
/// first met at that sample.
proof fn lemma_chunk_elem_appended(ray: Ray, actors: Seq<Actor>, k: int, i: int, m: int)
    requires
        0 <= i <= actors.len(),
        0 <= m < actor_hits_at(ray, actors, k, i).len(),
    ensures
        exists|i2: int|
            0 <= i2 < i && #[trigger] actor_hit_at(ray, actors, i2, k) && !actor_seen_before(
                ray,
                actors,
                i2,
                k,
            ) && actor_hits_at(ray, actors, k, i)[m] == entity_hit(
                actors[i2].id,
                sample_point(ray, k),
            ),
    decreases i,
{
    let pre = actor_hits_at(ray, actors, k, i - 1);
    let cur = actor_hits_at(ray, actors, k, i);
    if actor_hit_at(ray, actors, i - 1, k) && !actor_seen_before(ray, actors, i - 1, k) {
        if m < pre.len() {
            lemma_chunk_elem_appended(ray, actors, k, i - 1, m);
            assert(cur[m] == pre[m]);
        } else {
            assert(cur[m] == entity_hit(actors[i - 1].id, sample_point(ray, k)));
            assert(0 <= i - 1 < i && actor_hit_at(ray, actors, i - 1, k) && !actor_seen_before(
                ray,
                actors,
                i - 1,
                k,
            ));
        }
    } else {
        lemma_chunk_elem_appended(ray, actors, k, i - 1, m);
        assert(cur[m] == pre[m]);
    }
}

/// What a whole march contains: exactly the actors met by some sample so
/// far, and exactly the present blocks crossed by some sample so far.
pub proof fn lemma_march_contents(
    ray: Ray,
    blocks: Seq<(BlockPos, u64)>,
    actors: Seq<Actor>,
    n: int,
)
    requires
        ray.wf(),
        0 <= n <= n_samples(ray.length as int),
    ensures
        forall|id: u64| #[trigger] has_entity_hit(march_hits(ray, blocks, actors, n), id)
            <==> exists|i: int|
            0 <= i < actors.len() && (#[trigger] actors[i].id) == id && actor_seen_before(
                ray,
                actors,
                i,
                n,
            ),
        forall|c: (int, int, int)| #[trigger] has_block_hit(march_hits(ray, blocks, actors, n), c)
            <==> (block_lookup(blocks, c) is Some && block_seen_before(ray, n, c)),
    decreases n,
{
    let cur = march_hits(ray, blocks, actors, n);
    if n == 0 {
    } else {
        lemma_march_contents(ray, blocks, actors, n - 1);
        lemma_chunk_contents(ray, actors, n - 1, actors.len() as int);
        lemma_sample_within_length(ray.length as int, n - 1);
        lemma_sample_in_range(ray, n - 1);
        let prev = march_hits(ray, blocks, actors, n - 1);
        let chunk = actor_hits_at(ray, actors, n - 1, actors.len() as int);
        let ch = hits_at(ray, blocks, actors, n - 1);
        let c0 = sample_block(ray, n - 1);
        lemma_has_concat(prev, ch);
        assert(cur == prev + ch);
        // what the full sample chunk holds, block entry included
        match block_lookup(blocks, c0) {
            Some(state) => {
                if !block_seen_before(ray, n - 1, c0) {
                    let bh = block_hit_of(state, c0, sample_offset(ray, n - 1));
                    assert(ch == chunk.push(bh));
                    assert forall|id: u64| #[trigger] has_entity_hit(ch, id) == has_entity_hit(
                        chunk,
                        id,
                    ) by {
                        lemma_has_entity_push(chunk, bh, id);
                    }
                    assert forall|c: (int, int, int)| #[trigger] has_block_hit(ch, c) == (
                    has_block_hit(chunk, c) || is_block_with(bh, c)) by {
                        lemma_has_block_push(chunk, bh, c);
                    }
                } else {
                    assert(ch == chunk);
                }
            },
            None => {
                assert(ch == chunk);
            },
        }
        assert forall|id: u64| #[trigger] has_entity_hit(cur, id) <==> exists|i: int|
            0 <= i < actors.len() && (#[trigger] actors[i].id) == id && actor_seen_before(
                ray,
                actors,
                i,
                n,
            ) by {
            assert forall|i: int| 0 <= i < actors.len() implies #[trigger] actor_seen_before(
                ray,
                actors,
                i,
                n,
            ) == (actor_seen_before(ray, actors, i, n - 1) || actor_hit_at(
                ray,
                actors,
                i,
                n - 1,
            )) by {
                lemma_actor_seen_step(ray, actors, i, n - 1);
            }
            if has_entity_hit(cur, id) {
                if has_entity_hit(prev, id) {
                    let i = choose|i: int|
                        0 <= i < actors.len() && (#[trigger] actors[i].id) == id
                            && actor_seen_before(ray, actors, i, n - 1);
                    assert(actor_seen_before(ray, actors, i, n));
                } else {
                    assert(has_entity_hit(chunk, id));
                    let i = choose|i: int|
                        0 <= i < actors.len() && (#[trigger] actors[i].id) == id && actor_hit_at(
                            ray,
                            actors,
                            i,
                            n - 1,
                        ) && !actor_seen_before(ray, actors, i, n - 1);
                    assert(actor_seen_before(ray, actors, i, n));
                }
            }
            if exists|i: int|
                0 <= i < actors.len() && (#[trigger] actors[i].id) == id && actor_seen_before(
                    ray,
                    actors,
                    i,
                    n,
                ) {
                let i = choose|i: int|
                    0 <= i < actors.len() && (#[trigger] actors[i].id) == id && actor_seen_before(
                        ray,
                        actors,
                        i,
                        n,
                    );
                if actor_seen_before(ray, actors, i, n - 1) {
                    assert(has_entity_hit(prev, id));
                } else {
                    assert(actor_hit_at(ray, actors, i, n - 1));
                    assert(has_entity_hit(chunk, id));
                }
                assert(has_entity_hit(cur, id));
            }
        }
        assert forall|c: (int, int, int)| #[trigger] has_block_hit(cur, c) <==> (block_lookup(
            blocks,
            c,
        ) is Some && block_seen_before(ray, n, c)) by {
            lemma_block_seen_step(ray, c, n - 1);
        }
    }
}

/// A sample index strictly before the march's end lies strictly inside
/// the ray's length.
proof fn lemma_sample_within_length(length: int, k: int)
    requires
        0 <= length,
        0 <= k < n_samples(length),
    ensures
        (STEP as int) * k < length,
{
    let n = n_samples(length);
    lemma_fundamental_div_mod(length + 9, 10);
    vstd::arithmetic::div_mod::lemma_mod_bound(length + 9, 10);
    assert(10 * n <= length + 9);
}

/// Every coordinate a bounded march samples stays in cast range, so the
/// recorded block hit of a sample equals its mathematical description.
proof fn lemma_sample_in_range(ray: Ray, k: int)
    requires
        ray.wf(),
        0 <= k,
        (STEP as int) * k <= ray.length,
    ensures
        -2 * MAX_COORD <= sample_point(ray, k).0 <= 2 * MAX_COORD,
        -2 * MAX_COORD <= sample_point(ray, k).1 <= 2 * MAX_COORD,
        -2 * MAX_COORD <= sample_point(ray, k).2 <= 2 * MAX_COORD,
        -3_000_000 <= sample_block(ray, k).0 <= 3_000_000,
        -3_000_000 <= sample_block(ray, k).1 <= 3_000_000,
        -3_000_000 <= sample_block(ray, k).2 <= 3_000_000,
        0 <= sample_offset(ray, k).0 < MILLI,
        0 <= sample_offset(ray, k).1 < MILLI,
        0 <= sample_offset(ray, k).2 < MILLI,
{
    crate::geometry::lemma_scale_milli_bound(ray.direction.x as int, (STEP as int) * k);
    crate::geometry::lemma_scale_milli_bound(ray.direction.y as int, (STEP as int) * k);
    crate::geometry::lemma_scale_milli_bound(ray.direction.z as int, (STEP as int) * k);
    crate::geometry::lemma_block_offset_range(sample_point(ray, k).0);
    crate::geometry::lemma_block_offset_range(sample_point(ray, k).1);
    crate::geometry::lemma_block_offset_range(sample_point(ray, k).2);
}

/// Whether `k` is the sample at which the thing `h` names was first
/// recorded: the first sample inside the actor's box, or the first
/// sample whose block coordinate is the hit's, with a block present.
pub open spec fn first_recorded_at(
    ray: Ray,
    blocks: Seq<(BlockPos, u64)>,
    actors: Seq<Actor>,
    h: RayHit,
    k: int,
) -> bool {
    match h {
        RayHit::Entity { entity, .. } => exists|i: int|
            0 <= i < actors.len() && (#[trigger] actors[i].id) == entity && actor_hit_at(
                ray,
                actors,
                i,
                k,
            ) && !actor_seen_before(ray, actors, i, k) && h == entity_hit(
                actors[i].id,
                sample_point(ray, k),
            ),
        RayHit::Block { pos, .. } => sample_block(ray, k) == pos.m() && !block_seen_before(
            ray,
            k,
            pos.m(),
        ) && block_lookup(blocks, pos.m()) is Some && h == block_hit_of(
            block_lookup(blocks, pos.m())->Some_0,
            pos.m(),
            sample_offset(ray, k),
        ),
    }
}

/// The sample at which the hit at result index `idx` was appended.
pub open spec fn record_sample(
    ray: Ray,
    blocks: Seq<(BlockPos, u64)>,
    actors: Seq<Actor>,
    n: int,
    idx: int,
) -> int
    decreases n,
{
    if n <= 0 {
        0
    } else if idx < march_hits(ray, blocks, actors, n - 1).len() {
        record_sample(ray, blocks, actors, n - 1, idx)
    } else {
        n - 1
    }
}

/// Hits come out in the order their samples were taken: each hit carries
/// the sample at which its subject was first met, and those samples never
/// decrease along the result.
pub proof fn lemma_march_ordered(
    ray: Ray,
    blocks: Seq<(BlockPos, u64)>,
    actors: Seq<Actor>,
    n: int,
)
    requires
        ray.wf(),
        0 <= n <= n_samples(ray.length as int),
    ensures
        forall|idx: int|
            0 <= idx < march_hits(ray, blocks, actors, n).len() ==> 0 <= #[trigger] record_sample(
                ray,
                blocks,
                actors,
                n,
                idx,
            ) < n,
        forall|idx: int|
            0 <= idx < march_hits(ray, blocks, actors, n).len() ==> first_recorded_at(
                ray,
                blocks,
                actors,
                march_hits(ray, blocks, actors, n)[idx],
                #[trigger] record_sample(ray, blocks, actors, n, idx),
            ),
        forall|a: int, b: int|
            0 <= a <= b < march_hits(ray, blocks, actors, n).len() ==> #[trigger] record_sample(
                ray,
                blocks,
                actors,
                n,
                a,
            ) <= #[trigger] record_sample(ray, blocks, actors, n, b),
    decreases n,
{
    if n <= 0 {
    } else {
        lemma_march_ordered(ray, blocks, actors, n - 1);
        let prev = march_hits(ray, blocks, actors, n - 1);
        let cur = march_hits(ray, blocks, actors, n);
        let chunk = actor_hits_at(ray, actors, n - 1, actors.len() as int);
        let ch = hits_at(ray, blocks, actors, n - 1);
        let c0 = sample_block(ray, n - 1);
        assert(cur == prev + ch);
        lemma_sample_within_length(ray.length as int, n - 1);
        lemma_sample_in_range(ray, n - 1);
        assert forall|idx: int| 0 <= idx < cur.len() implies first_recorded_at(
            ray,
            blocks,
            actors,
            cur[idx],
            #[trigger] record_sample(ray, blocks, actors, n, idx),
        ) && 0 <= record_sample(ray, blocks, actors, n, idx) < n by {
            if idx < prev.len() {
                assert(cur[idx] == prev[idx]);
                assert(record_sample(ray, blocks, actors, n, idx) == record_sample(
                    ray,
                    blocks,
                    actors,
                    n - 1,
                    idx,
                ));
            } else {
                let m = idx - prev.len();
                assert(cur[idx] == ch[m]);
                assert(record_sample(ray, blocks, actors, n, idx) == n - 1);
                if m < chunk.len() {
                    assert(ch[m] == chunk[m]);
                    lemma_chunk_elem_appended(ray, actors, n - 1, actors.len() as int, m);
                    let i2 = choose|i2: int|
                        0 <= i2 < actors.len() && #[trigger] actor_hit_at(ray, actors, i2, n - 1)
                            && !actor_seen_before(ray, actors, i2, n - 1) && chunk[m] == entity_hit(
                            actors[i2].id,
                            sample_point(ray, n - 1),
                        );
                    assert(first_recorded_at(ray, blocks, actors, cur[idx], n - 1));
                } else {
                    match block_lookup(blocks, c0) {
                        Some(state) => {
                            assert(!block_seen_before(ray, n - 1, c0));
                            let bh = block_hit_of(state, c0, sample_offset(ray, n - 1));
                            assert(ch == chunk.push(bh));
                            assert(ch[m] == bh);
                            assert(bh matches RayHit::Block { pos, .. } && pos.m() == c0);
                            assert(first_recorded_at(ray, blocks, actors, cur[idx], n - 1));
                        },
                        None => {
                            assert(ch == chunk);
                            assert(false);
                        },
                    }
                }
            }
        }
        assert forall|a: int, b: int| 0 <= a <= b < cur.len() implies #[trigger] record_sample(
            ray,
            blocks,
            actors,
            n,
            a,
        ) <= #[trigger] record_sample(ray, blocks, actors, n, b) by {
            if b < prev.len() {
                assert(record_sample(ray, blocks, actors, n, a) == record_sample(
                    ray,
                    blocks,
                    actors,
                    n - 1,
                    a,
                ));
                assert(record_sample(ray, blocks, actors, n, b) == record_sample(
                    ray,
                    blocks,
                    actors,
                    n - 1,
                    b,
                ));
            } else if a < prev.len() {
                assert(record_sample(ray, blocks, actors, n, a) == record_sample(
                    ray,
                    blocks,
                    actors,
                    n - 1,
                    a,
                ));
                assert(0 <= record_sample(ray, blocks, actors, n - 1, a) < n - 1);
                assert(record_sample(ray, blocks, actors, n, b) == n - 1);
            } else {
                assert(record_sample(ray, blocks, actors, n, a) == n - 1);
                assert(record_sample(ray, blocks, actors, n, b) == n - 1);
            }
        }
    }
}

/// Every hit a bounded march records carries coordinates in range: a
/// block hit's coordinate fits the world region and its offset lies
/// inside the unit cube; an actor hit's position is a sample point.
pub proof fn lemma_march_elem_bounds(
    ray: Ray,
    blocks: Seq<(BlockPos, u64)>,
    actors: Seq<Actor>,
    n: int,
    idx: int,
)
    requires
        ray.wf(),
        0 <= n <= n_samples(ray.length as int),
        0 <= idx < march_hits(ray, blocks, actors, n).len(),
    ensures
        match march_hits(ray, blocks, actors, n)[idx] {
            RayHit::Entity { position, .. } => -2 * MAX_COORD <= position.x <= 2 * MAX_COORD && -2
                * MAX_COORD <= position.y <= 2 * MAX_COORD && -2 * MAX_COORD <= position.z <= 2
                * MAX_COORD,
            RayHit::Block { pos, offset, .. } => -3_000_000 <= pos.x <= 3_000_000 && -3_000_000
                <= pos.y <= 3_000_000 && -3_000_000 <= pos.z <= 3_000_000 && 0 <= offset.x < MILLI
                && 0 <= offset.y < MILLI && 0 <= offset.z < MILLI,
        },
{
    lemma_march_ordered(ray, blocks, actors, n);
    let h = march_hits(ray, blocks, actors, n)[idx];
    let rs = record_sample(ray, blocks, actors, n, idx);
    lemma_sample_within_length(ray.length as int, rs);
    lemma_sample_in_range(ray, rs);
    assert(first_recorded_at(ray, blocks, actors, h, rs));
    match h {
        RayHit::Entity { entity, position } => {
            let i = choose|i: int|
                0 <= i < actors.len() && (#[trigger] actors[i].id) == entity && actor_hit_at(
                    ray,
                    actors,
                    i,
                    rs,
                ) && !actor_seen_before(ray, actors, i, rs) && h == entity_hit(
                    actors[i].id,
                    sample_point(ray, rs),
                );
            assert(position == entity_hit(actors[i].id, sample_point(ray, rs))->Entity_position);
        },
        RayHit::Block { .. } => {},
    }
}

/// No identity appears twice within one sample's actor pass.
proof fn lemma_chunk_pairwise(ray: Ray, actors: Seq<Actor>, k: int, i: int)
    requires
        distinct_actor_ids(actors),
        0 <= i <= actors.len(),
    ensures
        forall|a: int, b: int|
            0 <= a < b < actor_hits_at(ray, actors, k, i).len() ==> !same_identity(
                #[trigger] actor_hits_at(ray, actors, k, i)[a],
                #[trigger] actor_hits_at(ray, actors, k, i)[b],
            ),
    decreases i,
{
    if i <= 0 {
    } else {
        lemma_chunk_pairwise(ray, actors, k, i - 1);
        lemma_chunk_contents(ray, actors, k, i - 1);
        let pre = actor_hits_at(ray, actors, k, i - 1);
        let cur = actor_hits_at(ray, actors, k, i);
        if actor_hit_at(ray, actors, i - 1, k) && !actor_seen_before(ray, actors, i - 1, k) {
            let e = entity_hit(actors[i - 1].id, sample_point(ray, k));
            assert(cur == pre.push(e));
            assert forall|a: int, b: int| 0 <= a < b < cur.len() implies !same_identity(
                #[trigger] cur[a],
                #[trigger] cur[b],
            ) by {
                if b < pre.len() {
                    assert(cur[a] == pre[a] && cur[b] == pre[b]);
                } else {
                    assert(cur[b] == e && cur[a] == pre[a]);
                    if same_identity(cur[a], cur[b]) {
                        assert(is_entity_with(pre[a], actors[i - 1].id));
                        assert(has_entity_hit(pre, actors[i - 1].id));
                        let i2 = choose|i2: int|
                            0 <= i2 < i - 1 && (#[trigger] actors[i2].id) == actors[i - 1].id
                                && actor_hit_at(ray, actors, i2, k) && !actor_seen_before(
                                ray,
                                actors,
                                i2,
                                k,
                            );
                        assert(false);
                    }
                }
            }
        } else {
            assert(cur == pre);
        }
    }
}

/// No identity appears twice within one sample's full chunk.
proof fn lemma_chunk_pair(
    ray: Ray,
    blocks: Seq<(BlockPos, u64)>,
    actors: Seq<Actor>,
    k: int,
    a: int,
    b: int,
)
    requires
        distinct_actor_ids(actors),
        0 <= a < b < hits_at(ray, blocks, actors, k).len(),
    ensures
        !same_identity(hits_at(ray, blocks, actors, k)[a], hits_at(ray, blocks, actors, k)[b]),
{
    let chunk = actor_hits_at(ray, actors, k, actors.len() as int);
    let ch = hits_at(ray, blocks, actors, k);
    let c0 = sample_block(ray, k);
    lemma_chunk_contents(ray, actors, k, actors.len() as int);
    lemma_chunk_pairwise(ray, actors, k, actors.len() as int);
    if block_lookup(blocks, c0) is Some && !block_seen_before(ray, k, c0) {
        let bh = block_hit_of(block_lookup(blocks, c0)->Some_0, c0, sample_offset(ray, k));
        assert(ch == chunk.push(bh));
        if same_identity(ch[a], ch[b]) {
            if b < chunk.len() {
                assert(ch[a] == chunk[a] && ch[b] == chunk[b]);
            } else {
                // the block entry after an actor entry: kinds differ
                assert(ch[b] == bh);
                assert(ch[a] == chunk[a]);
                lemma_chunk_elem_appended(ray, actors, k, actors.len() as int, a);
            }
        }
    } else {
        assert(ch == chunk);
    }
}

/// No identity appears twice in a march: each block coordinate at most
/// once, each actor handle at most once.
pub proof fn lemma_march_deduplicated(
    ray: Ray,
    blocks: Seq<(BlockPos, u64)>,
    actors: Seq<Actor>,
    n: int,
)
    requires
        ray.wf(),
        0 <= n <= n_samples(ray.length as int),
        distinct_actor_ids(actors),
    ensures
        forall|a: int, b: int|
            0 <= a < b < march_hits(ray, blocks, actors, n).len() ==> !same_identity(
                #[trigger] march_hits(ray, blocks, actors, n)[a],
                #[trigger] march_hits(ray, blocks, actors, n)[b],
            ),
    decreases n,
{
    if n <= 0 {
    } else {
        lemma_march_deduplicated(ray, blocks, actors, n - 1);
        lemma_march_contents(ray, blocks, actors, n - 1);
        lemma_chunk_contents(ray, actors, n - 1, actors.len() as int);
        lemma_sample_within_length(ray.length as int, n - 1);
        lemma_sample_in_range(ray, n - 1);
        let prev = march_hits(ray, blocks, actors, n - 1);
        let cur = march_hits(ray, blocks, actors, n);
        let chunk = actor_hits_at(ray, actors, n - 1, actors.len() as int);
        let ch = hits_at(ray, blocks, actors, n - 1);
        let c0 = sample_block(ray, n - 1);
        assert(cur == prev + ch);
        assert forall|a: int, b: int| 0 <= a < b < cur.len() implies !same_identity(
            #[trigger] cur[a],
            #[trigger] cur[b],
        ) by {
            if b < prev.len() {
                assert(cur[a] == prev[a] && cur[b] == prev[b]);
            } else if a >= prev.len() {
                // both inside one sample's chunk
                lemma_chunk_pair(ray, blocks, actors, n - 1, a - prev.len(), b - prev.len());
                assert(cur[a] == ch[a - prev.len()] && cur[b] == ch[b - prev.len()]);
            } else {
                // one recorded earlier, one at this sample
                assert(cur[a] == prev[a] && cur[b] == ch[b - prev.len()]);
                let m = b - prev.len();
                if same_identity(cur[a], cur[b]) {
                    if m < chunk.len() {
                        assert(ch[m] == chunk[m]);
                        lemma_chunk_elem_appended(ray, actors, n - 1, actors.len() as int, m);
                        let i2 = choose|i2: int|
                            0 <= i2 < actors.len() && #[trigger] actor_hit_at(
                                ray,
                                actors,
                                i2,
                                n - 1,
                            ) && !actor_seen_before(ray, actors, i2, n - 1) && chunk[m]
                                == entity_hit(actors[i2].id, sample_point(ray, n - 1));
                        assert(is_entity_with(cur[a], actors[i2].id));
                        assert(has_entity_hit(prev, actors[i2].id));
                        let i3 = choose|i: int|
                            0 <= i < actors.len() && (#[trigger] actors[i].id) == actors[i2].id
                                && actor_seen_before(ray, actors, i, n - 1);
                        assert(i2 == i3);
                        assert(false);
                    } else {
                        // this sample's block entry repeats an older block
                        assert(block_lookup(blocks, c0) is Some && !block_seen_before(
                            ray,
                            n - 1,
                            c0,
                        ));
                        let bh = block_hit_of(
                            block_lookup(blocks, c0)->Some_0,
                            c0,
                            sample_offset(ray, n - 1),
                        );
                        assert(ch == chunk.push(bh));
                        assert(cur[b] == bh);
                        assert(is_block_with(cur[a], c0));
                        assert(has_block_hit(prev, c0));
                        assert(block_seen_before(ray, n - 1, c0));
                        assert(false);
                    }
                }
            }
        }
    }
}

/// A zero-length ray takes no samples and reports nothing.
pub proof fn lemma_zero_length_ray_reports_nothing(
    ray: Ray,
    blocks: Seq<(BlockPos, u64)>,
    actors: Seq<Actor>,
)
    requires
        ray.length == 0,
    ensures
        march_hits(ray, blocks, actors, n_samples(ray.length as int)) == Seq::<RayHit>::empty(),
{
    assert(n_samples(0) == 0);
}

/// A search of recorded hits for one actor handle.
fn contains_entity_hit(hits: &Vec<RayHit>, id: u64) -> (r: bool)
    ensures
        r == has_entity_hit(hits@, id),
{
    let mut j: usize = 0;
    while j < hits.len()
        invariant
            j <= hits@.len(),
            forall|m: int| 0 <= m < j ==> !is_entity_with(#[trigger] hits@[m], id),
        decreases hits@.len() - j,
    {
        let h = hits[j];
        match h {
            RayHit::Entity { entity, .. } => {
                if entity == id {
                    return true;
                }
            },
            RayHit::Block { .. } => {},
        }
        j = j + 1;
    }
    false
}

/// A search of recorded hits for one block coordinate.
fn contains_block_hit(hits: &Vec<RayHit>, c: &BlockPos) -> (r: bool)
    ensures
        r == has_block_hit(hits@, c.m()),
{
    let mut j: usize = 0;
    while j < hits.len()
        invariant
            j <= hits@.len(),
            forall|m: int| 0 <= m < j ==> !is_block_with(#[trigger] hits@[m], c.m()),
        decreases hits@.len() - j,
    {
        let h = hits[j];
        match h {
            RayHit::Entity { .. } => {},
            RayHit::Block { pos, .. } => {
                if pos.x == c.x && pos.y == c.y && pos.z == c.z {
                    return true;
                }
            },
        }
        j = j + 1;
    }
    false
}

/// March along the ray from `t = 0` to `t = length` in `STEP` increments
/// and report, in sample order, every actor volume and every present
/// block the samples fall in, each identity at most once, actors before
/// the block within one sample. The march never stops early: the caller
/// applies its own first-match policy.
#[verifier::loop_isolation(false)]
pub fn raycast(ray: Ray, world: &World, actors: &Vec<Actor>) -> (hits: Vec<RayHit>)
    requires
        ray.wf(),
        distinct_actor_ids(actors@),
    ensures
        hits@ == march_hits(ray, world.blocks@, actors@, n_samples(ray.length as int)),
{
    let ghost blocks = world.blocks@;
    let mut hits: Vec<RayHit> = Vec::new();
    let mut t: i64 = 0;
    let ghost mut k: int = 0;

    while t < ray.length
        invariant
            0 <= k,
            t as int == (STEP as int) * k,
            k == 0 || (STEP as int) * (k - 1) < ray.length,
            hits@ == march_hits(ray, blocks, actors@, k),
            forall|i2: int|
                0 <= i2 < actors@.len() ==> (has_entity_hit(hits@, #[trigger] actors@[i2].id)
                    <==> actor_seen_before(ray, actors@, i2, k)),
            forall|c: (int, int, int)|
                #[trigger] has_block_hit(hits@, c) <==> (block_lookup(blocks, c) is Some
                    && block_seen_before(ray, k, c)),
        decreases ray.length + STEP - t,
    {
        let p = ray.at(t);
        proof {
            assert(p.m() == sample_point(ray, k));
            assert(hits@ =~= march_hits(ray, blocks, actors@, k) + actor_hits_at(
                ray,
                actors@,
                k,
                0,
            ));
        }

        let mut i: usize = 0;
        while i < actors.len()
            invariant
                i <= actors@.len(),
                hits@ == march_hits(ray, blocks, actors@, k) + actor_hits_at(
                    ray,
                    actors@,
                    k,
                    i as int,
                ),
                forall|i2: int|
                    0 <= i2 < actors@.len() ==> (has_entity_hit(hits@, #[trigger] actors@[i2].id)
                        <==> (actor_seen_before(ray, actors@, i2, k) || (i2 < i as int
                            && actor_hit_at(ray, actors@, i2, k)))),
                forall|c: (int, int, int)|
                    #[trigger] has_block_hit(hits@, c) <==> (block_lookup(blocks, c) is Some
                        && block_seen_before(ray, k, c)),
            decreases actors@.len() - i,
        {
            let a = actors[i];
            let pb = Aabb::point(p);
            let ghost pre_hits = hits@;
            if a.hitbox.intersects(&pb) {
                assert(actor_hit_at(ray, actors@, i as int, k));
                let dup = contains_entity_hit(&hits, a.id);
                if !dup {
                    hits.push(RayHit::Entity { entity: a.id, position: p });
                    proof {
                        let e = entity_hit(actors@[i as int].id, sample_point(ray, k));
                        assert(RayHit::Entity { entity: a.id, position: p } == e);
                        assert(hits@ =~= (march_hits(ray, blocks, actors@, k) + actor_hits_at(
                            ray,
                            actors@,
                            k,
                            i as int,
                        )).push(e));
                        assert(hits@ =~= march_hits(ray, blocks, actors@, k) + actor_hits_at(
                            ray,
                            actors@,
                            k,
                            i as int,
                        ).push(e));
                        assert(actor_hits_at(ray, actors@, k, i as int + 1) == actor_hits_at(
                            ray,
                            actors@,
                            k,
                            i as int,
                        ).push(e));
                        assert forall|i2: int| 0 <= i2 < actors@.len() implies (has_entity_hit(
                            hits@,
                            #[trigger] actors@[i2].id,
                        ) <==> (actor_seen_before(ray, actors@, i2, k) || (i2 < i as int + 1
                            && actor_hit_at(ray, actors@, i2, k)))) by {
                            lemma_has_entity_push(pre_hits, e, actors@[i2].id);
                        }
                        assert forall|c: (int, int, int)| #[trigger] has_block_hit(hits@, c) <==> (
                        block_lookup(blocks, c) is Some && block_seen_before(ray, k, c)) by {
                            lemma_has_block_push(pre_hits, e, c);
                        }
                    }
                } else {
                    proof {
                        assert(actor_seen_before(ray, actors@, i as int, k));
                        assert(actor_hits_at(ray, actors@, k, i as int + 1) == actor_hits_at(
                            ray,
                            actors@,
                            k,
                            i as int,
                        ));
                    }
                }
            } else {
                proof {
                    assert(!actor_hit_at(ray, actors@, i as int, k));
                    assert(actor_hits_at(ray, actors@, k, i as int + 1) == actor_hits_at(
                        ray,
                        actors@,
                        k,
                        i as int,
                    ));
                }
            }
            i = i + 1;
        }

        let bp = BlockPos {
            x: crate::geometry::block_axis(p.x),
            y: crate::geometry::block_axis(p.y),
            z: crate::geometry::block_axis(p.z),
        };
        proof {
            assert(bp.m() == sample_block(ray, k));
        }
        let ghost chunk = actor_hits_at(ray, actors@, k, actors@.len() as int);
        let ghost pre_hits = hits@;
        match world.block_at(&bp) {
            Some(state) => {
                let dup = contains_block_hit(&hits, &bp);
                if !dup {
                    proof {
                        crate::geometry::lemma_block_offset_range(p.x as int);
                        crate::geometry::lemma_block_offset_range(p.y as int);
                        crate::geometry::lemma_block_offset_range(p.z as int);
                    }
                    let ox = p.x - bp.x * MILLI;
                    let oy = p.y - bp.y * MILLI;
                    let oz = p.z - bp.z * MILLI;
                    let off = Vec3 { x: ox, y: oy, z: oz };
                    hits.push(RayHit::Block { state, pos: bp, offset: off });
                    proof {
                        let bh = block_hit_of(state, sample_block(ray, k), sample_offset(ray, k));
                        assert(RayHit::Block { state, pos: bp, offset: off } == bh);
                        assert(hits@ =~= march_hits(ray, blocks, actors@, k) + chunk.push(bh));
                        assert(hits_at(ray, blocks, actors@, k) == chunk.push(bh));
                        assert forall|i2: int| 0 <= i2 < actors@.len() implies (has_entity_hit(
                            hits@,
                            #[trigger] actors@[i2].id,
                        ) <==> (actor_seen_before(ray, actors@, i2, k) || actor_hit_at(
                            ray,
                            actors@,
                            i2,
                            k,
                        ))) by {
                            lemma_has_entity_push(pre_hits, bh, actors@[i2].id);
                        }
                        assert forall|c: (int, int, int)| #[trigger] has_block_hit(hits@, c) <==> (
                        block_lookup(blocks, c) is Some && (block_seen_before(ray, k, c)
                            || sample_block(ray, k) == c)) by {
                            lemma_has_block_push(pre_hits, bh, c);
                        }
                    }
                } else {
                    proof {
                        assert(block_seen_before(ray, k, sample_block(ray, k)));
                        assert(hits_at(ray, blocks, actors@, k) == chunk);
                    }
                }
            },
            None => {
                proof {
                    assert(hits_at(ray, blocks, actors@, k) == chunk);
                    assert forall|c: (int, int, int)| #[trigger] has_block_hit(hits@, c) <==> (
                    block_lookup(blocks, c) is Some && (block_seen_before(ray, k, c)
                        || sample_block(ray, k) == c)) by {
                        lemma_block_seen_step(ray, c, k);
                    }
                }
            },
        }
        proof {
            assert(march_hits(ray, blocks, actors@, k + 1) == march_hits(ray, blocks, actors@, k)
                + hits_at(ray, blocks, actors@, k));
            assert(hits@ == march_hits(ray, blocks, actors@, k + 1));
            assert forall|i2: int| 0 <= i2 < actors@.len() implies (has_entity_hit(
                hits@,
                #[trigger] actors@[i2].id,
            ) <==> actor_seen_before(ray, actors@, i2, k + 1)) by {
                lemma_actor_seen_step(ray, actors@, i2, k);
            }
            assert forall|c: (int, int, int)| #[trigger] has_block_hit(hits@, c) <==> (block_lookup(
                blocks,
                c,
            ) is Some && block_seen_before(ray, k + 1, c)) by {
                lemma_block_seen_step(ray, c, k);
            }
            k = k + 1;
        }
        t = t + STEP;
    }
    proof {
        lemma_n_samples_exact(ray.length as int, k);
    }
    hits
}

} // verus!
