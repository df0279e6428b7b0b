//! The explicit tick context: a block store queried by integer coordinate
//! and the per-tick snapshot of actor hitboxes. Both are handed into each
//! query so the engine stays free of ambient state.
use vstd::prelude::*;
use crate::geometry::{Aabb, BlockPos};

verus! {

/// The block state of plain air.
pub const BLOCK_AIR: u64 = 0;

/// The block state of cave air; also passable.
pub const BLOCK_CAVE_AIR: u64 = 1;

/// Block states a projectile flies through.
pub open spec fn is_air(state: u64) -> bool {
    state == BLOCK_AIR || state == BLOCK_CAVE_AIR
}

/// One actor that projectiles can collide with.
#[derive(Clone, Copy, PartialEq, Eq, Structural, Debug)]
pub struct Actor {
    /// The actor's handle, unique within one tick's snapshot.
    pub id: u64,
    /// The actor's bounding volume, in milliblock coordinates.
    pub hitbox: Aabb,
}

/// A snapshot is a set of actors: no handle appears twice.
pub open spec fn distinct_actor_ids(actors: Seq<Actor>) -> bool {
    forall|i: int, j: int|
        0 <= i < j < actors.len() ==> #[trigger] actors[i].id != #[trigger] actors[j].id
}

/// A block store. Coordinates without an entry are unloaded: a lookup
/// there reports no block rather than failing.
pub struct World {
    /// Block entries; a later entry for the same coordinate shadows an
    /// earlier one.
    pub blocks: Vec<(BlockPos, u64)>,
}

/// The state recorded for coordinate `c`, the latest entry winning.
pub open spec fn block_lookup(blocks: Seq<(BlockPos, u64)>, c: (int, int, int)) -> Option<u64>
    decreases blocks.len(),
{
    if blocks.len() == 0 {
        None
    } else if blocks.last().0.m() == c {
        Some(blocks.last().1)
    } else {
        block_lookup(blocks.drop_last(), c)
    }
}

/// One world under its registry handle.
pub struct WorldEntry {
    /// The opaque handle the registry knows this world by.
    pub handle: u64,
    /// The world itself.
    pub world: World,
}

/// The world registered under handle `h`, the earliest entry winning.
pub open spec fn world_lookup(ws: Seq<WorldEntry>, h: u64) -> Option<World>
    decreases ws.len(),
{
    if ws.len() == 0 {
        None
    } else if ws[0].handle == h {
        Some(ws[0].world)
    } else {
        world_lookup(ws.drop_first(), h)
    }
}

/// The explicit registry of worlds a tick may resolve handles against.
pub struct WorldSet {
    /// The registered worlds.
    pub worlds: Vec<WorldEntry>,
}

impl WorldSet {
    /// A registry with no worlds: every handle is dangling.
    pub fn new() -> (ws: WorldSet)
        ensures
            ws.worlds@ =~= Seq::<WorldEntry>::empty(),
    {
        WorldSet { worlds: Vec::new() }
    }

    /// Register one world under a handle.
    pub fn insert(&mut self, handle: u64, world: World)
        ensures
            final(self).worlds@ == old(self).worlds@.push((WorldEntry { handle, world })),
    {
        self.worlds.push(WorldEntry { handle, world });
    }

    /// Resolve a handle; a dangling handle reports `None`, never an
    /// error.
    pub fn get(&self, h: u64) -> (r: Option<&World>)
        ensures
            match r {
                Some(w) => world_lookup(self.worlds@, h) == Some(*w),
                None => world_lookup(self.worlds@, h) is None,
            },
    {
        let n = self.worlds.len();
        proof {
            assert(self.worlds@.skip(0) =~= self.worlds@);
        }
        let mut i: usize = 0;
        while i < n
            invariant
                i <= n,
                n == self.worlds@.len(),
                world_lookup(self.worlds@, h) == world_lookup(self.worlds@.skip(i as int), h),
                forall|j: int| 0 <= j < i ==> (#[trigger] self.worlds@[j]).handle != h,
            decreases n - i,
        {
            proof {
                assert(self.worlds@.skip(i as int)[0] == self.worlds@[i as int]);
                assert(self.worlds@.skip(i as int).drop_first() =~= self.worlds@.skip(
                    i as int + 1,
                ));
            }
            if self.worlds[i].handle == h {
                return Some(&self.worlds[i].world);
            }
            i = i + 1;
        }
        None
    }
}

impl World {
    /// An empty world: every coordinate is unloaded.
    pub fn new() -> (w: World)
        ensures
            w.blocks@ =~= Seq::<(BlockPos, u64)>::empty(),
    {
        World { blocks: Vec::new() }
    }

    /// Record the block state at one coordinate.
    pub fn set_block(&mut self, pos: BlockPos, state: u64)
        ensures
            final(self).blocks@ == old(self).blocks@.push((pos, state)),
            forall|c: (int, int, int)|
                #[trigger] block_lookup(final(self).blocks@, c) == if c == pos.m() {
                    Some(state)
                } else {
                    block_lookup(old(self).blocks@, c)
                },
    {
        self.blocks.push((pos, state));
        proof {
            assert forall|c: (int, int, int)|
                #[trigger] block_lookup(self.blocks@, c) == if c == pos.m() {
                    Some(state)
                } else {
                    block_lookup(old(self).blocks@, c)
                } by {
                assert(self.blocks@.drop_last() =~= old(self).blocks@);
            }
        }
    }

    /// Look up the block at a coordinate; unloaded coordinates report
    /// `None`, never an error.
    pub fn block_at(&self, pos: &BlockPos) -> (r: Option<u64>)
        ensures
            r == block_lookup(self.blocks@, pos.m()),
    {
        let n = self.blocks.len();
        proof {
            assert(self.blocks@.take(n as int) =~= self.blocks@);
        }
        let mut i: usize = n;
        while i > 0
            invariant
                i <= n,
                n == self.blocks@.len(),
                block_lookup(self.blocks@, pos.m()) == block_lookup(
                    self.blocks@.take(i as int),
                    pos.m(),
                ),
            decreases i,
        {
            i = i - 1;
            let entry = self.blocks[i];
            proof {
                assert(self.blocks@.take(i as int + 1).drop_last() =~= self.blocks@.take(i as int));
                assert(self.blocks@.take(i as int + 1).last() == self.blocks@[i as int]);
            }
            if entry.0.x == pos.x && entry.0.y == pos.y && entry.0.z == pos.z {
                return Some(entry.1);
            }
        }
        proof {
            assert(self.blocks@.take(0) =~= Seq::<(BlockPos, u64)>::empty());
        }
        None
    }
}

} // verus!
