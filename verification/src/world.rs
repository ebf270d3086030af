//! The grid owner and tick scheduler: the tile array, the double-buffered
//! active worklists, and the three strictly ordered phases of a tick —
//! decay shift, propagation over the active worklist, and stochastic
//! replenishment.

use crate::conns::{conn_sides, conns_get, conns_len, conns_new, conns_push};
use crate::dim::{Dim, WorldError};
use crate::sampler::Sampler;
use crate::tile::{
    active_slot, lemma_shift_preserves_inv, shifted_tiles, tile_inv, tile_shifted, Signal, Tick,
    Tile, TileType, SIGNAL_BACKLOG_LENGTH, SIGNAL_BACKLOG_UNIT,
};
use crate::wrap::{wrap16, wrapping_add16, wrapping_sub16};
use arrayvec::ArrayVec;
use vstd::prelude::*;

verus! {

/// Probability (as a ratio) that a routed-to neighbor is flagged into the
/// next tick's worklist, drawn independently per neighbor.
pub const FLAG_UPDATED_RATE_NUM: u32 = 4;

/// Denominator of the flagging probability.
pub const FLAG_UPDATED_RATE_DEN: u32 = 5;

/// Percentage of all tiles the replenishment phase samples each tick.
pub const RANDOM_TICK_PERCENTAGE: usize = 20;

/// Terminal columns left of the grid when rendered.
pub const PADDING_LEFT: usize = 8;

/// Terminal rows above the grid when rendered.
pub const PADDING_TOP: usize = 5;

/// Coordinates of the neighbor on `side` of `(x, y)`; the side order is
/// east, west, north, south.
pub open spec fn side_coords(x: int, y: int, side: int) -> (int, int) {
    if side == 0 {
        (x + 1, y)
    } else if side == 1 {
        (x - 1, y)
    } else if side == 2 {
        (x, y + 1)
    } else {
        (x, y - 1)
    }
}

/// The grid: fixed dimensions, the row-major tile array, the two
/// double-buffered worklists of active tile offsets, and a cursor that is
/// plain shared UI state — the simulation itself never reads or writes it.
pub struct World {
    pub dim: Dim,
    pub tiles: Vec<Tile>,
    pub flagged_tiles: Vec<usize>,
    pub next_flagged_tiles: Vec<usize>,
    pub cursor: (usize, usize),
}

/// The linear offset of the neighbor on `side` of `(x, y)`.
pub open spec fn side_offset_of(dim: Dim, x: int, y: int, side: int) -> int {
    dim.offset_of(side_coords(x, y, side).0, side_coords(x, y, side).1)
}

/// All in-bounds side neighbors of `(x, y)` sit at pairwise distinct linear
/// offsets, none of them the offset of `(x, y)` itself.
pub proof fn lemma_neighbor_offsets_distinct(dim: Dim, x: int, y: int)
    requires
        dim.in_bounds(x, y),
    ensures
        forall|s1: int, s2: int|
            0 <= s1 < 4 && 0 <= s2 < 4 && s1 != s2 && dim.in_bounds(
                side_coords(x, y, s1).0,
                side_coords(x, y, s1).1,
            ) && dim.in_bounds(side_coords(x, y, s2).0, side_coords(x, y, s2).1)
                ==> #[trigger] side_offset_of(dim, x, y, s1) != #[trigger] side_offset_of(
                dim,
                x,
                y,
                s2,
            ),
        forall|s: int|
            0 <= s < 4 && dim.in_bounds(side_coords(x, y, s).0, side_coords(x, y, s).1)
                ==> #[trigger] side_offset_of(dim, x, y, s) != dim.offset_of(x, y),
{
    let w = dim.width as int;
    assert((y + 1) * w == y * w + w) by (nonlinear_arith);
    assert((y - 1) * w == y * w - w) by (nonlinear_arith);
}

/// An emitter pays out: its pending deposit drops by its whole rolling sum
/// (mod 2^16); its classification and ring state stay untouched.
pub open spec fn tile_paid(pre: Tile, post: Tile) -> bool {
    &&& post.ty == pre.ty
    &&& post.signals == pre.signals
    &&& post.signal_sum == pre.signal_sum
    &&& post.next_signal.0 == wrap16(pre.next_signal.0 - pre.signal_sum.0)
}

/// A routed-to neighbor is credited: its pending deposit gains `share`
/// (mod 2^16); everything else stays untouched.
pub open spec fn tile_credited(pre: Tile, post: Tile, share: int) -> bool {
    &&& post.ty == pre.ty
    &&& post.signals == pre.signals
    &&& post.signal_sum == pre.signal_sum
    &&& post.next_signal.0 == wrap16(pre.next_signal.0 + share)
}

/// Whether the tile on `side` of `(x, y)` in `tiles` is an in-bounds,
/// accepting propagation target — a member of the connection set.
pub open spec fn connects_at(dim: Dim, tiles: Seq<Tile>, x: int, y: int, side: int) -> bool {
    let (x2, y2) = side_coords(x, y, side);
    dim.in_bounds(x2, y2) && tiles[dim.offset_of(x2, y2)].ty.accepts()
}

/// The connection set of `(x, y)` in `tiles`, restricted to sides below
/// `n`, as the increasing sequence of side indices.
pub open spec fn conn_seq_upto_at(dim: Dim, tiles: Seq<Tile>, x: int, y: int, n: int) -> Seq<
    usize,
>
    decreases n,
{
    if n <= 0 {
        Seq::empty()
    } else {
        let prefix = conn_seq_upto_at(dim, tiles, x, y, n - 1);
        if connects_at(dim, tiles, x, y, n - 1) {
            prefix.push((n - 1) as usize)
        } else {
            prefix
        }
    }
}

/// The connection set of `(x, y)` in `tiles`, as the increasing sequence of
/// side indices of its members.
pub open spec fn conn_seq_at(dim: Dim, tiles: Seq<Tile>, x: int, y: int) -> Seq<usize> {
    conn_seq_upto_at(dim, tiles, x, y, 4)
}

/// Whether offset `o` addresses a member of the connection set of `(x, y)`
/// in `tiles`.
pub open spec fn is_conn_neighbor_at(dim: Dim, tiles: Seq<Tile>, x: int, y: int, o: int) -> bool {
    exists|side: int|
        0 <= side < 4 && #[trigger] connects_at(dim, tiles, x, y, side) && o == side_offset_of(
            dim,
            x,
            y,
            side,
        )
}

/// The final state of one connection-set member after propagation at
/// `(x, y)`: an absorbing member is untouched (its share is discarded), any
/// other member is credited `share`.
pub open spec fn member_final_at(
    dim: Dim,
    pre: Seq<Tile>,
    post: Seq<Tile>,
    x: int,
    y: int,
    side: int,
    share: int,
) -> bool {
    let noff = side_offset_of(dim, x, y, side);
    if pre[noff].ty.absorbs_spec() {
        post[noff] == pre[noff]
    } else {
        tile_credited(pre[noff], post[noff], share)
    }
}

/// The final state of one connection-set member after propagation at
/// `(x, y)` of the given world.
pub open spec fn member_final(
    pre: World,
    post: Seq<Tile>,
    x: int,
    y: int,
    side: int,
    share: int,
) -> bool {
    member_final_at(pre.dim, pre.tiles@, post, x, y, side, share)
}

/// How one propagation step at the emitting tile `(x, y)` transforms the
/// tile array: the emitter pays out its whole rolling sum, every member of
/// its connection set is handled per [`member_final_at`] with an equal
/// integer share of that sum (the division remainder is dropped, lost by
/// design), and every other tile is untouched.
pub open spec fn propagated_at(dim: Dim, pre: Seq<Tile>, post: Seq<Tile>, x: int, y: int) -> bool {
    let off = dim.offset_of(x, y);
    let cnt = conn_seq_at(dim, pre, x, y).len() as int;
    let share = pre[off].signal_sum.0 as int / cnt;
    &&& post.len() == pre.len()
    &&& tile_paid(pre[off], post[off])
    &&& forall|side: int|
        0 <= side < 4 && #[trigger] connects_at(dim, pre, x, y, side) ==> member_final_at(
            dim,
            pre,
            post,
            x,
            y,
            side,
            share,
        )
    &&& forall|o: int|
        0 <= o < post.len() && o != off && !is_conn_neighbor_at(dim, pre, x, y, o) ==> (
        #[trigger] post[o]) == pre[o]
}

/// How one propagation step at the emitting tile `(x, y)` of the given
/// world transforms the tile array.
pub open spec fn propagated(pre: World, post: Seq<Tile>, x: int, y: int) -> bool {
    propagated_at(pre.dim, pre.tiles@, post, x, y)
}

/// The tile-array effect of examining one worklisted offset: an emitting
/// tile with a non-empty connection set propagates per [`propagated_at`];
/// any other offset — out of range, non-emitting, or a degenerate
/// neighborhood — leaves the array untouched.
pub open spec fn flag_step(dim: Dim, pre: Seq<Tile>, off: int, post: Seq<Tile>) -> bool {
    let x = dim.x_of(off);
    let y = dim.y_of(off);
    if 0 <= off < pre.len() && pre[off].ty.emits_spec() && conn_seq_at(dim, pre, x, y).len() > 0 {
        propagated_at(dim, pre, post, x, y)
    } else {
        post == pre
    }
}

/// The propagation phase as a relation: the tile array is transformed by
/// examining the worklist's offsets in order, each per [`flag_step`].
pub open spec fn worklist_stepped(dim: Dim, pre: Seq<Tile>, list: Seq<usize>, post: Seq<Tile>) -> bool
    decreases list.len(),
{
    if list.len() <= 0 {
        post == pre
    } else {
        exists|mid: Seq<Tile>|
            #[trigger] flag_step(dim, pre, list[0] as int, mid) && worklist_stepped(
                dim,
                mid,
                list.drop_first(),
                post,
            )
    }
}

/// One replenishment credit: the sampled offset's pending deposit gains
/// its type's source strength (mod 2^16), exactly as `random_tick` does;
/// an out-of-range offset changes nothing.
pub open spec fn credited_tiles(pre: Seq<Tile>, off: int) -> Seq<Tile> {
    if 0 <= off < pre.len() {
        pre.update(
            off,
            (Tile {
                next_signal: Signal(
                    wrap16(pre[off].next_signal.0 + pre[off].ty.weight_spec().0) as u16,
                ),
                ..pre[off]
            }),
        )
    } else {
        pre
    }
}

/// The replenishment phase as a function of the drawn sample: each sampled
/// offset is credited in order.
pub open spec fn replenished(pre: Seq<Tile>, sample: Seq<usize>) -> Seq<Tile>
    decreases sample.len(),
{
    if sample.len() <= 0 {
        pre
    } else {
        replenished(credited_tiles(pre, sample[0] as int), sample.drop_first())
    }
}

/// The shape of a replenishment draw: exactly `amount` distinct in-range
/// offsets.
pub open spec fn valid_sample(sample: Seq<usize>, len: int, amount: int) -> bool {
    &&& sample.len() == amount
    &&& forall|i: int| 0 <= i < sample.len() ==> (#[trigger] sample[i]) < len
    &&& forall|i: int, j: int| 0 <= i < j < sample.len() ==> sample[i] != sample[j]
}

/// Whether offset `o` was discoverable by this tick's propagation: it is
/// a connection-set member of some offset on the examined worklist.
pub open spec fn discovered_from(dim: Dim, tiles: Seq<Tile>, examined: Seq<usize>, o: int) -> bool {
    exists|k: int|
        0 <= k < examined.len() && is_conn_neighbor_at(
            dim,
            tiles,
            dim.x_of(#[trigger] examined[k] as int),
            dim.y_of(examined[k] as int),
            o,
        )
}

/// Examining one more offset extends a stepped worklist.
pub proof fn lemma_stepped_push(
    dim: Dim,
    pre: Seq<Tile>,
    list: Seq<usize>,
    off: usize,
    mid: Seq<Tile>,
    post: Seq<Tile>,
)
    requires
        worklist_stepped(dim, pre, list, mid),
        flag_step(dim, mid, off as int, post),
    ensures
        worklist_stepped(dim, pre, list.push(off), post),
    decreases list.len(),
{
    let l2 = list.push(off);
    if list.len() == 0 {
        assert(mid == pre);
        assert(l2[0] == off);
        assert(l2.drop_first() =~= Seq::<usize>::empty());
        assert(flag_step(dim, pre, l2[0] as int, post) && worklist_stepped(
            dim,
            post,
            l2.drop_first(),
            post,
        ));
    } else {
        let m0 = choose|m: Seq<Tile>|
            #[trigger] flag_step(dim, pre, list[0] as int, m) && worklist_stepped(
                dim,
                m,
                list.drop_first(),
                mid,
            );
        lemma_stepped_push(dim, m0, list.drop_first(), off, mid, post);
        assert(l2[0] == list[0]);
        assert(l2.drop_first() =~= list.drop_first().push(off));
        assert(flag_step(dim, pre, l2[0] as int, m0) && worklist_stepped(
            dim,
            m0,
            l2.drop_first(),
            post,
        ));
    }
}

/// Crediting one more sampled offset extends a replenished array.
pub proof fn lemma_replenished_push(pre: Seq<Tile>, sample: Seq<usize>, off: usize)
    ensures
        replenished(pre, sample.push(off)) == credited_tiles(
            replenished(pre, sample),
            off as int,
        ),
    decreases sample.len(),
{
    let s2 = sample.push(off);
    assert(replenished(pre, s2) == replenished(credited_tiles(pre, s2[0] as int), s2.drop_first()));
    if sample.len() == 0 {
        assert(s2[0] == off);
        assert(s2.drop_first() =~= Seq::<usize>::empty());
        assert(replenished(credited_tiles(pre, off as int), s2.drop_first()) == credited_tiles(
            pre,
            off as int,
        ));
        assert(replenished(pre, sample) == pre);
    } else {
        assert(s2[0] == sample[0]);
        assert(s2.drop_first() =~= sample.drop_first().push(off));
        lemma_replenished_push(credited_tiles(pre, sample[0] as int), sample.drop_first(), off);
        assert(replenished(pre, sample) == replenished(
            credited_tiles(pre, sample[0] as int),
            sample.drop_first(),
        ));
    }
}

/// Connection-set membership depends only on the tiles' types: two arrays
/// that classify every position alike agree on it.
pub proof fn lemma_conn_neighbor_same_types(
    dim: Dim,
    t1: Seq<Tile>,
    t2: Seq<Tile>,
    x: int,
    y: int,
    o: int,
)
    requires
        dim.wf(),
        t1.len() == dim.area(),
        t2.len() == t1.len(),
        forall|i: int| 0 <= i < t1.len() ==> (#[trigger] t1[i]).ty == t2[i].ty,
        is_conn_neighbor_at(dim, t1, x, y, o),
    ensures
        is_conn_neighbor_at(dim, t2, x, y, o),
{
    let side = choose|side: int|
        0 <= side < 4 && #[trigger] connects_at(dim, t1, x, y, side) && o == side_offset_of(
            dim,
            x,
            y,
            side,
        );
    let (x2, y2) = side_coords(x, y, side);
    crate::dim::lemma_coords_round_trip(dim, x2, y2);
    assert(connects_at(dim, t2, x, y, side));
}

impl World {
    /// Well-formedness: the tile array covers exactly the grid area, every
    /// tile satisfies the ring invariant, and both worklists hold only
    /// valid offsets.
    pub open spec fn wf(self) -> bool {
        &&& self.dim.wf()
        &&& self.tiles@.len() == self.dim.area()
        &&& forall|i: int| 0 <= i < self.tiles@.len() ==> tile_inv(#[trigger] self.tiles@[i])
        &&& forall|i: int|
            0 <= i < self.flagged_tiles@.len() ==> (#[trigger] self.flagged_tiles@[i])
                < self.tiles@.len()
        &&& forall|i: int|
            0 <= i < self.next_flagged_tiles@.len() ==> (#[trigger] self.next_flagged_tiles@[i])
                < self.tiles@.len()
    }

    /// Whether the tile on `side` of `(x, y)` is an in-bounds, accepting
    /// propagation target — a member of the connection set.
    pub open spec fn connects(self, x: int, y: int, side: int) -> bool {
        connects_at(self.dim, self.tiles@, x, y, side)
    }

    /// The connection set of `(x, y)` restricted to sides below `n`, as the
    /// increasing sequence of side indices.
    pub open spec fn conn_seq_upto(self, x: int, y: int, n: int) -> Seq<usize> {
        conn_seq_upto_at(self.dim, self.tiles@, x, y, n)
    }

    /// The connection set of `(x, y)`, as the increasing sequence of side
    /// indices of its members.
    pub open spec fn conn_seq(self, x: int, y: int) -> Seq<usize> {
        conn_seq_at(self.dim, self.tiles@, x, y)
    }

    /// Whether offset `o` addresses a member of the connection set of
    /// `(x, y)`.
    pub open spec fn is_conn_neighbor(self, x: int, y: int, o: int) -> bool {
        is_conn_neighbor_at(self.dim, self.tiles@, x, y, o)
    }

    /// What the connection-set sequence holds: exactly the connecting sides
    /// below `n`, in increasing order.
    pub proof fn lemma_conn_seq_upto(self, x: int, y: int, n: int)
        requires
            0 <= n <= 4,
        ensures
            forall|j: int|
                0 <= j < self.conn_seq_upto(x, y, n).len() ==> (#[trigger] self.conn_seq_upto(
                    x,
                    y,
                    n,
                )[j]) < n && self.connects(x, y, self.conn_seq_upto(x, y, n)[j] as int),
            forall|j: int, k: int|
                0 <= j < k < self.conn_seq_upto(x, y, n).len() ==> self.conn_seq_upto(x, y, n)[j]
                    < self.conn_seq_upto(x, y, n)[k],
            forall|side: int|
                0 <= side < n && #[trigger] self.connects(x, y, side) ==> exists|j: int|
                    0 <= j < self.conn_seq_upto(x, y, n).len() && self.conn_seq_upto(x, y, n)[j]
                        == side,
        decreases n,
    {
        if n > 0 {
            self.lemma_conn_seq_upto(x, y, n - 1);
            let p = self.conn_seq_upto(x, y, n - 1);
            let s = self.conn_seq_upto(x, y, n);
            if self.connects(x, y, n - 1) {
                assert(s == p.push((n - 1) as usize));
                assert forall|j: int|
                    0 <= j < s.len() implies (#[trigger] s[j]) < n && self.connects(
                    x,
                    y,
                    s[j] as int,
                ) by {
                    if j < p.len() {
                        assert(s[j] == p[j]);
                    } else {
                        assert(s[j] == (n - 1) as usize);
                    }
                }
                assert forall|j: int, k: int| 0 <= j < k < s.len() implies s[j] < s[k] by {
                    if k < p.len() {
                        assert(s[j] == p[j] && s[k] == p[k]);
                    } else {
                        assert(s[k] == (n - 1) as usize);
                        assert(s[j] == p[j] && p[j] < n - 1);
                    }
                }
                assert forall|side: int|
                    0 <= side < n && #[trigger] self.connects(x, y, side) implies exists|j: int|
                    0 <= j < s.len() && s[j] == side by {
                    if side == n - 1 {
                        assert(s[p.len() as int] == (n - 1) as usize);
                    } else {
                        let j = choose|j: int| 0 <= j < p.len() && p[j] == side;
                        assert(s[j] == p[j]);
                    }
                }
            } else {
                assert(s == p);
            }
        }
    }

    /// A fresh grid of the given dimensions: every tile is default air with
    /// no signal anywhere, both worklists are empty, the cursor is at the
    /// origin. The size bound keeps all derived offset and percentage
    /// arithmetic within `usize`.
    pub fn new(width: usize, height: usize) -> (w: World)
        requires
            width * height * 100 <= usize::MAX,
        ensures
            w.wf(),
            w.dim == (Dim { width, height }),
            w.tiles@.len() == width * height,
            forall|i: int|
                0 <= i < w.tiles@.len() ==> (#[trigger] w.tiles@[i]).ty == TileType::Air
                    && w.tiles@[i].signal_sum.0 == 0 && w.tiles@[i].next_signal.0 == 0,
            forall|i: int, s: int|
                0 <= i < w.tiles@.len() && 0 <= s < SIGNAL_BACKLOG_LENGTH ==> (
                #[trigger] w.tiles@[i].signals[s]).0 == 0,
            w.flagged_tiles@.len() == 0,
            w.next_flagged_tiles@.len() == 0,
            w.cursor == (0usize, 0usize),
    {
        proof {
            assert(width * height <= width * height * 100) by (nonlinear_arith);
        }
        let n = width * height;
        let mut tiles: Vec<Tile> = Vec::new();
        let mut i: usize = 0;
        while i < n
            invariant
                i <= n,
                tiles@.len() == i,
                forall|j: int|
                    0 <= j < i ==> (#[trigger] tiles@[j]).ty == TileType::Air
                        && tiles@[j].signal_sum.0 == 0 && tiles@[j].next_signal.0 == 0 && tile_inv(
                        tiles@[j],
                    ),
                forall|j: int, s: int|
                    0 <= j < i && 0 <= s < SIGNAL_BACKLOG_LENGTH ==> (
                    #[trigger] tiles@[j].signals[s]).0 == 0,
            decreases n - i,
        {
            tiles.push(Tile::default());
            i += 1;
        }
        World {
            dim: Dim { width, height },
            tiles,
            flagged_tiles: Vec::new(),
            next_flagged_tiles: Vec::new(),
            cursor: (0, 0),
        }
    }

    /// Phase A, the decay shift: for every tile, the active ring slot's old
    /// value rolls out of the running sum, the pending deposit rolls in and
    /// is written into the slot. The pending deposit itself is deliberately
    /// left in place.
    pub fn pre_tick(&mut self, now: Tick)
        requires
            old(self).wf(),
        ensures
            final(self).wf(),
            final(self).dim == old(self).dim,
            final(self).cursor == old(self).cursor,
            final(self).flagged_tiles@ == old(self).flagged_tiles@,
            final(self).next_flagged_tiles@ == old(self).next_flagged_tiles@,
            final(self).tiles@.len() == old(self).tiles@.len(),
            forall|i: int|
                0 <= i < final(self).tiles@.len() ==> tile_shifted(
                    old(self).tiles@[i],
                    #[trigger] final(self).tiles@[i],
                    active_slot(now),
                ),
    {
        let s = (now.0 / SIGNAL_BACKLOG_UNIT) as usize % SIGNAL_BACKLOG_LENGTH;
        assert(s as int == active_slot(now));
        let n = self.tiles.len();
        let mut i: usize = 0;
        while i < n
            invariant
                i <= n,
                n == self.tiles@.len(),
                self.tiles@.len() == old(self).tiles@.len(),
                s < SIGNAL_BACKLOG_LENGTH,
                s as int == active_slot(now),
                self.dim == old(self).dim,
                self.cursor == old(self).cursor,
                self.flagged_tiles@ == old(self).flagged_tiles@,
                self.next_flagged_tiles@ == old(self).next_flagged_tiles@,
                old(self).wf(),
                forall|j: int|
                    0 <= j < i ==> tile_shifted(
                        old(self).tiles@[j],
                        #[trigger] self.tiles@[j],
                        s as int,
                    ),
                forall|j: int| i <= j < n ==> self.tiles@[j] == old(self).tiles@[j],
            decreases n - i,
        {
            let mut t = self.tiles[i];
            let ghost pre_t = t;
            let slot_val = t.signals[s];
            t.signal_sum = Signal(wrapping_sub16(t.signal_sum.0, slot_val.0));
            t.signal_sum = Signal(wrapping_add16(t.signal_sum.0, t.next_signal.0));
            t.signals[s] = t.next_signal;
            proof {
                let m = 0x10000;
                let a = pre_t.signal_sum.0 as int;
                let b = pre_t.signals[s as int].0 as int;
                let c = pre_t.next_signal.0 as int;
                vstd::arithmetic::div_mod::lemma_add_mod_noop_right(c, a - b, m);
                assert(t.signal_sum.0 == wrap16(a - b + c));
                assert(tile_shifted(pre_t, t, s as int));
            }
            self.tiles[i] = t;
            i += 1;
        }
        proof {
            assert forall|i: int| 0 <= i < self.tiles@.len() implies tile_inv(
                #[trigger] self.tiles@[i],
            ) by {
                lemma_shift_preserves_inv(old(self).tiles@[i], self.tiles@[i], s as int);
            }
        }
    }

    /// Phase C's per-tile step: the sampled tile's pending deposit gains its
    /// type's source strength (mod 2^16). `OutOfRange` if and only if the
    /// offset is beyond the grid.
    pub fn random_tick(&mut self, tile_offset: usize) -> (r: Result<(), WorldError>)
        requires
            old(self).wf(),
        ensures
            final(self).wf(),
            final(self).dim == old(self).dim,
            final(self).cursor == old(self).cursor,
            final(self).flagged_tiles@ == old(self).flagged_tiles@,
            final(self).next_flagged_tiles@ == old(self).next_flagged_tiles@,
            match r {
                Ok(()) => tile_offset < old(self).tiles@.len() && final(self).tiles@ == old(
                    self,
                ).tiles@.update(
                    tile_offset as int,
                    (Tile {
                        next_signal: Signal(
                            wrap16(
                                old(self).tiles@[tile_offset as int].next_signal.0 + old(
                                    self,
                                ).tiles@[tile_offset as int].ty.weight_spec().0,
                            ) as u16,
                        ),
                        ..old(self).tiles@[tile_offset as int]
                    }),
                ),
                Err(e) => tile_offset >= old(self).tiles@.len() && e == WorldError::OutOfRange
                    && final(self).tiles@ == old(self).tiles@,
            },
    {
        if tile_offset < self.tiles.len() {
            let mut t = self.tiles[tile_offset];
            let w = t.ty.weight();
            t.next_signal = Signal(wrapping_add16(t.next_signal.0, w.0));
            self.tiles[tile_offset] = t;
            Ok(())
        } else {
            Err(WorldError::OutOfRange)
        }
    }

    /// The external editing hook: reclassifies the tile at `(x, y)` without
    /// touching any of its signal state. `OutOfRange` if and only if the
    /// coordinates are outside the grid.
    pub fn set_tile_type(&mut self, x: usize, y: usize, ty: TileType) -> (r: Result<
        (),
        WorldError,
    >)
        requires
            old(self).wf(),
        ensures
            final(self).wf(),
            final(self).dim == old(self).dim,
            final(self).cursor == old(self).cursor,
            final(self).flagged_tiles@ == old(self).flagged_tiles@,
            final(self).next_flagged_tiles@ == old(self).next_flagged_tiles@,
            match r {
                Ok(()) => old(self).dim.in_bounds(x as int, y as int) && final(self).tiles@ == old(
                    self,
                ).tiles@.update(
                    old(self).dim.offset_of(x as int, y as int),
                    (Tile { ty, ..old(self).tiles@[old(self).dim.offset_of(x as int, y as int)] }),
                ),
                Err(e) => !old(self).dim.in_bounds(x as int, y as int) && e
                    == WorldError::OutOfRange && final(self).tiles@ == old(self).tiles@,
            },
    {
        match self.dim.xy_offset(x, y) {
            Ok(off) => {
                let mut t = self.tiles[off];
                t.ty = ty;
                self.tiles[off] = t;
                Ok(())
            },
            Err(e) => Err(e),
        }
    }

    /// Read-only view of the tile at `(x, y)`, for rendering collaborators.
    /// `OutOfRange` if and only if the coordinates are outside the grid.
    pub fn tile_at(&self, x: usize, y: usize) -> (r: Result<Tile, WorldError>)
        requires
            self.wf(),
        ensures
            match r {
                Ok(t) => self.dim.in_bounds(x as int, y as int) && t == self.tiles@[self.dim.offset_of(
                    x as int,
                    y as int,
                )],
                Err(e) => !self.dim.in_bounds(x as int, y as int) && e == WorldError::OutOfRange,
            },
    {
        match self.dim.xy_offset(x, y) {
            Ok(off) => Ok(self.tiles[off]),
            Err(e) => Err(e),
        }
    }

    /// Terminal column of grid column `x` (two columns per tile, after the
    /// left padding).
    pub fn term_x(&self, x: usize) -> (r: u16)
        requires
            PADDING_LEFT + x * 2 <= u16::MAX,
        ensures
            r == PADDING_LEFT + x * 2,
    {
        (PADDING_LEFT + x * 2) as u16
    }

    /// Terminal row of grid row `y` (the grid is drawn bottom-up, under the
    /// top padding).
    pub fn term_y(&self, y: usize) -> (r: u16)
        requires
            y < self.dim.height,
            PADDING_TOP + self.dim.height <= u16::MAX,
        ensures
            r == PADDING_TOP + self.dim.height - y,
    {
        (PADDING_TOP + self.dim.height - y) as u16
    }

    /// Phase B's per-tile step: examine one worklisted tile. A non-emitting
    /// tile is left alone. An emitting tile pays its whole rolling sum out
    /// of its pending deposit and routes an equal integer share to each
    /// member of its connection set (absorbing members discard theirs);
    /// each member is independently flagged into the next worklist with a
    /// fixed probability. An emitter with an empty connection set is
    /// reported as `DegenerateNeighborhood` and deliberately left inert for
    /// this tick; an offset beyond the grid is `OutOfRange`. Ring state and
    /// tile classification are never touched here.
    #[verifier::loop_isolation(false)]
    #[verifier::rlimit(60)]
    pub fn flagged_tick(&mut self, tile_offset: usize, rng: &mut Sampler) -> (r: Result<
        (),
        WorldError,
    >)
        requires
            old(self).wf(),
        ensures
            final(self).wf(),
            final(self).dim == old(self).dim,
            final(self).cursor == old(self).cursor,
            final(self).flagged_tiles@ == old(self).flagged_tiles@,
            final(self).tiles@.len() == old(self).tiles@.len(),
            forall|i: int|
                0 <= i < final(self).tiles@.len() ==> (#[trigger] final(self).tiles@[i]).ty == old(
                    self,
                ).tiles@[i].ty && final(self).tiles@[i].signals == old(self).tiles@[i].signals
                    && final(self).tiles@[i].signal_sum == old(self).tiles@[i].signal_sum,
            ({
                let x = old(self).dim.x_of(tile_offset as int);
                let y = old(self).dim.y_of(tile_offset as int);
                match r {
                    Ok(()) => tile_offset < old(self).tiles@.len() && (old(
                        self,
                    ).tiles@[tile_offset as int].ty.emits_spec() ==> old(self).conn_seq(x, y).len()
                        > 0) && if old(self).tiles@[tile_offset as int].ty.emits_spec() {
                        propagated(*old(self), final(self).tiles@, x, y)
                    } else {
                        final(self).tiles@ == old(self).tiles@ && final(self).next_flagged_tiles@
                            == old(self).next_flagged_tiles@
                    },
                    Err(e) => final(self).tiles@ == old(self).tiles@ && final(self).next_flagged_tiles@ == old(self).next_flagged_tiles@ && match e {
                        WorldError::OutOfRange => tile_offset >= old(self).tiles@.len(),
                        WorldError::DegenerateNeighborhood => tile_offset < old(self).tiles@.len()
                            && old(self).tiles@[tile_offset as int].ty.emits_spec() && old(
                            self,
                        ).conn_seq(x, y).len() == 0,
                    },
                }
            }),
            ({
                let x = old(self).dim.x_of(tile_offset as int);
                let y = old(self).dim.y_of(tile_offset as int);
                old(self).next_flagged_tiles@.is_prefix_of(final(self).next_flagged_tiles@)
                    && forall|j: int|
                    old(self).next_flagged_tiles@.len() <= j < final(self).next_flagged_tiles@.len() ==> old(self).is_conn_neighbor(
                        x,
                        y,
                        #[trigger] final(self).next_flagged_tiles@[j] as int,
                    )
            }),
            // only the emitting path with a non-empty connection set draws
            // from the random source
            ({
                let x = old(self).dim.x_of(tile_offset as int);
                let y = old(self).dim.y_of(tile_offset as int);
                (tile_offset >= old(self).tiles@.len() || !old(
                    self,
                ).tiles@[tile_offset as int].ty.emits_spec() || old(self).conn_seq(x, y).len()
                    == 0) ==> *final(rng) == *old(rng)
            }),
    {
        if tile_offset >= self.tiles.len() {
            return Err(WorldError::OutOfRange);
        }
        let (x, y) = match self.dim.offset_xy(tile_offset) {
            Ok(p) => p,
            Err(_) => {
                proof {
                    assert(false);
                }
                (0, 0)
            },
        };
        let tile = self.tiles[tile_offset];
        if !tile.ty.emits() {
            return Ok(());
        }
        let mut conns: ArrayVec<usize, 4> = conns_new();
        let mut side: usize = 0;
        while side < 4
            invariant
                side <= 4,
                conn_sides(conns) == self.conn_seq_upto(x as int, y as int, side as int),
                conn_sides(conns).len() <= side,
            decreases 4 - side,
        {
            match side_neighbor(&self.dim, x, y, side) {
                Some(p) => {
                    let noff = match self.dim.xy_offset(p.0, p.1) {
                        Ok(o) => o,
                        Err(_) => {
                            proof {
                                assert(false);
                            }
                            0
                        },
                    };
                    if self.tiles[noff].ty.accepts() {
                        conns_push(&mut conns, side);
                    } else {
                        proof {
                            assert(!self.connects(x as int, y as int, side as int));
                        }
                    }
                },
                None => {
                    proof {
                        assert(!self.connects(x as int, y as int, side as int));
                    }
                },
            }
            proof {
                assert(conn_sides(conns) =~= self.conn_seq_upto(
                    x as int,
                    y as int,
                    side as int + 1,
                ));
            }
            side += 1;
        }
        let cnt = conns_len(&conns);
        if cnt == 0 {
            return Err(WorldError::DegenerateNeighborhood);
        }
        let ghost cseq = self.conn_seq(x as int, y as int);
        proof {
            self.lemma_conn_seq_upto(x as int, y as int, 4);
            lemma_neighbor_offsets_distinct(self.dim, x as int, y as int);
        }
        let mut t = self.tiles[tile_offset];
        t.next_signal = Signal(wrapping_sub16(t.next_signal.0, t.signal_sum.0));
        self.tiles[tile_offset] = t;
        let per_side = tile.signal_sum.0 / (cnt as u16);
        let ghost share = old(self).tiles@[tile_offset as int].signal_sum.0 as int / cseq.len() as int;
        proof {
            assert(per_side as int == share);
            assert(forall|o: int|
                0 <= o < self.tiles@.len() && o != tile_offset ==> (#[trigger] self.tiles@[o])
                    == old(self).tiles@[o]);
            assert forall|j: int| 0 <= j < cseq.len() implies self.tiles@[side_offset_of(
                old(self).dim,
                x as int,
                y as int,
                #[trigger] cseq[j] as int,
            )] == old(self).tiles@[side_offset_of(
                old(self).dim,
                x as int,
                y as int,
                cseq[j] as int,
            )] by {
                assert(old(self).connects(x as int, y as int, cseq[j] as int));
                let (x2, y2) = side_coords(x as int, y as int, cseq[j] as int);
                crate::dim::lemma_coords_round_trip(old(self).dim, x2, y2);
                assert(side_offset_of(old(self).dim, x as int, y as int, cseq[j] as int)
                    != tile_offset as int);
            }
        }
        let mut i: usize = 0;
        while i < cnt
            invariant
                i <= cnt,
                self.tiles@.len() == old(self).tiles@.len(),
                self.dim == old(self).dim,
                self.cursor == old(self).cursor,
                self.flagged_tiles@ == old(self).flagged_tiles@,
                forall|k: int|
                    0 <= k < self.tiles@.len() ==> (#[trigger] self.tiles@[k]).ty == old(
                        self,
                    ).tiles@[k].ty && self.tiles@[k].signals == old(self).tiles@[k].signals
                        && self.tiles@[k].signal_sum == old(self).tiles@[k].signal_sum,
                tile_paid(
                    old(self).tiles@[tile_offset as int],
                    self.tiles@[tile_offset as int],
                ),
                forall|j: int|
                    0 <= j < i ==> member_final(
                        *old(self),
                        self.tiles@,
                        x as int,
                        y as int,
                        #[trigger] cseq[j] as int,
                        share,
                    ),
                forall|j: int|
                    i <= j < cseq.len() ==> self.tiles@[side_offset_of(
                        old(self).dim,
                        x as int,
                        y as int,
                        #[trigger] cseq[j] as int,
                    )] == old(self).tiles@[side_offset_of(
                        old(self).dim,
                        x as int,
                        y as int,
                        cseq[j] as int,
                    )],
                forall|o: int|
                    0 <= o < self.tiles@.len() && o != tile_offset && !old(self).is_conn_neighbor(
                        x as int,
                        y as int,
                        o,
                    ) ==> (#[trigger] self.tiles@[o]) == old(self).tiles@[o],
                old(self).next_flagged_tiles@.is_prefix_of(self.next_flagged_tiles@),
                forall|j: int|
                    old(self).next_flagged_tiles@.len() <= j < self.next_flagged_tiles@.len()
                        ==> old(self).is_conn_neighbor(
                        x as int,
                        y as int,
                        #[trigger] self.next_flagged_tiles@[j] as int,
                    ) && self.next_flagged_tiles@[j] < self.tiles@.len(),
            decreases cnt - i,
        {
            let side_i = conns_get(&conns, i);
            let p = match side_neighbor(&self.dim, x, y, side_i) {
                Some(p) => p,
                None => {
                    proof {
                        assert(false);
                    }
                    (0, 0)
                },
            };
            let noff = match self.dim.xy_offset(p.0, p.1) {
                Ok(o) => o,
                Err(_) => {
                    proof {
                        assert(false);
                    }
                    0
                },
            };
            proof {
                assert(old(self).connects(x as int, y as int, side_i as int));
                assert(noff as int == side_offset_of(
                    old(self).dim,
                    x as int,
                    y as int,
                    side_i as int,
                ));
                assert(old(self).is_conn_neighbor(x as int, y as int, noff as int));
                assert(noff != tile_offset);
            }
            let mut nt = self.tiles[noff];
            if !nt.ty.absorbs() {
                nt.next_signal = Signal(wrapping_add16(nt.next_signal.0, per_side));
                self.tiles[noff] = nt;
            }
            if rng.ratio(FLAG_UPDATED_RATE_NUM, FLAG_UPDATED_RATE_DEN) {
                self.next_flagged_tiles.push(noff);
            }
            proof {
                assert forall|j: int|
                    0 <= j < i + 1 implies member_final(
                    *old(self),
                    self.tiles@,
                    x as int,
                    y as int,
                    #[trigger] cseq[j] as int,
                    share,
                ) by {
                    assert(old(self).connects(x as int, y as int, cseq[j] as int));
                    let (xj, yj) = side_coords(x as int, y as int, cseq[j] as int);
                    crate::dim::lemma_coords_round_trip(old(self).dim, xj, yj);
                    if j < i {
                        assert(cseq[j] != cseq[i as int]);
                        assert(side_offset_of(old(self).dim, x as int, y as int, cseq[j] as int)
                            != noff as int);
                    } else {
                        assert(noff as int == side_offset_of(
                            old(self).dim,
                            x as int,
                            y as int,
                            cseq[j] as int,
                        ));
                    }
                }
                assert forall|j: int|
                    i + 1 <= j < cseq.len() implies self.tiles@[side_offset_of(
                    old(self).dim,
                    x as int,
                    y as int,
                    #[trigger] cseq[j] as int,
                )] == old(self).tiles@[side_offset_of(
                    old(self).dim,
                    x as int,
                    y as int,
                    cseq[j] as int,
                )] by {
                    assert(old(self).connects(x as int, y as int, cseq[j] as int));
                    let (xj, yj) = side_coords(x as int, y as int, cseq[j] as int);
                    crate::dim::lemma_coords_round_trip(old(self).dim, xj, yj);
                    assert(cseq[j] != cseq[i as int]);
                    assert(side_offset_of(old(self).dim, x as int, y as int, cseq[j] as int)
                        != noff as int);
                }
            }
            i += 1;
        }
        proof {
            assert forall|s: int|
                0 <= s < 4 && #[trigger] connects_at(
                old(self).dim,
                old(self).tiles@,
                x as int,
                y as int,
                s,
            ) implies member_final_at(
                old(self).dim,
                old(self).tiles@,
                self.tiles@,
                x as int,
                y as int,
                s,
                share,
            ) by {
                assert(old(self).connects(x as int, y as int, s));
                let j = choose|j: int| 0 <= j < cseq.len() && cseq[j] == s;
                assert(member_final(
                    *old(self),
                    self.tiles@,
                    x as int,
                    y as int,
                    cseq[j] as int,
                    share,
                ));
            }
            assert forall|o: int|
                0 <= o < self.tiles@.len() && o != tile_offset && !is_conn_neighbor_at(
                old(self).dim,
                old(self).tiles@,
                x as int,
                y as int,
                o,
            ) implies (#[trigger] self.tiles@[o]) == old(self).tiles@[o] by {
                assert(!old(self).is_conn_neighbor(x as int, y as int, o));
            }
            assert(propagated(*old(self), self.tiles@, x as int, y as int));
            assert forall|k: int| 0 <= k < self.tiles@.len() implies tile_inv(
                #[trigger] self.tiles@[k],
            ) by {
                assert(self.tiles@[k].signals == old(self).tiles@[k].signals);
                assert(tile_inv(old(self).tiles@[k]));
            }
            assert forall|k: int|
                0 <= k < self.next_flagged_tiles@.len() implies (
            #[trigger] self.next_flagged_tiles@[k]) < self.tiles@.len() by {
                if k < old(self).next_flagged_tiles@.len() {
                    assert(self.next_flagged_tiles@[k] == old(self).next_flagged_tiles@[k]);
                }
            }
        }
        Ok(())
    }

    /// One full simulation step, the three phases in order: the decay
    /// shift over every tile, propagation over the current worklist (the
    /// members discovered during it become the next tick's worklist), and
    /// stochastic replenishment of a fixed percentage of all tiles. Only
    /// the later phases touch pending deposits, so every tile's ring state
    /// afterwards is exactly the decay shift of its previous state.
    #[verifier::loop_isolation(false)]
    pub fn tick(&mut self, now: Tick, rng: &mut Sampler)
        requires
            old(self).wf(),
        ensures
            final(self).wf(),
            final(self).dim == old(self).dim,
            final(self).cursor == old(self).cursor,
            final(self).tiles@.len() == old(self).tiles@.len(),
            final(self).next_flagged_tiles@.len() == 0,
            forall|i: int|
                0 <= i < final(self).tiles@.len() ==> (#[trigger] final(self).tiles@[i]).ty == old(
                    self,
                ).tiles@[i].ty && final(self).tiles@[i].signals@ == old(
                    self,
                ).tiles@[i].signals@.update(active_slot(now), old(self).tiles@[i].next_signal)
                    && final(self).tiles@[i].signal_sum.0 == wrap16(
                    old(self).tiles@[i].signal_sum.0 - old(self).tiles@[i].signals[active_slot(
                        now,
                    )].0 + old(self).tiles@[i].next_signal.0,
                ),
            // the three phases in order: the final tile array is the decay
            // shift, then propagation over the old worklist, then the
            // credits of some replenishment draw of the fixed sample size
            exists|after_b: Seq<Tile>, sample: Seq<usize>|
                #![trigger replenished(after_b, sample)]
                worklist_stepped(
                    old(self).dim,
                    shifted_tiles(old(self).tiles@, active_slot(now)),
                    old(self).flagged_tiles@,
                    after_b,
                ) && valid_sample(
                    sample,
                    old(self).tiles@.len() as int,
                    old(self).tiles@.len() as int * RANDOM_TICK_PERCENTAGE as int / 100,
                ) && final(self).tiles@ == replenished(after_b, sample),
            // the worklist for the next tick holds only offsets discovered
            // during this tick's propagation: connection-set members of
            // offsets examined from the old worklist
            forall|j: int|
                0 <= j < final(self).flagged_tiles@.len() ==> discovered_from(
                    old(self).dim,
                    old(self).tiles@,
                    old(self).flagged_tiles@,
                    #[trigger] final(self).flagged_tiles@[j] as int,
                ),
    {
        self.pre_tick(now);
        let ghost slot = active_slot(now);
        let ghost shifted = self.tiles@;
        proof {
            vstd::arithmetic::div_mod::lemma_mod_division_less_than_divisor(
                now.0 as int / SIGNAL_BACKLOG_UNIT as int,
                SIGNAL_BACKLOG_LENGTH as int,
            );
            assert forall|i: int| 0 <= i < shifted.len() implies shifted[i] == crate::tile::shifted_tile(
                old(self).tiles@[i],
                slot,
            ) by {
                crate::tile::lemma_tile_shifted_fn(old(self).tiles@[i], shifted[i], slot);
            }
            assert(shifted =~= shifted_tiles(old(self).tiles@, slot));
        }
        self.next_flagged_tiles.clear();
        let n = self.flagged_tiles.len();
        let mut i: usize = 0;
        while i < n
            invariant
                i <= n,
                self.wf(),
                self.dim == old(self).dim,
                self.cursor == old(self).cursor,
                n == self.flagged_tiles@.len(),
                self.flagged_tiles@ == old(self).flagged_tiles@,
                self.tiles@.len() == shifted.len(),
                forall|k: int|
                    0 <= k < self.tiles@.len() ==> (#[trigger] self.tiles@[k]).ty == shifted[k].ty
                        && self.tiles@[k].signals == shifted[k].signals
                        && self.tiles@[k].signal_sum == shifted[k].signal_sum,
                worklist_stepped(
                    old(self).dim,
                    shifted,
                    old(self).flagged_tiles@.take(i as int),
                    self.tiles@,
                ),
                forall|j: int|
                    0 <= j < self.next_flagged_tiles@.len() ==> discovered_from(
                        old(self).dim,
                        old(self).tiles@,
                        old(self).flagged_tiles@.take(i as int),
                        #[trigger] self.next_flagged_tiles@[j] as int,
                    ),
            decreases n - i,
        {
            let off = self.flagged_tiles[i];
            let ghost pre_call = self.tiles@;
            let ghost pre_next = self.next_flagged_tiles@;
            let _ = self.flagged_tick(off, rng);
            proof {
                assert(flag_step(old(self).dim, pre_call, off as int, self.tiles@));
                lemma_stepped_push(
                    old(self).dim,
                    shifted,
                    old(self).flagged_tiles@.take(i as int),
                    off,
                    pre_call,
                    self.tiles@,
                );
                assert(old(self).flagged_tiles@.take(i as int).push(off) =~= old(
                    self,
                ).flagged_tiles@.take(i as int + 1));
                assert forall|j: int| 0 <= j < self.next_flagged_tiles@.len() implies discovered_from(
                    old(self).dim,
                    old(self).tiles@,
                    old(self).flagged_tiles@.take(i as int + 1),
                    #[trigger] self.next_flagged_tiles@[j] as int,
                ) by {
                    let taken = old(self).flagged_tiles@.take(i as int + 1);
                    if j < pre_next.len() {
                        assert(self.next_flagged_tiles@[j] == pre_next[j]);
                        assert(discovered_from(
                            old(self).dim,
                            old(self).tiles@,
                            old(self).flagged_tiles@.take(i as int),
                            pre_next[j] as int,
                        ));
                        let k0 = choose|k: int|
                            0 <= k < i && is_conn_neighbor_at(
                                old(self).dim,
                                old(self).tiles@,
                                old(self).dim.x_of(old(self).flagged_tiles@.take(i as int)[k] as int),
                                old(self).dim.y_of(old(self).flagged_tiles@.take(i as int)[k] as int),
                                pre_next[j] as int,
                            );
                        assert(taken[k0] == old(self).flagged_tiles@.take(i as int)[k0]);
                    } else {
                        let o = self.next_flagged_tiles@[j] as int;
                        let x = old(self).dim.x_of(off as int);
                        let y = old(self).dim.y_of(off as int);
                        assert(is_conn_neighbor_at(old(self).dim, pre_call, x, y, o));
                        lemma_conn_neighbor_same_types(
                            old(self).dim,
                            pre_call,
                            old(self).tiles@,
                            x,
                            y,
                            o,
                        );
                        assert(taken[i as int] == off);
                        assert(0 <= i < taken.len() && is_conn_neighbor_at(
                            old(self).dim,
                            old(self).tiles@,
                            old(self).dim.x_of(taken[i as int] as int),
                            old(self).dim.y_of(taken[i as int] as int),
                            o,
                        ));
                    }
                }
            }
            i += 1;
        }
        proof {
            assert(old(self).flagged_tiles@.take(n as int) =~= old(self).flagged_tiles@);
        }
        let ghost discovered_members = self.next_flagged_tiles@;
        let mut discovered: Vec<usize> = Vec::new();
        core::mem::swap(&mut discovered, &mut self.next_flagged_tiles);
        self.flagged_tiles = discovered;
        let ghost after_b = self.tiles@;
        let len = self.tiles.len();
        proof {
            assert(len * RANDOM_TICK_PERCENTAGE <= len * 100) by (nonlinear_arith);
            vstd::arithmetic::div_mod::lemma_div_is_ordered(
                len as int * RANDOM_TICK_PERCENTAGE as int,
                len as int * 100,
                100,
            );
            vstd::arithmetic::div_mod::lemma_div_multiples_vanish(len as int, 100);
            assert(len as int * 100 == 100 * len as int);
        }
        let amount = len * RANDOM_TICK_PERCENTAGE / 100;
        let sampled = rng.sample_indices(len, amount);
        let mut k: usize = 0;
        while k < sampled.len()
            invariant
                k <= sampled@.len(),
                self.wf(),
                self.dim == old(self).dim,
                self.cursor == old(self).cursor,
                self.flagged_tiles@ == discovered_members,
                self.next_flagged_tiles@.len() == 0,
                self.tiles@.len() == shifted.len(),
                self.tiles@ == replenished(after_b, sampled@.take(k as int)),
                forall|j: int|
                    0 <= j < self.tiles@.len() ==> (#[trigger] self.tiles@[j]).ty == shifted[j].ty
                        && self.tiles@[j].signals == shifted[j].signals
                        && self.tiles@[j].signal_sum == shifted[j].signal_sum,
            decreases sampled@.len() - k,
        {
            let off = sampled[k];
            let ghost pre_c = self.tiles@;
            let _ = self.random_tick(off);
            proof {
                assert(self.tiles@ == credited_tiles(pre_c, off as int));
                lemma_replenished_push(after_b, sampled@.take(k as int), off);
                assert(sampled@.take(k as int).push(off) =~= sampled@.take(k as int + 1));
            }
            k += 1;
        }
        proof {
            assert forall|j: int| 0 <= j < self.flagged_tiles@.len() implies discovered_from(
                old(self).dim,
                old(self).tiles@,
                old(self).flagged_tiles@,
                #[trigger] self.flagged_tiles@[j] as int,
            ) by {
                assert(self.flagged_tiles@[j] == discovered_members[j]);
                assert(discovered_from(
                    old(self).dim,
                    old(self).tiles@,
                    old(self).flagged_tiles@.take(old(self).flagged_tiles@.len() as int),
                    discovered_members[j] as int,
                ));
            }
            assert(sampled@.take(sampled@.len() as int) =~= sampled@);
            assert(worklist_stepped(
                old(self).dim,
                shifted_tiles(old(self).tiles@, active_slot(now)),
                old(self).flagged_tiles@,
                after_b,
            ) && valid_sample(
                sampled@,
                old(self).tiles@.len() as int,
                old(self).tiles@.len() as int * RANDOM_TICK_PERCENTAGE as int / 100,
            ) && self.tiles@ == replenished(after_b, sampled@));
        }
    }
}

/// Conservation law: when an emitter's connection set is exactly one
/// non-absorbing neighbor, propagation moves the emitter's whole rolling
/// sum (mod 2^16): the emitter's pending deposit drops by it and the
/// neighbor's gains it — the integer split loses nothing.
pub proof fn lemma_single_neighbor_conservation(
    pre: World,
    post: Seq<Tile>,
    x: int,
    y: int,
    side: int,
)
    requires
        pre.dim.in_bounds(x, y),
        pre.conn_seq(x, y).len() == 1,
        0 <= side < 4,
        pre.connects(x, y, side),
        !pre.tiles@[side_offset_of(pre.dim, x, y, side)].ty.absorbs_spec(),
        propagated(pre, post, x, y),
    ensures
        post[pre.dim.offset_of(x, y)].next_signal.0 == wrap16(
            pre.tiles@[pre.dim.offset_of(x, y)].next_signal.0 - pre.tiles@[pre.dim.offset_of(
                x,
                y,
            )].signal_sum.0,
        ),
        post[side_offset_of(pre.dim, x, y, side)].next_signal.0 == wrap16(
            pre.tiles@[side_offset_of(pre.dim, x, y, side)].next_signal.0
                + pre.tiles@[pre.dim.offset_of(x, y)].signal_sum.0,
        ),
{
    let sum = pre.tiles@[pre.dim.offset_of(x, y)].signal_sum.0 as int;
    assert(sum / 1int == sum);
    assert(member_final(pre, post, x, y, side, sum));
}

/// Lossy split law: splitting a rolling sum over `cnt` connection-set
/// members routes each the integer quotient, as [`propagated`] states; the
/// shares never exceed what was paid out, and what the split drops is less
/// than one unit per member.
pub proof fn lemma_split_remainder(sum: int, cnt: int)
    requires
        0 <= sum,
        0 < cnt,
    ensures
        cnt * (sum / cnt) <= sum,
        sum - cnt * (sum / cnt) < cnt,
{
    vstd::arithmetic::div_mod::lemma_fundamental_div_mod(sum, cnt);
    vstd::arithmetic::div_mod::lemma_mod_division_less_than_divisor(sum, cnt);
}

/// Absorption sink law: an absorbing member of the connection set is left
/// exactly as it was by propagation, whatever share was routed to it — a
/// sink never accumulates signal.
pub proof fn lemma_absorbing_sink(pre: World, post: Seq<Tile>, x: int, y: int, side: int)
    requires
        pre.dim.in_bounds(x, y),
        0 <= side < 4,
        pre.connects(x, y, side),
        pre.tiles@[side_offset_of(pre.dim, x, y, side)].ty.absorbs_spec(),
        propagated(pre, post, x, y),
    ensures
        post[side_offset_of(pre.dim, x, y, side)] == pre.tiles@[side_offset_of(pre.dim, x, y, side)],
{
    assert(member_final(
        pre,
        post,
        x,
        y,
        side,
        pre.tiles@[pre.dim.offset_of(x, y)].signal_sum.0 as int / pre.conn_seq(x, y).len() as int,
    ));
}

/// The in-bounds neighbor coordinates on `side` of `(x, y)`, if any.
fn side_neighbor(dim: &Dim, x: usize, y: usize, side: usize) -> (r: Option<(usize, usize)>)
    requires
        side < 4,
        dim.in_bounds(x as int, y as int),
    ensures
        match r {
            Some(p) => dim.in_bounds(p.0 as int, p.1 as int) && p.0 as int == side_coords(
                x as int,
                y as int,
                side as int,
            ).0 && p.1 as int == side_coords(x as int, y as int, side as int).1,
            None => !dim.in_bounds(
                side_coords(x as int, y as int, side as int).0,
                side_coords(x as int, y as int, side as int).1,
            ),
        },
{
    if side == 0 {
        if x + 1 < dim.width {
            Some((x + 1, y))
        } else {
            None
        }
    } else if side == 1 {
        if x >= 1 {
            Some((x - 1, y))
        } else {
            None
        }
    } else if side == 2 {
        if y + 1 < dim.height {
            Some((x, y + 1))
        } else {
            None
        }
    } else {
        if y >= 1 {
            Some((x, y - 1))
        } else {
            None
        }
    }
}

} // verus!
