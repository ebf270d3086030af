//! Per-position state: the static tile classification with its capability
//! table, and the mutable signal record each grid position carries.

use crate::wrap::wrap16;
use vstd::arithmetic::div_mod::lemma_add_mod_noop_right;
use vstd::prelude::*;

verus! {

/// Number of slots in each tile's ring buffer of recent signal deposits.
pub const SIGNAL_BACKLOG_LENGTH: usize = 4;

/// Number of ticks each ring slot stays live before the ring rotates on.
pub const SIGNAL_BACKLOG_UNIT: u32 = 8;

/// A simulation time step index, monotonically increased by the driver.
#[derive(Debug, Clone, Copy, PartialEq, Eq, Structural)]
pub struct Tick(pub u32);

/// A signal magnitude. All bookkeeping on it wraps modulo 2^16 (see
/// [`crate::wrap`]).
#[derive(Debug, Clone, Copy, PartialEq, Eq, Structural)]
pub struct Signal(pub u16);

/// The static classification of a tile, with its capabilities:
/// `Air` neither accepts, emits nor absorbs signal; `Bedrock` accepts and
/// silently absorbs it (a sink); `Brick` accepts, emits, and is the only
/// source type, contributing signal on replenishment.
#[derive(Debug, Clone, Copy, PartialEq, Eq, Structural)]
pub enum TileType {
    Air,
    Bedrock,
    Brick,
}

impl TileType {
    /// The glyph a renderer shows for this tile type.
    pub open spec fn rendered_spec(self) -> char {
        match self {
            TileType::Air => ' ',
            TileType::Bedrock => '=',
            TileType::Brick => 'o',
        }
    }

    /// The glyph a renderer shows for this tile type.
    #[verifier::when_used_as_spec(rendered_spec)]
    pub fn rendered(self) -> (r: char)
        ensures
            r == self.rendered_spec(),
    {
        match self {
            TileType::Air => ' ',
            TileType::Bedrock => '=',
            TileType::Brick => 'o',
        }
    }

    /// Signal units this type contributes to its pending deposit each time
    /// the replenishment phase samples it; zero for non-source types.
    pub open spec fn weight_spec(self) -> Signal {
        match self {
            TileType::Air => Signal(0),
            TileType::Bedrock => Signal(0),
            TileType::Brick => Signal(100),
        }
    }

    /// Signal units contributed per replenishment (zero for non-sources).
    #[verifier::when_used_as_spec(weight_spec)]
    pub fn weight(self) -> (r: Signal)
        ensures
            r == self.weight_spec(),
    {
        match self {
            TileType::Air => Signal(0),
            TileType::Bedrock => Signal(0),
            TileType::Brick => Signal(100),
        }
    }

    /// Whether this type can receive deposited signal.
    pub open spec fn accepts_spec(self) -> bool {
        self is Bedrock || self is Brick
    }

    /// Whether this type can receive deposited signal.
    #[verifier::when_used_as_spec(accepts_spec)]
    pub fn accepts(self) -> (r: bool)
        ensures
            r == self.accepts_spec(),
    {
        matches!(self, TileType::Bedrock | TileType::Brick)
    }

    /// Whether this type pushes its rolling sum to neighbors when active.
    pub open spec fn emits_spec(self) -> bool {
        self is Brick
    }

    /// Whether this type pushes its rolling sum to neighbors when active.
    #[verifier::when_used_as_spec(emits_spec)]
    pub fn emits(self) -> (r: bool)
        ensures
            r == self.emits_spec(),
    {
        matches!(self, TileType::Brick)
    }

    /// Whether this type destroys signal routed to it instead of storing it.
    pub open spec fn absorbs_spec(self) -> bool {
        self is Bedrock
    }

    /// Whether this type destroys signal routed to it instead of storing it.
    #[verifier::when_used_as_spec(absorbs_spec)]
    pub fn absorbs(self) -> (r: bool)
        ensures
            r == self.absorbs_spec(),
    {
        matches!(self, TileType::Bedrock)
    }
}

/// Mutable per-position record: the tile's type, its ring buffer of recent
/// deposits, the running sum over the ring, and the pending deposit that the
/// next decay shift will write into the active slot. The pending deposit is
/// deliberately never cleared: it keeps feeding the ring until overwritten.
#[verifier::ext_equal]
#[derive(Debug, Clone, Copy)]
pub struct Tile {
    pub ty: TileType,
    pub signals: [Signal; SIGNAL_BACKLOG_LENGTH],
    pub signal_sum: Signal,
    pub next_signal: Signal,
}

/// The exact (unwrapped) sum of the four ring slots.
pub open spec fn backlog_total(signals: [Signal; SIGNAL_BACKLOG_LENGTH]) -> int {
    signals[0].0 + signals[1].0 + signals[2].0 + signals[3].0
}

/// Ring invariant: the running sum always equals the sum of the ring slots,
/// modulo 2^16.
pub open spec fn tile_inv(t: Tile) -> bool {
    t.signal_sum.0 == wrap16(backlog_total(t.signals))
}

/// The ring slot that tick `now` rotates: slot `(now / U) mod W`, where `U`
/// is the per-slot lifetime in ticks and `W` the ring length.
pub open spec fn active_slot(now: Tick) -> int {
    (now.0 as int / SIGNAL_BACKLOG_UNIT as int) % SIGNAL_BACKLOG_LENGTH as int
}

/// How one decay shift at slot `s` transforms a tile: the running sum drops
/// the slot's old value and gains the pending deposit, which is then written
/// into the slot; the pending deposit itself stays as it was.
pub open spec fn tile_shifted(pre: Tile, post: Tile, s: int) -> bool {
    &&& post.ty == pre.ty
    &&& post.next_signal == pre.next_signal
    &&& post.signals@ == pre.signals@.update(s, pre.next_signal)
    &&& post.signal_sum.0 == wrap16(pre.signal_sum.0 - pre.signals[s].0 + pre.next_signal.0)
}

/// The decay shift of one tile at ring slot `s`, as a function: the value
/// that [`tile_shifted`] pins.
pub open spec fn shifted_tile(t: Tile, s: int) -> Tile {
    Tile {
        signals: vstd::array::spec_array_update(t.signals, s, t.next_signal),
        signal_sum: Signal(wrap16(t.signal_sum.0 - t.signals[s].0 + t.next_signal.0) as u16),
        ..t
    }
}

/// The decay shift over a whole tile array.
pub open spec fn shifted_tiles(pre: Seq<Tile>, s: int) -> Seq<Tile> {
    Seq::new(pre.len(), |i: int| shifted_tile(pre[i], s))
}

/// [`tile_shifted`] determines the tile: it pins exactly [`shifted_tile`].
pub proof fn lemma_tile_shifted_fn(pre: Tile, post: Tile, s: int)
    requires
        0 <= s < SIGNAL_BACKLOG_LENGTH,
        tile_shifted(pre, post, s),
    ensures
        post == shifted_tile(pre, s),
{
    broadcast use vstd::array::group_array_axioms;

    let f = shifted_tile(pre, s);
    assert(post.signals@ == f.signals@);
    assert(post.signals == f.signals);
    assert(post =~= f);
}

/// The decay shift preserves the ring invariant.
pub proof fn lemma_shift_preserves_inv(pre: Tile, post: Tile, s: int)
    requires
        0 <= s < SIGNAL_BACKLOG_LENGTH,
        tile_inv(pre),
        tile_shifted(pre, post, s),
    ensures
        tile_inv(post),
{
    let total = backlog_total(pre.signals);
    let x = pre.signals[s].0 as int;
    let c = pre.next_signal.0 as int;
    assert(backlog_total(post.signals) == total - x + c);
    lemma_add_mod_noop_right(c - x, total, 0x10000);
}

impl Default for Tile {
    /// A fresh tile: plain air with no recorded signal anywhere.
    fn default() -> (t: Tile)
        ensures
            t.ty == TileType::Air,
            t.signal_sum.0 == 0,
            t.next_signal.0 == 0,
            forall|i: int| 0 <= i < SIGNAL_BACKLOG_LENGTH ==> t.signals[i].0 == 0,
            tile_inv(t),
    {
        Tile {
            ty: TileType::Air,
            signals: [Signal(0), Signal(0), Signal(0), Signal(0)],
            signal_sum: Signal(0),
            next_signal: Signal(0),
        }
    }
}

} // verus!
