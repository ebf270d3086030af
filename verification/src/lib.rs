//! A discrete-time simulation of a scalar signal diffusing across a fixed
//! rectangular grid of typed tiles. Emitting tiles push their rolling signal
//! sum to orthogonal neighbors once per tick, sink tiles destroy what is
//! routed to them, and a stochastic replenishment phase recharges source
//! tiles. Each tile keeps a fixed-length ring buffer of recent deposits and
//! an incrementally maintained running sum over it.

pub mod conns;
pub mod dim;
pub mod sampler;
pub mod tile;
pub mod world;
pub mod wrap;
