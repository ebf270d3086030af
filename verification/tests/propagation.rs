use signal_grid::dim::{Dim, WorldError};
use signal_grid::sampler::Sampler;
use signal_grid::tile::{Signal, Tick, Tile, TileType};
use signal_grid::world::World;

fn make_tile(ty: TileType, signals: [u16; 4], sum: u16, next: u16) -> Tile {
    Tile {
        ty,
        signals: [
            Signal(signals[0]),
            Signal(signals[1]),
            Signal(signals[2]),
            Signal(signals[3]),
        ],
        signal_sum: Signal(sum),
        next_signal: Signal(next),
    }
}

fn make_world(width: usize, height: usize, tiles: Vec<Tile>) -> World {
    assert_eq!(tiles.len(), width * height);
    World {
        dim: Dim { width, height },
        tiles,
        flagged_tiles: Vec::new(),
        next_flagged_tiles: Vec::new(),
        cursor: (0, 0),
    }
}

#[test]
fn conservation_single_neighbor() {
    // One emitter, exactly one accepting non-absorbing neighbor: the whole
    // rolling sum moves, nothing is lost to the split.
    let mut w = World::new(2, 1);
    w.set_tile_type(0, 0, TileType::Brick).unwrap();
    w.set_tile_type(1, 0, TileType::Brick).unwrap();
    w.random_tick(0).unwrap(); // pending(0) = 100
    w.pre_tick(Tick(0)); // sum(0) = 100
    assert_eq!(w.tiles[0].signal_sum.0, 100);
    let mut rng = Sampler::seeded(7);
    w.flagged_tick(0, &mut rng).unwrap();
    assert_eq!(w.tiles[0].next_signal.0, 0); // decreased by exactly 100
    assert_eq!(w.tiles[1].next_signal.0, 100); // increased by exactly 100
    assert_eq!(w.tiles[0].signal_sum.0, 100); // ring state untouched
}

#[test]
fn lossy_split_three_neighbors() {
    // Emitter with rolling sum 10 and three accepting, non-absorbing
    // neighbors: each gains 10 / 3 = 3, one unit is dropped.
    let mut tiles = vec![Tile::default(); 9];
    let center = 1 + 1 * 3;
    tiles[center] = make_tile(TileType::Brick, [10, 0, 0, 0], 10, 10);
    tiles[1 + 0 * 3] = make_tile(TileType::Brick, [0; 4], 0, 0); // south
    tiles[2 + 1 * 3] = make_tile(TileType::Brick, [0; 4], 0, 0); // east
    tiles[1 + 2 * 3] = make_tile(TileType::Brick, [0; 4], 0, 0); // north
    let mut w = make_world(3, 3, tiles);
    let mut rng = Sampler::seeded(11);
    w.flagged_tick(center, &mut rng).unwrap();
    assert_eq!(w.tiles[center].next_signal.0, 0); // paid the full 10
    assert_eq!(w.tiles[1].next_signal.0, 3);
    assert_eq!(w.tiles[5].next_signal.0, 3);
    assert_eq!(w.tiles[7].next_signal.0, 3);
    // 10 paid out, 9 delivered: 1 unit lost, present nowhere.
    let delivered: u16 = w.tiles.iter().map(|t| t.next_signal.0).sum();
    assert_eq!(delivered, 9);
}

#[test]
fn absorbing_neighbor_keeps_nothing() {
    // An absorbing member of the connection set still counts for the split
    // but its share is discarded and its pending deposit never moves.
    let mut tiles = vec![Tile::default(); 9];
    let center = 4;
    tiles[center] = make_tile(TileType::Brick, [10, 0, 0, 0], 10, 10);
    tiles[5] = make_tile(TileType::Brick, [0; 4], 0, 0); // east, accepts
    tiles[1] = make_tile(TileType::Bedrock, [0; 4], 0, 0); // south, sink
    let mut w = make_world(3, 3, tiles);
    let mut rng = Sampler::seeded(13);
    w.flagged_tick(center, &mut rng).unwrap();
    assert_eq!(w.tiles[center].next_signal.0, 0); // paid the full 10
    assert_eq!(w.tiles[5].next_signal.0, 5); // 10 / 2
    assert_eq!(w.tiles[1].next_signal.0, 0); // the sink kept nothing
    assert_eq!(w.tiles[1].signal_sum.0, 0);
}

#[test]
fn payout_wraps_below_zero() {
    // An emitter whose pending deposit is smaller than its rolling sum
    // wraps modulo 2^16 when it pays out.
    let mut tiles = vec![Tile::default(); 2];
    tiles[0] = make_tile(TileType::Brick, [100, 0, 0, 0], 100, 0);
    tiles[1] = make_tile(TileType::Brick, [0; 4], 0, 0);
    let mut w = make_world(2, 1, tiles);
    let mut rng = Sampler::seeded(17);
    w.flagged_tick(0, &mut rng).unwrap();
    assert_eq!(w.tiles[0].next_signal.0, 0u16.wrapping_sub(100));
    assert_eq!(w.tiles[1].next_signal.0, 100);
}

#[test]
fn degenerate_neighborhood_is_inert() {
    // An emitter with no in-bounds accepting neighbor reports the
    // condition and changes nothing that tick.
    let mut tiles = vec![make_tile(TileType::Brick, [10, 0, 0, 0], 10, 10)];
    let mut w = make_world(1, 1, tiles.drain(..).collect());
    let mut rng = Sampler::seeded(19);
    assert_eq!(
        w.flagged_tick(0, &mut rng),
        Err(WorldError::DegenerateNeighborhood)
    );
    assert_eq!(w.tiles[0].next_signal.0, 10);
    assert_eq!(w.tiles[0].signal_sum.0, 10);
    assert!(w.next_flagged_tiles.is_empty());
}

#[test]
fn non_emitter_is_skipped() {
    let mut w = World::new(2, 2);
    w.set_tile_type(0, 0, TileType::Bedrock).unwrap();
    let mut rng = Sampler::seeded(23);
    assert_eq!(w.flagged_tick(0, &mut rng), Ok(()));
    for t in &w.tiles {
        assert_eq!(t.next_signal.0, 0);
    }
}

#[test]
fn out_of_range_worklist_entry_fails() {
    let mut w = World::new(2, 2);
    let mut rng = Sampler::seeded(29);
    assert_eq!(w.flagged_tick(4, &mut rng), Err(WorldError::OutOfRange));
    assert_eq!(w.random_tick(4), Err(WorldError::OutOfRange));
}

#[test]
fn newly_flagged_are_connection_members() {
    // Whatever the draws, every offset added to the next worklist is one
    // of the emitter's connection-set members.
    let mut tiles = vec![Tile::default(); 9];
    tiles[4] = make_tile(TileType::Brick, [8, 0, 0, 0], 8, 8);
    tiles[3] = make_tile(TileType::Brick, [0; 4], 0, 0); // west
    tiles[5] = make_tile(TileType::Bedrock, [0; 4], 0, 0); // east
    let mut w = make_world(3, 3, tiles);
    let mut rng = Sampler::seeded(31);
    w.flagged_tick(4, &mut rng).unwrap();
    assert!(w.next_flagged_tiles.len() <= 2);
    for &off in &w.next_flagged_tiles {
        assert!(off == 3 || off == 5);
    }
}

#[test]
fn end_to_end_source_to_sink() {
    // A 3x1 strip: a source, a passing emitter, a sink. Replenish the
    // source, shift, propagate, shift, propagate: exact values throughout.
    let mut w = World::new(3, 1);
    w.set_tile_type(0, 0, TileType::Brick).unwrap();
    w.set_tile_type(1, 0, TileType::Brick).unwrap();
    w.set_tile_type(2, 0, TileType::Bedrock).unwrap();
    let mut rng = Sampler::seeded(37);

    w.random_tick(0).unwrap(); // replenishment hits the source
    assert_eq!(w.tiles[0].next_signal.0, 100);

    w.pre_tick(Tick(0)); // slot 0 takes the deposit
    assert_eq!(w.tiles[0].signal_sum.0, 100);
    assert_eq!(w.tiles[0].signals[0].0, 100);

    w.flagged_tick(0, &mut rng).unwrap(); // sole neighbor: the middle tile
    assert_eq!(w.tiles[0].next_signal.0, 0);
    assert_eq!(w.tiles[1].next_signal.0, 100);
    for &off in &w.next_flagged_tiles {
        assert_eq!(off, 1);
    }

    w.pre_tick(Tick(8)); // slot 1 takes the middle tile's deposit
    assert_eq!(w.tiles[1].signal_sum.0, 100);
    assert_eq!(w.tiles[0].signal_sum.0, 100); // its own deposit persists

    w.flagged_tick(1, &mut rng).unwrap(); // split between source and sink
    assert_eq!(w.tiles[1].next_signal.0, 0); // paid 100
    assert_eq!(w.tiles[0].next_signal.0, 50); // back-flow share
    assert_eq!(w.tiles[2].next_signal.0, 0); // sink share discarded
    assert_eq!(w.tiles[2].signal_sum.0, 0);
}
