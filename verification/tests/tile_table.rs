use signal_grid::tile::{Tile, TileType};

#[test]
fn capability_table() {
    assert!(!TileType::Air.accepts());
    assert!(!TileType::Air.emits());
    assert!(!TileType::Air.absorbs());

    assert!(TileType::Bedrock.accepts());
    assert!(!TileType::Bedrock.emits());
    assert!(TileType::Bedrock.absorbs());

    assert!(TileType::Brick.accepts());
    assert!(TileType::Brick.emits());
    assert!(!TileType::Brick.absorbs());
}

#[test]
fn source_strengths() {
    assert_eq!(TileType::Air.weight().0, 0);
    assert_eq!(TileType::Bedrock.weight().0, 0);
    assert_eq!(TileType::Brick.weight().0, 100);
}

#[test]
fn rendered_glyphs() {
    assert_eq!(TileType::Air.rendered(), ' ');
    assert_eq!(TileType::Bedrock.rendered(), '=');
    assert_eq!(TileType::Brick.rendered(), 'o');
}

#[test]
fn default_tile_is_silent_air() {
    let t = Tile::default();
    assert!(matches!(t.ty, TileType::Air));
    assert_eq!(t.signal_sum.0, 0);
    assert_eq!(t.next_signal.0, 0);
    for s in t.signals {
        assert_eq!(s.0, 0);
    }
}
