use signal_grid::dim::{Dim, WorldError};

#[test]
fn offsets_are_row_major() {
    let d = Dim { width: 3, height: 2 };
    assert_eq!(d.xy_offset(0, 0), Ok(0));
    assert_eq!(d.xy_offset(2, 0), Ok(2));
    assert_eq!(d.xy_offset(0, 1), Ok(3));
    assert_eq!(d.xy_offset(2, 1), Ok(5));
}

#[test]
fn out_of_range_coordinates_fail() {
    let d = Dim { width: 3, height: 2 };
    assert_eq!(d.xy_offset(3, 0), Err(WorldError::OutOfRange));
    assert_eq!(d.xy_offset(0, 2), Err(WorldError::OutOfRange));
    assert_eq!(d.xy_offset(3, 2), Err(WorldError::OutOfRange));
    assert_eq!(d.xy_offset(usize::MAX, 0), Err(WorldError::OutOfRange));
    assert_eq!(d.xy_offset(0, usize::MAX), Err(WorldError::OutOfRange));
}

#[test]
fn out_of_range_offsets_fail() {
    let d = Dim { width: 3, height: 2 };
    assert_eq!(d.offset_xy(6), Err(WorldError::OutOfRange));
    assert_eq!(d.offset_xy(usize::MAX), Err(WorldError::OutOfRange));
    let empty = Dim { width: 0, height: 5 };
    assert_eq!(empty.offset_xy(0), Err(WorldError::OutOfRange));
}

#[test]
fn round_trip_every_valid_coordinate() {
    let d = Dim { width: 7, height: 4 };
    for x in 0..7 {
        for y in 0..4 {
            let off = d.xy_offset(x, y).unwrap();
            assert!(off < 28);
            assert_eq!(d.offset_xy(off), Ok((x, y)));
        }
    }
    for off in 0..28 {
        let (x, y) = d.offset_xy(off).unwrap();
        assert_eq!(d.xy_offset(x, y), Ok(off));
    }
}
