use mcts::hex_coord::HexCoord;

#[test]
fn neighbor_offsets() {
    let c = HexCoord::new(2, -1);
    assert_eq!(c.neighbor(0), HexCoord::new(3, -1));
    assert_eq!(c.neighbor(1), HexCoord::new(3, -2));
    assert_eq!(c.neighbor(2), HexCoord::new(2, -2));
    assert_eq!(c.neighbor(3), HexCoord::new(1, -1));
    assert_eq!(c.neighbor(4), HexCoord::new(1, 0));
    assert_eq!(c.neighbor(5), HexCoord::new(2, 0));
}

#[test]
fn neighbor_direction_wraps_past_six() {
    let c = HexCoord::new(0, 0);
    assert_eq!(c.neighbor(6), c.neighbor(0));
    assert_eq!(c.neighbor(13), c.neighbor(1));
}

#[test]
fn neighbors_lists_all_six() {
    let c = HexCoord::new(-4, 7);
    let all = c.neighbors();
    for n in 0..6 {
        assert_eq!(all[n], c.neighbor(n));
    }
}
