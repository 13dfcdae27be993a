use chomp3d::Board;
use chomp3d::moves::{legal_moves, removal_mask};

#[test]
fn mask_on_tiny_board() {
    let b = Board::new(1, 1, 2).unwrap();
    assert_eq!(removal_mask(&b, (0, 0, 1)), 0b10);
    assert_eq!(removal_mask(&b, (0, 0, 0)), 0b11);
}

#[test]
fn mask_on_flat_board() {
    let b = Board::new(2, 2, 1).unwrap();
    assert_eq!(removal_mask(&b, (1, 1, 0)), 0b1000);
    assert_eq!(removal_mask(&b, (1, 0, 0)), 0b1010);
    assert_eq!(removal_mask(&b, (0, 1, 0)), 0b1100);
    assert_eq!(removal_mask(&b, (0, 0, 0)), 0b1111);
}

#[test]
fn moves_of_tiny_board() {
    let b = Board::new(1, 1, 2).unwrap();
    assert_eq!(legal_moves(&b, 0b11), vec![((0, 0, 1), 0b01)]);
}

#[test]
fn no_moves_from_terminal_state() {
    let b = Board::new(2, 3, 19).unwrap();
    assert_eq!(legal_moves(&b, 1), vec![]);
}

#[test]
fn no_moves_from_empty_state() {
    let b = Board::new(2, 2, 1).unwrap();
    assert_eq!(legal_moves(&b, 0), vec![]);
}

#[test]
fn moves_of_flat_board_in_index_order() {
    let b = Board::new(2, 2, 1).unwrap();
    let ms = legal_moves(&b, 0b1111);
    assert_eq!(
        ms,
        vec![((1, 0, 0), 0b0101), ((0, 1, 0), 0b0011), ((1, 1, 0), 0b0111)]
    );
}

#[test]
fn every_present_non_poison_block_is_one_move() {
    let b = Board::new(2, 2, 1).unwrap();
    let state: u128 = 0b1011;
    let ms = legal_moves(&b, state);
    assert_eq!(ms.len(), 2);
    assert_eq!(ms[0].0, (1, 0, 0));
    assert_eq!(ms[1].0, (1, 1, 0));
    for (c, child) in ms {
        assert_ne!(c, (0, 0, 0));
        assert_eq!(child & 1, 1);
        assert_eq!(child & !state, 0);
        assert_ne!(child, state);
    }
}
