use clue_core::{Board, Direction, GameError};

const ROOM_NAMES: [&str; 9] = [
    "Drawing Room",
    "Backyard",
    "Hallway",
    "Attic",
    "Katie's Room",
    "Harry's Room",
    "Peter's Room",
    "Savanah's Room",
    "Lexi's Room",
];

fn nine_names() -> Vec<String> {
    ROOM_NAMES.iter().map(|n| n.to_string()).collect()
}

fn n_names(n: usize) -> Vec<String> {
    (0..n).map(|i| format!("Room {}", i)).collect()
}

#[test]
fn board_rejects_non_square_count() {
    assert!(matches!(Board::new(n_names(3)), Err(GameError::ConfigurationError)));
    assert!(matches!(Board::new(n_names(0)), Err(GameError::ConfigurationError)));
    assert!(matches!(Board::new(n_names(10)), Err(GameError::ConfigurationError)));
    assert!(matches!(Board::new(n_names(8)), Err(GameError::ConfigurationError)));
}

#[test]
fn board_accepts_square_count() {
    let b = Board::new(n_names(1)).expect("1 is a square");
    assert_eq!(b.side, 1);
    assert_eq!(b.rooms.len(), 1);
    let b = Board::new(n_names(16)).expect("16 is a square");
    assert_eq!(b.side, 4);
    assert_eq!(b.rooms.len(), 16);
}

#[test]
fn board_lays_names_out_row_major() {
    let b = Board::new(nine_names()).expect("9 is a square");
    assert_eq!(b.side, 3);
    for (i, name) in ROOM_NAMES.iter().enumerate() {
        assert_eq!(&b.rooms[i].name, name);
        assert!(b.rooms[i].item_list.is_empty());
        assert!(b.rooms[i].character_list.is_empty());
    }
}

#[test]
fn board_links_form_lattice() {
    let b = Board::new(nine_names()).expect("9 is a square");
    // the center room sees all four neighbors
    assert_eq!(b.rooms[4].north, Some(1));
    assert_eq!(b.rooms[4].south, Some(7));
    assert_eq!(b.rooms[4].east, Some(5));
    assert_eq!(b.rooms[4].west, Some(3));
    // corners have two links and no wraparound
    assert_eq!(b.rooms[0].north, None);
    assert_eq!(b.rooms[0].west, None);
    assert_eq!(b.rooms[0].south, Some(3));
    assert_eq!(b.rooms[0].east, Some(1));
    assert_eq!(b.rooms[8].south, None);
    assert_eq!(b.rooms[8].east, None);
}

#[test]
fn neighbor_links_are_symmetric() {
    let b = Board::new(nine_names()).expect("9 is a square");
    for idx in 0..b.rooms.len() {
        let r = &b.rooms[idx];
        if let Some(k) = r.north {
            assert_eq!(b.rooms[k].south, Some(idx));
        }
        if let Some(k) = r.south {
            assert_eq!(b.rooms[k].north, Some(idx));
        }
        if let Some(k) = r.east {
            assert_eq!(b.rooms[k].west, Some(idx));
        }
        if let Some(k) = r.west {
            assert_eq!(b.rooms[k].east, Some(idx));
        }
    }
}

#[test]
fn shuffled_board_keeps_each_row_of_names() {
    let b = Board::new_shuffled(nine_names()).expect("9 is a square");
    assert_eq!(b.side, 3);
    assert_eq!(b.rooms.len(), 9);
    for row in 0..3 {
        let mut got: Vec<String> =
            (0..3).map(|col| b.rooms[row * 3 + col].name.clone()).collect();
        let mut want: Vec<String> =
            (0..3).map(|col| ROOM_NAMES[row * 3 + col].to_string()).collect();
        got.sort();
        want.sort();
        assert_eq!(got, want);
    }
}

#[test]
fn shuffled_board_rejects_non_square_count() {
    assert!(matches!(Board::new_shuffled(n_names(5)), Err(GameError::ConfigurationError)));
}

#[test]
fn find_room_by_name_is_case_insensitive() {
    let b = Board::new(nine_names()).expect("9 is a square");
    assert_eq!(b.find_room_by_name("attic"), Some(3));
    assert_eq!(b.find_room_by_name("ATTIC"), Some(3));
    assert_eq!(b.find_room_by_name("Cellar"), None);
}

#[test]
fn get_random_room_stays_on_the_board() {
    let b = Board::new(nine_names()).expect("9 is a square");
    for _ in 0..50 {
        assert!(b.get_random_room() < b.rooms.len());
    }
}

#[test]
fn get_direction_parses_tokens() {
    assert_eq!(Direction::get_direction("north"), Direction::North);
    assert_eq!(Direction::get_direction("south"), Direction::South);
    assert_eq!(Direction::get_direction("east"), Direction::East);
    assert_eq!(Direction::get_direction("west"), Direction::West);
    assert_eq!(Direction::get_direction("North"), Direction::Invalid);
    assert_eq!(Direction::get_direction("up"), Direction::Invalid);
    assert_eq!(Direction::get_direction(""), Direction::Invalid);
}

#[test]
fn opposite_swaps_directions() {
    assert_eq!(Direction::North.opposite(), Direction::South);
    assert_eq!(Direction::South.opposite(), Direction::North);
    assert_eq!(Direction::East.opposite(), Direction::West);
    assert_eq!(Direction::West.opposite(), Direction::East);
}

#[test]
fn around_lists_neighbors_with_directions() {
    let b = Board::new(nine_names()).expect("9 is a square");
    let center = &b.rooms[4];
    assert_eq!(
        center.around(&b.rooms),
        " Backyard (North) | Savanah's Room (South) | Harry's Room (East) | Attic (West) |"
    );
    let corner = &b.rooms[0];
    assert_eq!(corner.around(&b.rooms), " Attic (South) | Backyard (East) |");
}
