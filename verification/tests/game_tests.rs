use clue_core::{
    Board, Direction, Entity, Game, GameError, GameStatus, Solution, State, MAX_CLUES,
};

const ROOM_NAMES: [&str; 9] = [
    "Drawing Room",
    "Backyard",
    "Hallway",
    "Attic",
    "Katie's Room",
    "Harry's Room",
    "Peter's Room",
    "Savanah's Room",
    "Lexi's Room",
];

const ITEM_NAMES: [&str; 6] = [
    "Rubber Ducky",
    "Hairdryer",
    "Knife",
    "Wine Bottle",
    "Chair",
    "Bedsheet",
];

const NPC_NAMES: [&str; 5] = ["Katie", "Harry", "Peter", "Savanah", "Lexi"];

fn names(v: &[&str]) -> Vec<String> {
    v.iter().map(|s| s.to_string()).collect()
}

fn standard_game(
    start: usize,
    item_rooms: Vec<usize>,
    npc_rooms: Vec<usize>,
    solution: Solution,
) -> Game {
    let board = Board::new(names(&ROOM_NAMES)).expect("9 names");
    Game::setup(
        board,
        names(&ITEM_NAMES),
        names(&NPC_NAMES),
        Entity::new("You".to_string()),
        start,
        item_rooms,
        npc_rooms,
        solution,
    )
}

fn count_owners(g: &Game, name: &str) -> usize {
    let mut count = 0;
    for room in &g.board.rooms {
        if Entity::find_entity_by_name(name, &room.item_list).is_some() {
            count += 1;
        }
        if Entity::find_entity_by_name(name, &room.character_list).is_some() {
            count += 1;
        }
    }
    if Entity::find_entity_by_name(name, &g.inventory).is_some() {
        count += 1;
    }
    count
}

fn assert_single_ownership(g: &Game) {
    for name in ITEM_NAMES.iter().chain(NPC_NAMES.iter()).chain(["You"].iter()) {
        assert_eq!(count_owners(g, name), 1, "entity {} must have exactly one owner", name);
    }
}

#[test]
fn setup_places_entities_as_told() {
    let g = standard_game(
        0,
        vec![0, 1, 2, 3, 4, 5],
        vec![4, 5, 6, 7, 8],
        Solution { room: 3, item_name: "Chair".to_string(), character_name: "Lexi".to_string() },
    );
    assert_eq!(g.current_room, 0);
    assert_eq!(g.attempts_used, 0);
    assert_eq!(g.status, GameStatus::Playing);
    assert!(g.inventory.is_empty());
    assert!(Entity::find_entity_by_name("You", &g.board.rooms[0].character_list).is_some());
    assert!(Entity::find_entity_by_name("Knife", &g.board.rooms[2].item_list).is_some());
    assert!(Entity::find_entity_by_name("Lexi", &g.board.rooms[8].character_list).is_some());
    assert_single_ownership(&g);
}

#[test]
fn single_ownership_survives_a_command_sequence() {
    let mut g = standard_game(
        0,
        vec![0, 0, 0, 4, 4, 8],
        vec![1, 2, 3, 4, 8],
        Solution { room: 4, item_name: "Chair".to_string(), character_name: "Lexi".to_string() },
    );
    assert!(g.take("Knife").is_ok());
    assert!(g.go(Direction::South).is_ok());
    assert!(g.summon("Katie").is_ok());
    assert!(g.drop("Knife").is_ok());
    assert!(g.go(Direction::East).is_ok());
    assert!(g.summon("Harry").is_ok());
    assert_single_ownership(&g);
}

#[test]
fn take_then_drop_restores_room_and_inventory() {
    let mut g = standard_game(
        0,
        vec![0, 0, 0, 1, 1, 1],
        vec![4, 5, 6, 7, 8],
        Solution { room: 3, item_name: "Chair".to_string(), character_name: "Lexi".to_string() },
    );
    let mut before: Vec<String> =
        g.board.rooms[0].item_list.iter().map(|e| e.name.clone()).collect();
    assert!(g.take("Knife").is_ok());
    assert!(Entity::find_entity_by_name("Knife", &g.inventory).is_some());
    assert!(Entity::find_entity_by_name("Knife", &g.board.rooms[0].item_list).is_none());
    assert!(g.drop("Knife").is_ok());
    assert!(g.inventory.is_empty());
    let mut after: Vec<String> =
        g.board.rooms[0].item_list.iter().map(|e| e.name.clone()).collect();
    before.sort();
    after.sort();
    assert_eq!(before, after);
}

#[test]
fn take_missing_item_is_not_found() {
    let mut g = standard_game(
        0,
        vec![1, 1, 1, 1, 1, 1],
        vec![4, 5, 6, 7, 8],
        Solution { room: 3, item_name: "Chair".to_string(), character_name: "Lexi".to_string() },
    );
    assert_eq!(g.take("Knife"), Err(GameError::NotFound));
    assert!(g.inventory.is_empty());
    assert_eq!(g.board.rooms[1].item_list.len(), 6);
}

#[test]
fn drop_with_empty_inventory_is_not_found() {
    let mut g = standard_game(
        0,
        vec![0, 0, 0, 0, 0, 0],
        vec![4, 5, 6, 7, 8],
        Solution { room: 3, item_name: "Chair".to_string(), character_name: "Lexi".to_string() },
    );
    assert_eq!(g.drop("Knife"), Err(GameError::NotFound));
    assert_eq!(g.board.rooms[0].item_list.len(), 6);
}

#[test]
fn go_without_neighbor_leaves_state_unchanged() {
    let mut g = standard_game(
        0,
        vec![0, 0, 0, 0, 0, 0],
        vec![4, 5, 6, 7, 8],
        Solution { room: 3, item_name: "Chair".to_string(), character_name: "Lexi".to_string() },
    );
    // the top-left corner has no north neighbor
    assert_eq!(g.go(Direction::North), Err(GameError::CannotGo));
    assert_eq!(g.current_room, 0);
    assert!(Entity::find_entity_by_name("You", &g.board.rooms[0].character_list).is_some());
    assert_eq!(g.go(Direction::West), Err(GameError::CannotGo));
    assert_eq!(g.current_room, 0);
}

#[test]
fn go_transfers_the_player() {
    let mut g = standard_game(
        0,
        vec![0, 0, 0, 0, 0, 0],
        vec![4, 5, 6, 7, 8],
        Solution { room: 3, item_name: "Chair".to_string(), character_name: "Lexi".to_string() },
    );
    assert!(g.go(Direction::South).is_ok());
    assert_eq!(g.current_room, 3);
    assert!(Entity::find_entity_by_name("You", &g.board.rooms[0].character_list).is_none());
    assert!(Entity::find_entity_by_name("You", &g.board.rooms[3].character_list).is_some());
}

#[test]
fn winning_playthrough_on_canonical_board() {
    // solution: room "Attic" (index 3), item "Chair", character "Lexi"
    let mut g = standard_game(
        0,
        vec![1, 2, 4, 5, 3, 7],  // "Chair" (index 4 of the item list) starts in the Attic
        vec![1, 2, 4, 5, 8],  // "Lexi" starts in Lexi's Room
        Solution { room: 3, item_name: "Chair".to_string(), character_name: "Lexi".to_string() },
    );
    assert_eq!(g.board.find_room_by_name("Attic"), Some(3));
    assert!(g.go(Direction::South).is_ok());
    assert_eq!(g.current_room, 3);
    assert!(g.take("Chair").is_ok());
    let w = g.summon("Lexi").expect("Lexi is on the board");
    assert_eq!(w.room_match, State::Match);
    assert_eq!(w.item_match, State::Match);
    assert_eq!(w.character_match, State::Match);
    assert!(w.all_match());
    assert_eq!(g.status, GameStatus::Won);
}

#[test]
fn summon_moves_character_and_counts_attempt() {
    let mut g = standard_game(
        0,
        vec![0, 0, 0, 0, 0, 0],
        vec![4, 5, 6, 7, 8],
        Solution { room: 3, item_name: "Chair".to_string(), character_name: "Lexi".to_string() },
    );
    let w = g.summon("Katie").expect("Katie is on the board");
    assert!(!w.all_match());
    assert_eq!(g.attempts_used, 1);
    assert!(Entity::find_entity_by_name("Katie", &g.board.rooms[0].character_list).is_some());
    assert!(Entity::find_entity_by_name("Katie", &g.board.rooms[4].character_list).is_none());
    assert_eq!(g.status, GameStatus::Playing);
}

#[test]
fn summon_unknown_character_costs_no_attempt() {
    let mut g = standard_game(
        0,
        vec![0, 0, 0, 0, 0, 0],
        vec![4, 5, 6, 7, 8],
        Solution { room: 3, item_name: "Chair".to_string(), character_name: "Lexi".to_string() },
    );
    assert_eq!(g.summon("Nobody"), Err(GameError::NotFound));
    assert_eq!(g.attempts_used, 0);
    assert_eq!(g.status, GameStatus::Playing);
}

#[test]
fn attempts_exhausted_transitions_to_lost() {
    let mut g = standard_game(
        0,
        vec![8, 8, 8, 8, 8, 8],
        vec![4, 5, 6, 7, 8],
        Solution { room: 8, item_name: "Chair".to_string(), character_name: "Lexi".to_string() },
    );
    assert_eq!(MAX_CLUES, 5);
    for attempt in 1..=MAX_CLUES {
        let w = g.summon("Katie").expect("Katie is on the board");
        assert!(!w.all_match());
        assert_eq!(g.attempts_used, attempt);
    }
    assert_eq!(g.status, GameStatus::Lost);
}

#[test]
fn evaluate_reports_partial_matches() {
    let mut g = standard_game(
        0,
        vec![0, 0, 0, 0, 0, 0],
        vec![4, 5, 6, 7, 8],
        Solution { room: 3, item_name: "Knife".to_string(), character_name: "Lexi".to_string() },
    );
    // in the start room: item present there, but wrong room, character absent
    let w = g.get_win_state();
    assert_eq!(w.room_match, State::Miss);
    assert_eq!(w.item_match, State::Match);
    assert_eq!(w.character_match, State::Miss);
    // carrying the item keeps the item match
    assert!(g.take("Knife").is_ok());
    let w = g.get_win_state();
    assert_eq!(w.item_match, State::Match);
}

#[test]
fn find_room_for_character_scans_the_board() {
    let g = standard_game(
        0,
        vec![0, 0, 0, 0, 0, 0],
        vec![4, 5, 6, 7, 8],
        Solution { room: 3, item_name: "Chair".to_string(), character_name: "Lexi".to_string() },
    );
    assert_eq!(g.board.find_room_for_character_by_name("lexi"), Some(8));
    assert_eq!(g.board.find_room_for_character_by_name("You"), Some(0));
    assert_eq!(g.board.find_room_for_character_by_name("Nobody"), None);
}

#[test]
fn look_renders_the_current_room() {
    let mut g = standard_game(
        4,
        vec![4, 4, 0, 0, 0, 0],
        vec![4, 5, 6, 7, 8],
        Solution { room: 3, item_name: "Chair".to_string(), character_name: "Lexi".to_string() },
    );
    let v = g.look();
    assert_eq!(v.name, "Katie's Room");
    assert_eq!(
        v.around,
        " Backyard (North) | Savanah's Room (South) | Harry's Room (East) | Attic (West) |"
    );
    assert_eq!(v.items, "Rubber Ducky | Hairdryer | ");
    assert_eq!(v.characters, "You | Katie | ");
    assert!(g.go(Direction::North).is_ok());
    let v = g.look();
    assert_eq!(v.name, "Backyard");
    assert_eq!(v.items, "No items.");
}

#[test]
fn reveal_solution_names_the_triple() {
    let g = standard_game(
        0,
        vec![0, 0, 0, 0, 0, 0],
        vec![4, 5, 6, 7, 8],
        Solution { room: 3, item_name: "Chair".to_string(), character_name: "Lexi".to_string() },
    );
    let v = g.reveal_solution();
    assert_eq!(v.room_name, "Attic");
    assert_eq!(v.item_name, "Chair");
    assert_eq!(v.character_name, "Lexi");
    assert_eq!(
        v.as_string(),
        "ANSWER\nROOM: Attic \nITEM: Chair \nCHARACTER: Lexi \n"
    );
}

#[test]
fn winning_state_renders_report() {
    let mut w = clue_core::WinningState::new();
    assert_eq!(
        w.as_string(),
        "\nANSWER\nROOM: MISS \nITEM: MISS \nCHARACTER: MISS \n"
    );
    w.room_match = State::Match;
    assert_eq!(
        w.as_string(),
        "\nANSWER\nROOM: MATCH \nITEM: MISS \nCHARACTER: MISS \n"
    );
    assert_eq!(State::Match.as_string(), "MATCH");
    assert_eq!(State::Miss.as_string(), "MISS");
}

#[test]
fn random_setup_keeps_single_ownership() {
    let g = Game::new(
        names(&ROOM_NAMES),
        names(&ITEM_NAMES),
        names(&NPC_NAMES),
        Entity::new("You".to_string()),
    )
    .expect("valid configuration");
    assert_eq!(g.board.rooms.len(), 9);
    assert_eq!(g.status, GameStatus::Playing);
    assert_eq!(g.attempts_used, 0);
    assert!(g.inventory.is_empty());
    assert!(ITEM_NAMES.contains(&g.solution.item_name.as_str()));
    assert!(NPC_NAMES.contains(&g.solution.character_name.as_str()));
    assert!(g.solution.room < 9);
    assert_single_ownership(&g);
}

#[test]
fn random_setup_rejects_bad_configuration() {
    assert!(matches!(
        Game::new(names(&ROOM_NAMES[..5]), names(&ITEM_NAMES), names(&NPC_NAMES),
            Entity::new("You".to_string())),
        Err(GameError::ConfigurationError)
    ));
    assert!(matches!(
        Game::new(names(&ROOM_NAMES), Vec::new(), names(&NPC_NAMES),
            Entity::new("You".to_string())),
        Err(GameError::ConfigurationError)
    ));
    assert!(matches!(
        Game::new(names(&ROOM_NAMES), names(&ITEM_NAMES), Vec::new(),
            Entity::new("You".to_string())),
        Err(GameError::ConfigurationError)
    ));
}
