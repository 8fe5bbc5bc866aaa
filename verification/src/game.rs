use vstd::prelude::*;
use vstd::string::*;

use crate::board::{lemma_neighbor_symmetry, Board};
use crate::entity::{contains_name, distinct_names, first_match, Entity};
use crate::errors::GameError;
use crate::names::name_eq;
use crate::room::{Direction, Room};

verus! {

/// How many summons the player gets before the game is lost.
pub const MAX_CLUES: usize = 5;

/// One coordinate of a guess evaluation.
#[derive(Debug, Clone, Copy, PartialEq, Eq, Structural)]
pub enum State {
    Match,
    Miss,
}

/// The three coordinates `evaluate` reports: room, item and character,
/// each hit or missed. The game is won when all three match.
#[derive(Debug, Clone, Copy, PartialEq, Eq, Structural)]
pub struct WinningState {
    pub room_match: State,
    pub item_match: State,
    pub character_match: State,
}

impl WinningState {
    pub open spec fn is_win(self) -> bool {
        self.room_match is Match && self.item_match is Match && self.character_match is Match
    }

    pub fn new() -> (w: WinningState)
        ensures
            w.room_match is Miss && w.item_match is Miss && w.character_match is Miss,
    {
        WinningState { room_match: State::Miss, item_match: State::Miss, character_match: State::Miss }
    }

    /// All three coordinates hit.
    pub fn all_match(&self) -> (r: bool)
        ensures
            r == self.is_win(),
    {
        matches!(self.room_match, State::Match) && matches!(self.item_match, State::Match)
            && matches!(self.character_match, State::Match)
    }

    /// Renders the evaluation report the player sees after a summon.
    pub fn as_string(&self) -> (r: String)
        ensures
            ({
                let rm = if self.room_match is Match {
                    "MATCH"@
                } else {
                    "MISS"@
                };
                let im = if self.item_match is Match {
                    "MATCH"@
                } else {
                    "MISS"@
                };
                let cm = if self.character_match is Match {
                    "MATCH"@
                } else {
                    "MISS"@
                };
                r@ == "\n"@ + report_text(rm, im, cm)
            }),
    {
        let mut s = String::from_str("\n");
        s.append("ANSWER\n");
        s.append("ROOM: ");
        s.append(self.room_match.as_string().as_str());
        s.append(" \n");
        s.append("ITEM: ");
        s.append(self.item_match.as_string().as_str());
        s.append(" \n");
        s.append("CHARACTER: ");
        s.append(self.character_match.as_string().as_str());
        s.append(" \n");
        proof {
            let rm = if self.room_match is Match {
                "MATCH"@
            } else {
                "MISS"@
            };
            let im = if self.item_match is Match {
                "MATCH"@
            } else {
                "MISS"@
            };
            let cm = if self.character_match is Match {
                "MATCH"@
            } else {
                "MISS"@
            };
            assert(s@ =~= "\n"@ + report_text(rm, im, cm));
        }
        s
    }
}

impl State {
    /// The word the player sees for this coordinate.
    pub fn as_string(&self) -> (r: String)
        ensures
            self is Match ==> r@ == "MATCH"@,
            self is Miss ==> r@ == "MISS"@,
    {
        match self {
            State::Match => String::from_str("MATCH"),
            State::Miss => String::from_str("MISS"),
        }
    }
}

/// The text of one labelled line of a report: the label, the value, then
/// a space and a line break.
pub open spec fn report_line(label: Seq<char>, value: Seq<char>) -> Seq<char> {
    label + value + " \n"@
}

/// The rendered answer report: what each of the three coordinates shows.
pub open spec fn report_text(room: Seq<char>, item: Seq<char>, character: Seq<char>) -> Seq<char> {
    "ANSWER\n"@ + report_line("ROOM: "@, room) + report_line("ITEM: "@, item) + report_line(
        "CHARACTER: "@,
        character,
    )
}

/// Where the whole game stands.
#[derive(Debug, Clone, Copy, PartialEq, Eq, Structural)]
pub enum GameStatus {
    Playing,
    Won,
    Lost,
}

/// The hidden answer, chosen once at setup and immutable afterwards: a
/// room of the board and the names of an item and a character.
#[derive(Debug)]
pub struct Solution {
    pub room: usize,
    pub item_name: String,
    pub character_name: String,
}

impl Solution {
    /// Draws the hidden triple: a uniformly random room of the board, one
    /// of the item names, and one of the character names. The three draws
    /// are independent, and nothing forbids coincidences.
    pub fn new(board: &Board, item_names: &Vec<String>, npc_names: &Vec<String>) -> (s: Solution)
        requires
            board.wf(),
            item_names@.len() >= 1,
            npc_names@.len() >= 1,
        ensures
            s.room < board.rooms@.len(),
            exists|k: int|
                0 <= k < item_names@.len() && s.item_name@ == (#[trigger] item_names@[k])@,
            exists|k: int|
                0 <= k < npc_names@.len() && s.character_name@ == (#[trigger] npc_names@[k])@,
    {
        let room = board.get_random_room();
        let ki = crate::rng::random_below(item_names.len());
        let kc = crate::rng::random_below(npc_names.len());
        Solution {
            room,
            item_name: item_names[ki].clone(),
            character_name: npc_names[kc].clone(),
        }
    }
}

/// One container of the game state, named: a room's item container, a
/// room's character container, or the player's inventory.
pub enum Place {
    Items(int),
    Characters(int),
    Inventory,
}

/// What the player sees of a room: its name, the neighbor listing, and
/// the rendered item and character containers.
#[derive(Debug)]
pub struct RoomView {
    pub name: String,
    pub around: String,
    pub items: String,
    pub characters: String,
}

/// What the debug command reveals of the solution: the three names.
#[derive(Debug)]
pub struct SolutionView {
    pub room_name: String,
    pub item_name: String,
    pub character_name: String,
}

impl SolutionView {
    /// Renders the revealed solution as the debug command prints it.
    pub fn as_string(&self) -> (r: String)
        ensures
            r@ == report_text(self.room_name@, self.item_name@, self.character_name@),
    {
        let mut s = String::from_str("ANSWER\n");
        s.append("ROOM: ");
        s.append(self.room_name.as_str());
        s.append(" \n");
        s.append("ITEM: ");
        s.append(self.item_name.as_str());
        s.append(" \n");
        s.append("CHARACTER: ");
        s.append(self.character_name.as_str());
        s.append(" \n");
        proof {
            assert(s@ =~= report_text(self.room_name@, self.item_name@, self.character_name@));
        }
        s
    }
}

/// The whole game state: the board, the informational name pools, the
/// player's inventory, the room the player stands in, the player entity's
/// name, the hidden solution, and the attempt bookkeeping.
#[derive(Debug)]
pub struct Game {
    pub board: Board,
    pub item_names: Vec<String>,
    pub npc_names: Vec<String>,
    pub inventory: Vec<Entity>,
    pub current_room: usize,
    pub avatar_name: String,
    pub solution: Solution,
    pub attempts_used: usize,
    pub status: GameStatus,
}

impl Game {
    pub open spec fn rooms(self) -> Seq<Room> {
        self.board.rooms@
    }

    pub open spec fn valid_place(self, p: Place) -> bool {
        match p {
            Place::Items(i) => 0 <= i < self.rooms().len(),
            Place::Characters(i) => 0 <= i < self.rooms().len(),
            Place::Inventory => true,
        }
    }

    pub open spec fn container_at(self, p: Place) -> Seq<Entity> {
        match p {
            Place::Items(i) => self.rooms()[i].item_list@,
            Place::Characters(i) => self.rooms()[i].character_list@,
            Place::Inventory => self.inventory@,
        }
    }

    /// The container at `p` holds an entity named `n`.
    pub open spec fn holds(self, p: Place, n: Seq<char>) -> bool {
        contains_name(self.container_at(p), n)
    }

    /// Some container of the game holds an entity named `n`.
    pub open spec fn owned(self, n: Seq<char>) -> bool {
        exists|p: Place| self.valid_place(p) && self.holds(p, n)
    }

    /// The single-ownership discipline: every container is name-unique,
    /// and no name sits in two different containers.
    pub open spec fn ownership_ok(self) -> bool {
        &&& forall|p: Place| self.valid_place(p) ==> distinct_names(#[trigger] self.container_at(p))
        &&& forall|p1: Place, p2: Place, n: Seq<char>|
            self.valid_place(p1) && self.valid_place(p2) && #[trigger] self.holds(p1, n)
                && #[trigger] self.holds(p2, n) ==> p1 == p2
    }

    /// The game invariant: the board is a well-formed lattice, the current
    /// room and the solution's room are on it, the player entity stands in
    /// the current room's character container, ownership is single, and
    /// the attempt counter respects the limit while play goes on.
    pub open spec fn wf(self) -> bool {
        &&& self.board.wf()
        &&& (self.current_room as int) < self.rooms().len()
        &&& (self.solution.room as int) < self.rooms().len()
        &&& self.holds(Place::Characters(self.current_room as int), self.avatar_name@)
        &&& self.ownership_ok()
        &&& self.attempts_used <= MAX_CLUES
        &&& (self.status is Playing ==> self.attempts_used < MAX_CLUES)
    }

    /// What `evaluate` must report: the room matches when the player
    /// stands in the solution's room; the item matches when the solution's
    /// item lies in that room or in the inventory; the character matches
    /// when the solution's character is present in that room.
    pub open spec fn spec_win_state(self) -> WinningState {
        WinningState {
            room_match: if self.current_room == self.solution.room {
                State::Match
            } else {
                State::Miss
            },
            item_match: if contains_name(
                self.rooms()[self.current_room as int].item_list@,
                self.solution.item_name@,
            ) || contains_name(self.inventory@, self.solution.item_name@) {
                State::Match
            } else {
                State::Miss
            },
            character_match: if contains_name(
                self.rooms()[self.current_room as int].character_list@,
                self.solution.character_name@,
            ) {
                State::Match
            } else {
                State::Miss
            },
        }
    }

    /// Pure evaluation of the current guess state; mutates nothing.
    pub fn get_win_state(&self) -> (w: WinningState)
        requires
            self.wf(),
        ensures
            w == self.spec_win_state(),
    {
        let mut win_state = WinningState::new();
        if self.current_room == self.solution.room {
            win_state.room_match = State::Match;
        }
        if Entity::find_entity_by_name(
            self.solution.item_name.as_str(),
            &self.board.rooms[self.current_room].item_list,
        ).is_some() || Entity::find_entity_by_name(
            self.solution.item_name.as_str(),
            &self.inventory,
        ).is_some() {
            win_state.item_match = State::Match;
        }
        if Entity::find_entity_by_name(
            self.solution.character_name.as_str(),
            &self.board.rooms[self.current_room].character_list,
        ).is_some() {
            win_state.character_match = State::Match;
        }
        win_state
    }

    /// What the player sees of the current room.
    pub fn look(&self) -> (v: RoomView)
        requires
            self.wf(),
        ensures
            v.name@ == self.rooms()[self.current_room as int].name@,
            v.around@ == Room::around_text(
                self.rooms(),
                self.rooms()[self.current_room as int],
            ),
            self.rooms()[self.current_room as int].item_list@.len() == 0 ==> v.items@
                == "No items."@,
            self.rooms()[self.current_room as int].item_list@.len() > 0 ==> v.items@
                == crate::entity::list_text(self.rooms()[self.current_room as int].item_list@),
            self.rooms()[self.current_room as int].character_list@.len() == 0 ==> v.characters@
                == "No characters."@,
            self.rooms()[self.current_room as int].character_list@.len() > 0 ==> v.characters@
                == crate::entity::list_text(
                self.rooms()[self.current_room as int].character_list@,
            ),
    {
        proof {
            crate::board::lemma_links_in_range(self.board, self.current_room as int);
        }
        let room = &self.board.rooms[self.current_room];
        RoomView {
            name: room.name.clone(),
            around: room.around(&self.board.rooms),
            items: room.item_list_as_string(),
            characters: room.character_list_as_string(),
        }
    }

    /// Transfers the player entity from the current room's character
    /// container to `new_room`'s and moves the current-room pointer there.
    /// Everything else — both rooms' names, links and items, all other
    /// rooms, the inventory, the counters — is untouched, and no entity
    /// appears or disappears.
    pub fn set_current_room(&mut self, new_room: usize)
        requires
            old(self).wf(),
            new_room < old(self).rooms().len(),
            new_room != old(self).current_room,
        ensures
            final(self).wf(),
            final(self).current_room == new_room,
            final(self).board.side == old(self).board.side,
            final(self).item_names == old(self).item_names,
            final(self).npc_names == old(self).npc_names,
            final(self).inventory == old(self).inventory,
            final(self).avatar_name == old(self).avatar_name,
            final(self).solution == old(self).solution,
            final(self).attempts_used == old(self).attempts_used,
            final(self).status == old(self).status,
            final(self).rooms().len() == old(self).rooms().len(),
            forall|j: int|
                0 <= j < old(self).rooms().len() && j != old(self).current_room && j != new_room
                    ==> final(self).rooms()[j] == old(self).rooms()[j],
            same_except_characters(
                final(self).rooms()[old(self).current_room as int],
                old(self).rooms()[old(self).current_room as int],
            ),
            same_except_characters(
                final(self).rooms()[new_room as int],
                old(self).rooms()[new_room as int],
            ),
            exists|i: int|
                first_match(
                    old(self).rooms()[old(self).current_room as int].character_list@,
                    old(self).avatar_name@,
                    i,
                ) && final(self).rooms()[old(self).current_room as int].character_list@ == old(self).rooms()[old(self).current_room as int].character_list@.remove(i) && final(self).rooms()[new_room as int].character_list@ == old(self).rooms()[new_room as int].character_list@.push(
                    old(self).rooms()[old(self).current_room as int].character_list@[i],
                ),
            forall|n: Seq<char>| final(self).owned(n) <==> old(self).owned(n),
    {
        let ghost g0 = *self;
        let cur = self.current_room;
        let avname = self.avatar_name.clone();
        let slot = &mut self.board.rooms[cur];
        let e_opt = Entity::remove_entity(&mut slot.character_list, avname.as_str());
        let e = match e_opt {
            Some(e) => e,
            None => {
                proof {
                    assert(g0.holds(Place::Characters(cur as int), g0.avatar_name@));
                    assert(false);
                }
                vstd::pervasive::unreached()
            },
        };
        let ghost gmid = *self;
        let ghost i = choose|i: int|
            first_match(g0.rooms()[cur as int].character_list@, g0.avatar_name@, i) && e
                == g0.rooms()[cur as int].character_list@[i] && gmid.rooms()[
                cur as int
            ].character_list@ == g0.rooms()[cur as int].character_list@.remove(i);
        let slot2 = &mut self.board.rooms[new_room];
        Entity::push_entity(&mut slot2.character_list, e);
        self.current_room = new_room;
        proof {
            let g1 = *self;
            let pa = Place::Characters(cur as int);
            let pb = Place::Characters(new_room as int);
            assert(g1.container_at(pa) == g0.container_at(pa).remove(i));
            assert(g1.container_at(pb) == g0.container_at(pb).push(g0.container_at(pa)[i]));
            assert forall|p: Place|
                g0.valid_place(p) && p != pa && p != pb implies #[trigger] g1.container_at(p)
                    == g0.container_at(p) by {
                match p {
                    Place::Items(t) => {},
                    Place::Characters(t) => {},
                    Place::Inventory => {},
                }
            }
            lemma_ownership_transfer(g0, g1, pa, pb, i);
            assert forall|idx: int|
                0 <= idx < g1.rooms().len() implies #[trigger] crate::board::lattice_links_at(
                g1.rooms()[idx],
                idx,
                g1.board.side as int,
                g1.rooms().len() as int,
            ) by {
                assert(crate::board::lattice_links_at(
                    g0.rooms()[idx],
                    idx,
                    g0.board.side as int,
                    g0.rooms().len() as int,
                ));
            }
            assert(g1.holds(Place::Characters(new_room as int), g1.avatar_name@)) by {
                crate::entity::lemma_contains_push(
                    g0.rooms()[new_room as int].character_list@,
                    g0.rooms()[cur as int].character_list@[i],
                );
                assert(name_eq(g0.rooms()[cur as int].character_list@[i].name@, g0.avatar_name@));
                assert(contains_name(
                    g0.rooms()[new_room as int].character_list@.push(
                        g0.rooms()[cur as int].character_list@[i],
                    ),
                    g0.avatar_name@,
                ));
                assert(g1.container_at(Place::Characters(new_room as int)) == g0.rooms()[
                    new_room as int
                ].character_list@.push(g0.rooms()[cur as int].character_list@[i]));
            }
        }
    }

    /// One `go` command: when the current room has a neighbor in the given
    /// direction, the player entity is transferred there and the
    /// current-room pointer follows; otherwise the move is refused and the
    /// whole state is left untouched.
    pub fn go(&mut self, direction: Direction) -> (r: Result<(), GameError>)
        requires
            old(self).wf(),
            old(self).status is Playing,
            !(direction is Invalid),
        ensures
            final(self).wf(),
            r is Ok <==> old(self).rooms()[old(self).current_room as int].neighbor(direction)
                is Some,
            r is Err ==> r == Err::<(), GameError>(GameError::CannotGo) && *final(self) == *old(self),
            r is Ok ==> Some(final(self).current_room) == old(self).rooms()[old(self).current_room as int].neighbor(direction),
            r is Ok ==> {
                let j = final(self).current_room;
                &&& final(self).board.side == old(self).board.side
                &&& final(self).inventory == old(self).inventory
                &&& final(self).solution == old(self).solution
                &&& final(self).attempts_used == old(self).attempts_used
                &&& final(self).status == old(self).status
                &&& final(self).avatar_name == old(self).avatar_name
                &&& final(self).rooms().len() == old(self).rooms().len()
                &&& forall|t: int|
                    0 <= t < old(self).rooms().len() && t != old(self).current_room && t != j
                        ==> final(self).rooms()[t] == old(self).rooms()[t]
                &&& same_except_characters(
                    final(self).rooms()[old(self).current_room as int],
                    old(self).rooms()[old(self).current_room as int],
                )
                &&& same_except_characters(final(self).rooms()[j as int], old(self).rooms()[j as int])
                &&& exists|i: int|
                    first_match(
                        old(self).rooms()[old(self).current_room as int].character_list@,
                        old(self).avatar_name@,
                        i,
                    ) && final(self).rooms()[old(self).current_room as int].character_list@ == old(self).rooms()[old(self).current_room as int].character_list@.remove(i) && final(self).rooms()[j as int].character_list@ == old(self).rooms()[
                        j as int
                    ].character_list@.push(
                        old(self).rooms()[old(self).current_room as int].character_list@[i],
                    )
            },
            forall|n: Seq<char>| final(self).owned(n) <==> old(self).owned(n),
    {
        let cur = self.current_room;
        let room = &self.board.rooms[cur];
        let nbr: Option<usize> = match direction {
            Direction::North => room.north,
            Direction::South => room.south,
            Direction::East => room.east,
            Direction::West => room.west,
            Direction::Invalid => None,
        };
        match nbr {
            Some(j) => {
                proof {
                    lemma_neighbor_symmetry(self.board, cur as int, direction, j);
                    assert(crate::board::lattice_links_at(
                        self.rooms()[cur as int],
                        cur as int,
                        self.board.side as int,
                        self.rooms().len() as int,
                    ));
                    assert(j != cur);
                }
                self.set_current_room(j);
                Ok(())
            },
            None => Err(GameError::CannotGo),
        }
    }

    /// One `take` command: transfers the first item named `item_name` from
    /// the current room's item container to the end of the inventory.
    /// When no such item is there, fails with `NotFound` and changes
    /// nothing at all.
    pub fn take(&mut self, item_name: &str) -> (r: Result<(), GameError>)
        requires
            old(self).wf(),
            old(self).status is Playing,
        ensures
            final(self).wf(),
            r is Ok <==> contains_name(
                old(self).rooms()[old(self).current_room as int].item_list@,
                item_name@,
            ),
            r is Err ==> {
                let cur = old(self).current_room as int;
                &&& r == Err::<(), GameError>(GameError::NotFound)
                &&& final(self).rooms().len() == old(self).rooms().len()
                &&& forall|t: int|
                    0 <= t < old(self).rooms().len() && t != cur ==> final(self).rooms()[t] == old(self).rooms()[t]
                &&& same_except_items(final(self).rooms()[cur], old(self).rooms()[cur])
                &&& final(self).rooms()[cur].item_list@ == old(self).rooms()[cur].item_list@
                &&& final(self).inventory@ == old(self).inventory@
                &&& final(self).current_room == old(self).current_room
                &&& final(self).board.side == old(self).board.side
                &&& final(self).solution == old(self).solution
                &&& final(self).attempts_used == old(self).attempts_used
                &&& final(self).status == old(self).status
                &&& final(self).avatar_name == old(self).avatar_name
            },
            r is Ok ==> {
                let cur = old(self).current_room as int;
                &&& final(self).current_room == old(self).current_room
                &&& final(self).board.side == old(self).board.side
                &&& final(self).solution == old(self).solution
                &&& final(self).attempts_used == old(self).attempts_used
                &&& final(self).status == old(self).status
                &&& final(self).avatar_name == old(self).avatar_name
                &&& final(self).rooms().len() == old(self).rooms().len()
                &&& forall|t: int|
                    0 <= t < old(self).rooms().len() && t != cur ==> final(self).rooms()[t] == old(self).rooms()[t]
                &&& same_except_items(final(self).rooms()[cur], old(self).rooms()[cur])
                &&& exists|i: int|
                    first_match(old(self).rooms()[cur].item_list@, item_name@, i) && final(self).rooms()[cur].item_list@ == old(self).rooms()[cur].item_list@.remove(i)
                        && final(self).inventory@ == old(self).inventory@.push(
                        old(self).rooms()[cur].item_list@[i],
                    )
            },
            forall|n: Seq<char>| final(self).owned(n) <==> old(self).owned(n),
    {
        let ghost g0 = *self;
        let cur = self.current_room;
        let slot = &mut self.board.rooms[cur];
        let r = Entity::move_entity_by_name(item_name, &mut slot.item_list, &mut self.inventory);
        proof {
            let g1 = *self;
            if r is Ok {
                let pa = Place::Items(cur as int);
                let pb = Place::Inventory;
                let i = choose|i: int|
                    first_match(g0.rooms()[cur as int].item_list@, item_name@, i) && g1.rooms()[
                        cur as int
                    ].item_list@ == g0.rooms()[cur as int].item_list@.remove(i) && g1.inventory@
                        == g0.inventory@.push(g0.rooms()[cur as int].item_list@[i]);
                assert(g1.container_at(pa) == g0.container_at(pa).remove(i));
                assert(g1.container_at(pb) == g0.container_at(pb).push(g0.container_at(pa)[i]));
                assert forall|p: Place|
                    g0.valid_place(p) && p != pa && p != pb implies #[trigger] g1.container_at(p)
                        == g0.container_at(p) by {
                    match p {
                        Place::Items(t) => {},
                        Place::Characters(t) => {},
                        Place::Inventory => {},
                    }
                }
                lemma_ownership_transfer(g0, g1, pa, pb, i);
                assert(g1.container_at(Place::Characters(g1.current_room as int))
                    == g0.container_at(Place::Characters(g0.current_room as int)));
            } else {
                assert forall|p: Place|
                    g1.valid_place(p) implies #[trigger] g1.container_at(p) == g0.container_at(
                    p,
                ) by {
                    match p {
                        Place::Items(t) => {},
                        Place::Characters(t) => {},
                        Place::Inventory => {},
                    }
                }
                assert(g1.holds(Place::Characters(g1.current_room as int), g1.avatar_name@)) by {
                    assert(g1.container_at(Place::Characters(g1.current_room as int))
                        == g0.container_at(Place::Characters(g0.current_room as int)));
                }
                assert forall|p1: Place, p2: Place, n: Seq<char>|
                    g1.valid_place(p1) && g1.valid_place(p2) && #[trigger] g1.holds(p1, n)
                        && #[trigger] g1.holds(p2, n) implies p1 == p2 by {
                    assert(g1.container_at(p1) == g0.container_at(p1));
                    assert(g1.container_at(p2) == g0.container_at(p2));
                    assert(g0.holds(p1, n) && g0.holds(p2, n));
                }
                assert forall|n: Seq<char>| g1.owned(n) <==> g0.owned(n) by {
                    if g1.owned(n) {
                        let p = choose|p: Place| g1.valid_place(p) && g1.holds(p, n);
                        assert(g0.holds(p, n) && g0.valid_place(p));
                    }
                    if g0.owned(n) {
                        let p = choose|p: Place| g0.valid_place(p) && g0.holds(p, n);
                        assert(g1.holds(p, n) && g1.valid_place(p));
                    }
                }
            }
            assert forall|idx: int|
                0 <= idx < final(self).rooms().len() implies #[trigger] crate::board::lattice_links_at(
                final(self).rooms()[idx],
                idx,
                final(self).board.side as int,
                final(self).rooms().len() as int,
            ) by {
                assert(crate::board::lattice_links_at(
                    g0.rooms()[idx],
                    idx,
                    g0.board.side as int,
                    g0.rooms().len() as int,
                ));
            }
        }
        r
    }

    /// One `drop` command: transfers the first item named `item_name` from
    /// the inventory to the end of the current room's item container.
    /// When the inventory holds no such item, fails with `NotFound` and
    /// changes nothing at all.
    pub fn drop(&mut self, item_name: &str) -> (r: Result<(), GameError>)
        requires
            old(self).wf(),
            old(self).status is Playing,
        ensures
            final(self).wf(),
            r is Ok <==> contains_name(old(self).inventory@, item_name@),
            r is Err ==> {
                let cur = old(self).current_room as int;
                &&& r == Err::<(), GameError>(GameError::NotFound)
                &&& final(self).rooms().len() == old(self).rooms().len()
                &&& forall|t: int|
                    0 <= t < old(self).rooms().len() && t != cur ==> final(self).rooms()[t] == old(self).rooms()[t]
                &&& same_except_items(final(self).rooms()[cur], old(self).rooms()[cur])
                &&& final(self).rooms()[cur].item_list@ == old(self).rooms()[cur].item_list@
                &&& final(self).inventory@ == old(self).inventory@
                &&& final(self).current_room == old(self).current_room
                &&& final(self).board.side == old(self).board.side
                &&& final(self).solution == old(self).solution
                &&& final(self).attempts_used == old(self).attempts_used
                &&& final(self).status == old(self).status
                &&& final(self).avatar_name == old(self).avatar_name
            },
            r is Ok ==> {
                let cur = old(self).current_room as int;
                &&& final(self).current_room == old(self).current_room
                &&& final(self).board.side == old(self).board.side
                &&& final(self).solution == old(self).solution
                &&& final(self).attempts_used == old(self).attempts_used
                &&& final(self).status == old(self).status
                &&& final(self).avatar_name == old(self).avatar_name
                &&& final(self).rooms().len() == old(self).rooms().len()
                &&& forall|t: int|
                    0 <= t < old(self).rooms().len() && t != cur ==> final(self).rooms()[t] == old(self).rooms()[t]
                &&& same_except_items(final(self).rooms()[cur], old(self).rooms()[cur])
                &&& exists|i: int|
                    first_match(old(self).inventory@, item_name@, i) && final(self).inventory@
                        == old(self).inventory@.remove(i) && final(self).rooms()[cur].item_list@
                        == old(self).rooms()[cur].item_list@.push(old(self).inventory@[i])
            },
            forall|n: Seq<char>| final(self).owned(n) <==> old(self).owned(n),
    {
        let ghost g0 = *self;
        let cur = self.current_room;
        let slot = &mut self.board.rooms[cur];
        let r = Entity::move_entity_by_name(item_name, &mut self.inventory, &mut slot.item_list);
        proof {
            let g1 = *self;
            if r is Ok {
                let pa = Place::Inventory;
                let pb = Place::Items(cur as int);
                let i = choose|i: int|
                    first_match(g0.inventory@, item_name@, i) && g1.inventory@ == g0.inventory@.remove(
                        i,
                    ) && g1.rooms()[cur as int].item_list@ == g0.rooms()[
                        cur as int
                    ].item_list@.push(g0.inventory@[i]);
                assert(g1.container_at(pa) == g0.container_at(pa).remove(i));
                assert(g1.container_at(pb) == g0.container_at(pb).push(g0.container_at(pa)[i]));
                assert forall|p: Place|
                    g0.valid_place(p) && p != pa && p != pb implies #[trigger] g1.container_at(p)
                        == g0.container_at(p) by {
                    match p {
                        Place::Items(t) => {},
                        Place::Characters(t) => {},
                        Place::Inventory => {},
                    }
                }
                lemma_ownership_transfer(g0, g1, pa, pb, i);
                assert(g1.container_at(Place::Characters(g1.current_room as int))
                    == g0.container_at(Place::Characters(g0.current_room as int)));
            } else {
                assert forall|p: Place|
                    g1.valid_place(p) implies #[trigger] g1.container_at(p) == g0.container_at(
                    p,
                ) by {
                    match p {
                        Place::Items(t) => {},
                        Place::Characters(t) => {},
                        Place::Inventory => {},
                    }
                }
                assert(g1.holds(Place::Characters(g1.current_room as int), g1.avatar_name@)) by {
                    assert(g1.container_at(Place::Characters(g1.current_room as int))
                        == g0.container_at(Place::Characters(g0.current_room as int)));
                }
                assert forall|p1: Place, p2: Place, n: Seq<char>|
                    g1.valid_place(p1) && g1.valid_place(p2) && #[trigger] g1.holds(p1, n)
                        && #[trigger] g1.holds(p2, n) implies p1 == p2 by {
                    assert(g1.container_at(p1) == g0.container_at(p1));
                    assert(g1.container_at(p2) == g0.container_at(p2));
                    assert(g0.holds(p1, n) && g0.holds(p2, n));
                }
                assert forall|n: Seq<char>| g1.owned(n) <==> g0.owned(n) by {
                    if g1.owned(n) {
                        let p = choose|p: Place| g1.valid_place(p) && g1.holds(p, n);
                        assert(g0.holds(p, n) && g0.valid_place(p));
                    }
                    if g0.owned(n) {
                        let p = choose|p: Place| g0.valid_place(p) && g0.holds(p, n);
                        assert(g1.holds(p, n) && g1.valid_place(p));
                    }
                }
            }
            assert forall|idx: int|
                0 <= idx < final(self).rooms().len() implies #[trigger] crate::board::lattice_links_at(
                final(self).rooms()[idx],
                idx,
                final(self).board.side as int,
                final(self).rooms().len() as int,
            ) by {
                assert(crate::board::lattice_links_at(
                    g0.rooms()[idx],
                    idx,
                    g0.board.side as int,
                    g0.rooms().len() as int,
                ));
            }
        }
        r
    }

    /// One `summon` (clue) command: finds the room that currently holds
    /// the named character; when there is none, fails with `NotFound`,
    /// changes nothing, and costs no attempt. Otherwise the character is
    /// transferred into the current room (unless already there), the
    /// attempt counter goes up by one, the guess is evaluated on the new
    /// state, and the game transitions to `Won` the instant all three
    /// coordinates match, to `Lost` when the attempts are exhausted
    /// without a win, and stays `Playing` otherwise.
    pub fn summon(&mut self, character_name: &str) -> (r: Result<WinningState, GameError>)
        requires
            old(self).wf(),
            old(self).status is Playing,
        ensures
            final(self).wf(),
            r is Ok <==> exists|j: int|
                0 <= j < old(self).rooms().len() && contains_name(
                    #[trigger] old(self).rooms()[j].character_list@,
                    character_name@,
                ),
            r is Err ==> r == Err::<WinningState, GameError>(GameError::NotFound) && *final(self)
                == *old(self),
            r matches Ok(w) ==> {
                let cur = old(self).current_room as int;
                &&& final(self).attempts_used == old(self).attempts_used + 1
                &&& final(self).current_room == old(self).current_room
                &&& final(self).inventory == old(self).inventory
                &&& final(self).solution == old(self).solution
                &&& final(self).avatar_name == old(self).avatar_name
                &&& final(self).item_names == old(self).item_names
                &&& final(self).npc_names == old(self).npc_names
                &&& final(self).board.side == old(self).board.side
                &&& final(self).rooms().len() == old(self).rooms().len()
                &&& contains_name(
                    final(self).rooms()[cur].character_list@,
                    character_name@,
                )
                &&& w == final(self).spec_win_state()
                &&& final(self).status == (if w.is_win() {
                    GameStatus::Won
                } else if final(self).attempts_used == MAX_CLUES {
                    GameStatus::Lost
                } else {
                    GameStatus::Playing
                })
                &&& exists|j: int|
                    {
                        &&& 0 <= j < old(self).rooms().len()
                        &&& contains_name(
                            #[trigger] old(self).rooms()[j].character_list@,
                            character_name@,
                        )
                        &&& forall|t: int|
                            0 <= t < j ==> !contains_name(
                                #[trigger] old(self).rooms()[t].character_list@,
                                character_name@,
                            )
                        &&& if j == cur {
                            forall|t: int|
                                0 <= t < old(self).rooms().len() ==> final(self).rooms()[t] == old(self).rooms()[t]
                        } else {
                            &&& forall|t: int|
                                0 <= t < old(self).rooms().len() && t != j && t != cur ==> final(self).rooms()[t] == old(self).rooms()[t]
                            &&& same_except_characters(final(self).rooms()[j], old(self).rooms()[j])
                            &&& same_except_characters(
                                final(self).rooms()[cur],
                                old(self).rooms()[cur],
                            )
                            &&& exists|i: int|
                                first_match(
                                    old(self).rooms()[j].character_list@,
                                    character_name@,
                                    i,
                                ) && final(self).rooms()[j].character_list@ == old(self).rooms()[
                                    j
                                ].character_list@.remove(i) && final(self).rooms()[
                                    cur
                                ].character_list@ == old(self).rooms()[cur].character_list@.push(
                                    old(self).rooms()[j].character_list@[i],
                                )
                        }
                    }
            },
            forall|n: Seq<char>| final(self).owned(n) <==> old(self).owned(n),
    {
        let ghost g0 = *self;
        let room_opt = self.board.find_room_for_character_by_name(character_name);
        let j = match room_opt {
            Some(j) => j,
            None => {
                return Err(GameError::NotFound);
            },
        };
        let cur = self.current_room;
        if j != cur {
            let slot = &mut self.board.rooms[j];
            let e_opt = Entity::remove_entity(&mut slot.character_list, character_name);
            let e = match e_opt {
                Some(e) => e,
                None => {
                    proof {
                        assert(false);
                    }
                    vstd::pervasive::unreached()
                },
            };
            let ghost gmid = *self;
            let ghost i = choose|i: int|
                first_match(g0.rooms()[j as int].character_list@, character_name@, i) && e
                    == g0.rooms()[j as int].character_list@[i] && gmid.rooms()[
                    j as int
                ].character_list@ == g0.rooms()[j as int].character_list@.remove(i);
            let slot2 = &mut self.board.rooms[cur];
            Entity::push_entity(&mut slot2.character_list, e);
            proof {
                let g1 = *self;
                let pa = Place::Characters(j as int);
                let pb = Place::Characters(cur as int);
                assert(g1.container_at(pa) == g0.container_at(pa).remove(i));
                assert(g1.container_at(pb) == g0.container_at(pb).push(g0.container_at(pa)[i]));
                assert forall|p: Place|
                    g0.valid_place(p) && p != pa && p != pb implies #[trigger] g1.container_at(p)
                        == g0.container_at(p) by {
                    match p {
                        Place::Items(t) => {},
                        Place::Characters(t) => {},
                        Place::Inventory => {},
                    }
                }
                lemma_ownership_transfer(g0, g1, pa, pb, i);
                assert forall|idx: int|
                    0 <= idx < g1.rooms().len() implies #[trigger] crate::board::lattice_links_at(
                    g1.rooms()[idx],
                    idx,
                    g1.board.side as int,
                    g1.rooms().len() as int,
                ) by {
                    assert(crate::board::lattice_links_at(
                        g0.rooms()[idx],
                        idx,
                        g0.board.side as int,
                        g0.rooms().len() as int,
                    ));
                }
                assert(g1.holds(Place::Characters(cur as int), g1.avatar_name@)) by {
                    crate::entity::lemma_contains_push(
                        g0.rooms()[cur as int].character_list@,
                        g0.rooms()[j as int].character_list@[i],
                    );
                    assert(contains_name(
                        g0.rooms()[cur as int].character_list@.push(
                            g0.rooms()[j as int].character_list@[i],
                        ),
                        g0.avatar_name@,
                    ));
                    assert(g1.container_at(Place::Characters(cur as int)) == g0.rooms()[
                        cur as int
                    ].character_list@.push(g0.rooms()[j as int].character_list@[i]));
                }
                assert(contains_name(g1.rooms()[cur as int].character_list@, character_name@)) by {
                    crate::entity::lemma_contains_push(
                        g0.rooms()[cur as int].character_list@,
                        g0.rooms()[j as int].character_list@[i],
                    );
                    assert(name_eq(
                        g0.rooms()[j as int].character_list@[i].name@,
                        character_name@,
                    ));
                }
            }
        }
        let ghost gmove = *self;
        proof {
            assert(gmove.wf());
        }
        let w = self.get_win_state();
        self.attempts_used = self.attempts_used + 1;
        if w.all_match() {
            self.status = GameStatus::Won;
        } else if self.attempts_used == MAX_CLUES {
            self.status = GameStatus::Lost;
        }
        proof {
            let gf = *self;
            assert forall|p: Place| gf.valid_place(p) implies #[trigger] gf.container_at(p)
                == gmove.container_at(p) by {
                match p {
                    Place::Items(t) => {},
                    Place::Characters(t) => {},
                    Place::Inventory => {},
                }
            }
            lemma_owned_same_containers(gmove, gf);
            assert(gf.holds(Place::Characters(gf.current_room as int), gf.avatar_name@)) by {
                assert(gf.container_at(Place::Characters(gf.current_room as int))
                    == gmove.container_at(Place::Characters(gmove.current_room as int)));
            }
            assert forall|idx: int|
                0 <= idx < gf.rooms().len() implies #[trigger] crate::board::lattice_links_at(
                gf.rooms()[idx],
                idx,
                gf.board.side as int,
                gf.rooms().len() as int,
            ) by {
                assert(crate::board::lattice_links_at(
                    gmove.rooms()[idx],
                    idx,
                    gmove.board.side as int,
                    gmove.rooms().len() as int,
                ));
            }
        }
        Ok(w)
    }

    /// Deterministic setup from explicit placement: the given board, whose
    /// containers must all be empty, is populated — the player entity in
    /// `start_room`, character `k` in `npc_rooms[k]`, item `k` in
    /// `item_rooms[k]` — and the game starts playing with the given
    /// solution, an empty inventory and no attempt spent. The entity names
    /// must be pairwise distinct, which is what makes single ownership
    /// hold. `new` drives this function with random draws.
    pub fn setup(
        board: Board,
        item_names: Vec<String>,
        npc_names: Vec<String>,
        avatar: Entity,
        start_room: usize,
        item_rooms: Vec<usize>,
        npc_rooms: Vec<usize>,
        solution: Solution,
    ) -> (g: Game)
        requires
            board.wf(),
            forall|i: int|
                0 <= i < board.rooms@.len() ==> (#[trigger] board.rooms@[i]).item_list@.len() == 0
                    && board.rooms@[i].character_list@.len() == 0,
            start_room < board.rooms@.len(),
            solution.room < board.rooms@.len(),
            item_rooms@.len() == item_names@.len(),
            npc_rooms@.len() == npc_names@.len(),
            forall|k: int|
                0 <= k < item_rooms@.len() ==> (#[trigger] item_rooms@[k]) < board.rooms@.len(),
            forall|k: int|
                0 <= k < npc_rooms@.len() ==> (#[trigger] npc_rooms@[k]) < board.rooms@.len(),
            names_distinct(setup_names(item_names@, npc_names@, avatar.name@)),
        ensures
            g.wf(),
            g.status is Playing,
            g.attempts_used == 0,
            g.current_room == start_room,
            g.avatar_name@ == avatar.name@,
            g.solution == solution,
            g.item_names == item_names,
            g.npc_names == npc_names,
            g.inventory@.len() == 0,
            g.board.side == board.side,
            g.rooms().len() == board.rooms@.len(),
            forall|i: int|
                0 <= i < g.rooms().len() ==> same_room_shell(
                    #[trigger] g.rooms()[i],
                    board.rooms@[i],
                ),
            items_placed(g.rooms(), item_names@, item_rooms@, item_names@.len() as int),
            chars_placed(
                g.rooms(),
                avatar.name@,
                start_room as int,
                npc_names@,
                npc_rooms@,
                npc_names@.len() as int,
            ),
    {
        let ghost b0 = board.rooms@;
        let ghost side0 = board.side;
        let ghost av = avatar.name@;
        let ghost inames = item_names@;
        let ghost nnames = npc_names@;
        let mut board = board;
        let avname = avatar.name.clone();
        let ghost avatar0 = avatar;
        let slot = &mut board.rooms[start_room];
        Entity::push_entity(&mut slot.character_list, avatar);
        proof {
            crate::entity::lemma_contains_push(b0[start_room as int].character_list@, avatar0);
            assert forall|i: int, n: Seq<char>| 0 <= i < board.rooms@.len() implies (
            #[trigger] contains_name(board.rooms@[i].character_list@, n) <==> ((i
                == start_room as int && name_eq(av, n)) || exists|t: int|
                0 <= t < 0 && npc_rooms@[t] as int == i && name_eq(nnames[t]@, n))) by {
                if i == start_room as int {
                    assert(board.rooms@[i].character_list@ == b0[i].character_list@.push(avatar0));
                }
            }
            assert(chars_placed(board.rooms@, av, start_room as int, nnames, npc_rooms@, 0));
            assert(items_placed(board.rooms@, inames, item_rooms@, 0)) by {
                assert forall|i: int, n: Seq<char>|
                    0 <= i < board.rooms@.len() implies !(#[trigger] contains_name(
                    board.rooms@[i].item_list@,
                    n,
                )) by {
                    assert(board.rooms@[i].item_list@ == b0[i].item_list@);
                }
            }
            assert(rooms_distinct(board.rooms@)) by {
                assert forall|i: int| 0 <= i < board.rooms@.len() implies distinct_names(
                    (#[trigger] board.rooms@[i]).item_list@,
                ) && distinct_names(board.rooms@[i].character_list@) by {
                    crate::entity::lemma_distinct_push(b0[i].character_list@, avatar0);
                }
            }
        }
        let mut k: usize = 0;
        while k < npc_names.len()
            invariant
                k <= nnames.len(),
                nnames == npc_names@,
                inames == item_names@,
                start_room < b0.len(),
                board.rooms@.len() == b0.len(),
                board.side == side0,
                npc_rooms@.len() == nnames.len(),
                forall|t: int| 0 <= t < npc_rooms@.len() ==> (#[trigger] npc_rooms@[t]) < b0.len(),
                names_distinct(setup_names(inames, nnames, av)),
                forall|i: int|
                    0 <= i < board.rooms@.len() ==> same_room_shell(
                        #[trigger] board.rooms@[i],
                        b0[i],
                    ),
                chars_placed(board.rooms@, av, start_room as int, nnames, npc_rooms@, k as int),
                items_placed(board.rooms@, inames, item_rooms@, 0),
                rooms_distinct(board.rooms@),
            decreases nnames.len() - k,
        {
            let e = Entity::new(npc_names[k].clone());
            let ghost ev = e;
            let ri = npc_rooms[k];
            let ghost pre = board.rooms@;
            let slot = &mut board.rooms[ri];
            Entity::push_entity(&mut slot.character_list, e);
            proof {
                lemma_setup_names_index(inames, nnames, av);
                assert(ev.name@ == nnames[k as int]@);
                crate::entity::lemma_contains_push(pre[ri as int].character_list@, ev);
                assert(!contains_name(pre[ri as int].character_list@, ev.name@)) by {
                    if contains_name(pre[ri as int].character_list@, ev.name@) {
                        if ri as int == start_room as int && name_eq(av, ev.name@) {
                            lemma_same_source(
                                inames,
                                nnames,
                                av,
                                inames.len() + nnames.len() as int,
                                inames.len() + k,
                                ev.name@,
                            );
                            assert(false);
                        } else {
                            let t = choose|t: int|
                                0 <= t < k && npc_rooms@[t] as int == ri as int && name_eq(
                                    nnames[t]@,
                                    ev.name@,
                                );
                            lemma_same_source(
                                inames,
                                nnames,
                                av,
                                inames.len() + t,
                                inames.len() + k,
                                ev.name@,
                            );
                            assert(false);
                        }
                    }
                }
                crate::entity::lemma_distinct_push(pre[ri as int].character_list@, ev);
                assert forall|i: int, n: Seq<char>| 0 <= i < board.rooms@.len() implies (
                #[trigger] contains_name(board.rooms@[i].character_list@, n) <==> ((i
                    == start_room as int && name_eq(av, n)) || exists|t: int|
                    0 <= t < k + 1 && npc_rooms@[t] as int == i && name_eq(nnames[t]@, n))) by {
                    if i == ri as int {
                        assert(board.rooms@[i].character_list@ == pre[i].character_list@.push(ev));
                        if contains_name(board.rooms@[i].character_list@, n) {
                            if name_eq(ev.name@, n) {
                                assert(npc_rooms@[k as int] as int == i && name_eq(nnames[k as int]@, n));
                            }
                        }
                        if exists|t: int|
                            0 <= t < k + 1 && npc_rooms@[t] as int == i && name_eq(nnames[t]@, n) {
                            let t = choose|t: int|
                                0 <= t < k + 1 && npc_rooms@[t] as int == i && name_eq(
                                    nnames[t]@,
                                    n,
                                );
                            if t < k {
                                assert(contains_name(pre[i].character_list@, n));
                            } else {
                                assert(name_eq(ev.name@, n));
                            }
                        }
                    } else {
                        assert(board.rooms@[i].character_list@ == pre[i].character_list@);
                    }
                }
                assert(chars_placed(
                    board.rooms@,
                    av,
                    start_room as int,
                    nnames,
                    npc_rooms@,
                    k + 1 as int,
                ));
                assert(items_placed(board.rooms@, inames, item_rooms@, 0)) by {
                    assert forall|i: int, n: Seq<char>|
                        0 <= i < board.rooms@.len() implies !(#[trigger] contains_name(
                        board.rooms@[i].item_list@,
                        n,
                    )) by {
                        assert(board.rooms@[i].item_list@ == pre[i].item_list@);
                        assert(!contains_name(pre[i].item_list@, n));
                    }
                }
                assert(rooms_distinct(board.rooms@)) by {
                    assert forall|i: int| 0 <= i < board.rooms@.len() implies distinct_names(
                        (#[trigger] board.rooms@[i]).item_list@,
                    ) && distinct_names(board.rooms@[i].character_list@) by {
                        if i != ri as int {
                            assert(board.rooms@[i] == pre[i]);
                        }
                    }
                }
            }
            k = k + 1;
        }
        let mut k2: usize = 0;
        while k2 < item_names.len()
            invariant
                k2 <= inames.len(),
                nnames == npc_names@,
                inames == item_names@,
                start_room < b0.len(),
                board.rooms@.len() == b0.len(),
                board.side == side0,
                item_rooms@.len() == inames.len(),
                npc_rooms@.len() == nnames.len(),
                forall|t: int| 0 <= t < item_rooms@.len() ==> (#[trigger] item_rooms@[t]) < b0.len(),
                names_distinct(setup_names(inames, nnames, av)),
                forall|i: int|
                    0 <= i < board.rooms@.len() ==> same_room_shell(
                        #[trigger] board.rooms@[i],
                        b0[i],
                    ),
                chars_placed(
                    board.rooms@,
                    av,
                    start_room as int,
                    nnames,
                    npc_rooms@,
                    nnames.len() as int,
                ),
                items_placed(board.rooms@, inames, item_rooms@, k2 as int),
                rooms_distinct(board.rooms@),
            decreases inames.len() - k2,
        {
            let e = Entity::new(item_names[k2].clone());
            let ghost ev = e;
            let ri = item_rooms[k2];
            let ghost pre = board.rooms@;
            let slot = &mut board.rooms[ri];
            Entity::push_entity(&mut slot.item_list, e);
            proof {
                lemma_setup_names_index(inames, nnames, av);
                assert(ev.name@ == inames[k2 as int]@);
                crate::entity::lemma_contains_push(pre[ri as int].item_list@, ev);
                assert(!contains_name(pre[ri as int].item_list@, ev.name@)) by {
                    if contains_name(pre[ri as int].item_list@, ev.name@) {
                        let t = choose|t: int|
                            0 <= t < k2 && item_rooms@[t] as int == ri as int && name_eq(
                                inames[t]@,
                                ev.name@,
                            );
                        lemma_same_source(inames, nnames, av, t, k2 as int, ev.name@);
                        assert(false);
                    }
                }
                crate::entity::lemma_distinct_push(pre[ri as int].item_list@, ev);
                assert forall|i: int, n: Seq<char>| 0 <= i < board.rooms@.len() implies (
                #[trigger] contains_name(board.rooms@[i].item_list@, n) <==> exists|t: int|
                    0 <= t < k2 + 1 && item_rooms@[t] as int == i && name_eq(inames[t]@, n)) by {
                    if i == ri as int {
                        assert(board.rooms@[i].item_list@ == pre[i].item_list@.push(ev));
                        if contains_name(board.rooms@[i].item_list@, n) {
                            if name_eq(ev.name@, n) {
                                assert(item_rooms@[k2 as int] as int == i && name_eq(
                                    inames[k2 as int]@,
                                    n,
                                ));
                            }
                        }
                        if exists|t: int|
                            0 <= t < k2 + 1 && item_rooms@[t] as int == i && name_eq(
                                inames[t]@,
                                n,
                            ) {
                            let t = choose|t: int|
                                0 <= t < k2 + 1 && item_rooms@[t] as int == i && name_eq(
                                    inames[t]@,
                                    n,
                                );
                            if t < k2 {
                                assert(contains_name(pre[i].item_list@, n));
                            } else {
                                assert(name_eq(ev.name@, n));
                            }
                        }
                    } else {
                        assert(board.rooms@[i].item_list@ == pre[i].item_list@);
                    }
                }
                assert(items_placed(board.rooms@, inames, item_rooms@, k2 + 1 as int));
                assert(chars_placed(
                    board.rooms@,
                    av,
                    start_room as int,
                    nnames,
                    npc_rooms@,
                    nnames.len() as int,
                )) by {
                    assert forall|i: int, n: Seq<char>| 0 <= i < board.rooms@.len() implies (
                    #[trigger] contains_name(board.rooms@[i].character_list@, n) <==> ((i
                        == start_room as int && name_eq(av, n)) || exists|t: int|
                        0 <= t < nnames.len() && npc_rooms@[t] as int == i && name_eq(
                            nnames[t]@,
                            n,
                        ))) by {
                        assert(board.rooms@[i].character_list@ == pre[i].character_list@);
                        assert(contains_name(pre[i].character_list@, n) <==> ((i
                            == start_room as int && name_eq(av, n)) || exists|t: int|
                            0 <= t < nnames.len() && npc_rooms@[t] as int == i && name_eq(
                                nnames[t]@,
                                n,
                            )));
                    }
                }
                assert(rooms_distinct(board.rooms@)) by {
                    assert forall|i: int| 0 <= i < board.rooms@.len() implies distinct_names(
                        (#[trigger] board.rooms@[i]).item_list@,
                    ) && distinct_names(board.rooms@[i].character_list@) by {
                        if i != ri as int {
                            assert(board.rooms@[i] == pre[i]);
                        }
                    }
                }
            }
            k2 = k2 + 1;
        }
        let g = Game {
            board,
            item_names,
            npc_names,
            inventory: Vec::new(),
            current_room: start_room,
            avatar_name: avname,
            solution,
            attempts_used: 0,
            status: GameStatus::Playing,
        };
        proof {
            lemma_setup_names_index(inames, nnames, av);
            assert(g.board.wf()) by {
                assert forall|idx: int|
                    0 <= idx < g.rooms().len() implies #[trigger] crate::board::lattice_links_at(
                    g.rooms()[idx],
                    idx,
                    g.board.side as int,
                    g.rooms().len() as int,
                ) by {
                    assert(crate::board::lattice_links_at(
                        b0[idx],
                        idx,
                        g.board.side as int,
                        b0.len() as int,
                    ));
                    assert(same_room_shell(g.rooms()[idx], b0[idx]));
                }
            }
            assert(g.holds(Place::Characters(start_room as int), av)) by {
                crate::names::lemma_name_eq_reflexive(av);
                assert(contains_name(g.rooms()[start_room as int].character_list@, av));
            }
            assert forall|p: Place| g.valid_place(p) implies distinct_names(
                #[trigger] g.container_at(p),
            ) by {
                match p {
                    Place::Items(t) => {},
                    Place::Characters(t) => {},
                    Place::Inventory => {},
                }
            }
            assert forall|p1: Place, p2: Place, n: Seq<char>|
                g.valid_place(p1) && g.valid_place(p2) && #[trigger] g.holds(p1, n)
                    && #[trigger] g.holds(p2, n) implies p1 == p2 by {
                let src1 = setup_src(
                    inames,
                    nnames,
                    av,
                    item_rooms@,
                    npc_rooms@,
                    start_room as int,
                    p1,
                    n,
                );
                let src2 = setup_src(
                    inames,
                    nnames,
                    av,
                    item_rooms@,
                    npc_rooms@,
                    start_room as int,
                    p2,
                    n,
                );
                lemma_setup_src(
                    g,
                    inames,
                    nnames,
                    av,
                    item_rooms@,
                    npc_rooms@,
                    start_room as int,
                    p1,
                    n,
                );
                lemma_setup_src(
                    g,
                    inames,
                    nnames,
                    av,
                    item_rooms@,
                    npc_rooms@,
                    start_room as int,
                    p2,
                    n,
                );
                lemma_same_source(inames, nnames, av, src1, src2, n);
            }
        }
        g
    }

    /// Full random setup, as the game plays it: the board is built from
    /// the room names and shuffled, the hidden solution is drawn, the
    /// player entity is placed in a random room, and the items and
    /// characters are scattered uniformly across the rooms. Fails with
    /// `ConfigurationError` exactly when the number of room names is not a
    /// perfect square, or an entity list is empty.
    pub fn new(
        room_names: Vec<String>,
        item_names: Vec<String>,
        npc_names: Vec<String>,
        avatar: Entity,
    ) -> (r: Result<Game, GameError>)
        requires
            names_distinct(setup_names(item_names@, npc_names@, avatar.name@)),
        ensures
            r is Ok <==> (crate::board::is_perfect_square(room_names@.len() as nat)
                && item_names@.len() >= 1 && npc_names@.len() >= 1),
            r is Err ==> r == Err::<Game, GameError>(GameError::ConfigurationError),
            r matches Ok(g) ==> {
                &&& g.wf()
                &&& g.status is Playing
                &&& g.attempts_used == 0
                &&& g.inventory@.len() == 0
                &&& g.rooms().len() == room_names@.len()
                &&& g.avatar_name@ == avatar.name@
                &&& g.item_names == item_names
                &&& g.npc_names == npc_names
                &&& g.solution.room < g.rooms().len()
                &&& exists|k: int|
                    0 <= k < item_names@.len() && g.solution.item_name@ == (
                    #[trigger] item_names@[k])@
                &&& exists|k: int|
                    0 <= k < npc_names@.len() && g.solution.character_name@ == (
                    #[trigger] npc_names@[k])@
                &&& g.owned(avatar.name@)
                &&& forall|k: int|
                    0 <= k < item_names@.len() ==> g.owned((#[trigger] item_names@[k])@)
                &&& forall|k: int|
                    0 <= k < npc_names@.len() ==> g.owned((#[trigger] npc_names@[k])@)
            },
    {
        let board = match Board::new_shuffled(room_names) {
            Ok(b) => b,
            Err(_) => {
                return Err(GameError::ConfigurationError);
            },
        };
        if item_names.len() == 0 || npc_names.len() == 0 {
            return Err(GameError::ConfigurationError);
        }
        let solution = Solution::new(&board, &item_names, &npc_names);
        let start_room = board.get_random_room();
        let mut item_rooms: Vec<usize> = Vec::new();
        let mut k: usize = 0;
        while k < item_names.len()
            invariant
                board.wf(),
                k <= item_names@.len(),
                item_rooms@.len() == k,
                forall|t: int| 0 <= t < k ==> (#[trigger] item_rooms@[t]) < board.rooms@.len(),
            decreases item_names@.len() - k,
        {
            item_rooms.push(board.get_random_room());
            k = k + 1;
        }
        let mut npc_rooms: Vec<usize> = Vec::new();
        let mut k2: usize = 0;
        while k2 < npc_names.len()
            invariant
                board.wf(),
                k2 <= npc_names@.len(),
                npc_rooms@.len() == k2,
                forall|t: int| 0 <= t < k2 ==> (#[trigger] npc_rooms@[t]) < board.rooms@.len(),
            decreases npc_names@.len() - k2,
        {
            npc_rooms.push(board.get_random_room());
            k2 = k2 + 1;
        }
        let ghost inames = item_names@;
        let ghost nnames = npc_names@;
        let ghost av = avatar.name@;
        let ghost irooms = item_rooms@;
        let ghost nrooms = npc_rooms@;
        let g = Game::setup(
            board,
            item_names,
            npc_names,
            avatar,
            start_room,
            item_rooms,
            npc_rooms,
            solution,
        );
        proof {
            assert(g.owned(av)) by {
                assert(g.holds(Place::Characters(start_room as int), av));
                assert(g.valid_place(Place::Characters(start_room as int)));
            }
            assert forall|t: int| 0 <= t < inames.len() implies g.owned((#[trigger] inames[t])@) by {
                crate::names::lemma_name_eq_reflexive(inames[t]@);
                let p = Place::Items(irooms[t] as int);
                assert(contains_name(g.rooms()[irooms[t] as int].item_list@, inames[t]@));
                assert(g.holds(p, inames[t]@) && g.valid_place(p));
            }
            assert forall|t: int| 0 <= t < nnames.len() implies g.owned((#[trigger] nnames[t])@) by {
                crate::names::lemma_name_eq_reflexive(nnames[t]@);
                let p = Place::Characters(nrooms[t] as int);
                assert(contains_name(g.rooms()[nrooms[t] as int].character_list@, nnames[t]@));
                assert(g.holds(p, nnames[t]@) && g.valid_place(p));
            }
        }
        Ok(g)
    }

    /// The debug view of the hidden solution.
    pub fn reveal_solution(&self) -> (v: SolutionView)
        requires
            self.wf(),
        ensures
            v.room_name@ == self.rooms()[self.solution.room as int].name@,
            v.item_name@ == self.solution.item_name@,
            v.character_name@ == self.solution.character_name@,
    {
        SolutionView {
            room_name: self.board.rooms[self.solution.room].name.clone(),
            item_name: self.solution.item_name.clone(),
            character_name: self.solution.character_name.clone(),
        }
    }
}

/// Two rooms that agree on everything but their character container.
pub open spec fn same_except_characters(a: Room, b: Room) -> bool {
    &&& a.name == b.name
    &&& a.north == b.north
    &&& a.south == b.south
    &&& a.east == b.east
    &&& a.west == b.west
    &&& a.item_list == b.item_list
}

/// Two rooms that agree on everything but their item container.
pub open spec fn same_except_items(a: Room, b: Room) -> bool {
    &&& a.name == b.name
    &&& a.north == b.north
    &&& a.south == b.south
    &&& a.east == b.east
    &&& a.west == b.west
    &&& a.character_list == b.character_list
}

/// The names of every entity a game is set up with: the items, then the
/// characters, then the player entity.
pub open spec fn setup_names(
    item_names: Seq<String>,
    npc_names: Seq<String>,
    avatar: Seq<char>,
) -> Seq<Seq<char>> {
    crate::board::views(item_names) + crate::board::views(npc_names) + seq![avatar]
}

/// No two of the names denote the same entity.
pub open spec fn names_distinct(s: Seq<Seq<char>>) -> bool {
    forall|i: int, j: int| 0 <= i < j < s.len() ==> !name_eq(s[i], s[j])
}

/// Two rooms that agree on their name and their four links.
pub open spec fn same_room_shell(a: Room, b: Room) -> bool {
    &&& a.name == b.name
    &&& a.north == b.north
    &&& a.south == b.south
    &&& a.east == b.east
    &&& a.west == b.west
}

/// The first `k` items have been scattered: a room's item container holds
/// a name exactly when some already-placed item bears it and was sent to
/// that room.
pub open spec fn items_placed(
    rooms: Seq<Room>,
    item_names: Seq<String>,
    item_rooms: Seq<usize>,
    k: int,
) -> bool {
    forall|i: int, n: Seq<char>|
        0 <= i < rooms.len() ==> (#[trigger] contains_name(rooms[i].item_list@, n) <==> exists|
            t: int,
        |
            0 <= t < k && item_rooms[t] as int == i && name_eq(item_names[t]@, n))
}

/// The player entity and the first `k` characters have been placed: a
/// room's character container holds a name exactly when it is the player
/// entity's name and the room is the start room, or some already-placed
/// character bears it and was sent to that room.
pub open spec fn chars_placed(
    rooms: Seq<Room>,
    avatar: Seq<char>,
    start: int,
    npc_names: Seq<String>,
    npc_rooms: Seq<usize>,
    k: int,
) -> bool {
    forall|i: int, n: Seq<char>|
        0 <= i < rooms.len() ==> (#[trigger] contains_name(rooms[i].character_list@, n) <==> ((i
            == start && name_eq(avatar, n)) || exists|t: int|
            0 <= t < k && npc_rooms[t] as int == i && name_eq(npc_names[t]@, n)))
}

/// Every container of every room is name-unique.
pub open spec fn rooms_distinct(rooms: Seq<Room>) -> bool {
    forall|i: int|
        0 <= i < rooms.len() ==> distinct_names((#[trigger] rooms[i]).item_list@) && distinct_names(
            rooms[i].character_list@,
        )
}

/// Under distinct setup names, a name can match at most one source: two
/// positions of the setup-name list that both match `n` coincide.
proof fn lemma_same_source(
    item_names: Seq<String>,
    npc_names: Seq<String>,
    av: Seq<char>,
    a: int,
    b: int,
    n: Seq<char>,
)
    requires
        names_distinct(setup_names(item_names, npc_names, av)),
        0 <= a < setup_names(item_names, npc_names, av).len(),
        0 <= b < setup_names(item_names, npc_names, av).len(),
        name_eq(setup_names(item_names, npc_names, av)[a], n),
        name_eq(setup_names(item_names, npc_names, av)[b], n),
    ensures
        a == b,
{
    let s = setup_names(item_names, npc_names, av);
    crate::names::lemma_name_eq_symmetric(s[b], n);
    crate::names::lemma_name_eq_transitive(s[a], n, s[b]);
    crate::names::lemma_name_eq_symmetric(s[a], s[b]);
    if a < b {
        assert(!name_eq(s[a], s[b]));
        assert(false);
    } else if b < a {
        assert(!name_eq(s[b], s[a]));
        assert(false);
    }
}

/// Where each setup name sits in the combined list: items first, then
/// characters, then the player entity.
proof fn lemma_setup_names_index(item_names: Seq<String>, npc_names: Seq<String>, av: Seq<char>)
    ensures
        setup_names(item_names, npc_names, av).len() == item_names.len() + npc_names.len() + 1,
        forall|t: int|
            0 <= t < item_names.len() ==> #[trigger] setup_names(item_names, npc_names, av)[t]
                == item_names[t]@,
        forall|u: int|
            0 <= u < npc_names.len() ==> #[trigger] setup_names(item_names, npc_names, av)[
                item_names.len() + u
            ] == npc_names[u]@,
        setup_names(item_names, npc_names, av)[item_names.len() + npc_names.len() as int] == av,
{
    let s = setup_names(item_names, npc_names, av);
    assert forall|t: int| 0 <= t < item_names.len() implies #[trigger] s[t] == item_names[t]@ by {
        assert(s[t] == crate::board::views(item_names)[t]);
    }
    assert forall|u: int|
        0 <= u < npc_names.len() implies #[trigger] s[item_names.len() + u] == npc_names[u]@ by {
        assert(s[item_names.len() + u] == crate::board::views(npc_names)[u]);
    }
    assert(s[item_names.len() + npc_names.len() as int] == seq![av][0]);
}

/// The position, among the setup names, of the entity that explains why
/// the container at `p` holds a name `n` right after setup.
pub open spec fn setup_src(
    inames: Seq<String>,
    nnames: Seq<String>,
    av: Seq<char>,
    item_rooms: Seq<usize>,
    npc_rooms: Seq<usize>,
    start: int,
    p: Place,
    n: Seq<char>,
) -> int {
    match p {
        Place::Items(i) => choose|t: int|
            0 <= t < inames.len() && item_rooms[t] as int == i && name_eq(inames[t]@, n),
        Place::Characters(i) => if exists|u: int|
            0 <= u < nnames.len() && npc_rooms[u] as int == i && name_eq(nnames[u]@, n) {
            inames.len() + (choose|u: int|
                0 <= u < nnames.len() && npc_rooms[u] as int == i && name_eq(nnames[u]@, n))
        } else {
            inames.len() + nnames.len() as int
        },
        Place::Inventory => -1,
    }
}

/// Right after setup, a held name traces back to exactly one setup
/// entity, and that entity's placement determines the container.
proof fn lemma_setup_src(
    g: Game,
    inames: Seq<String>,
    nnames: Seq<String>,
    av: Seq<char>,
    item_rooms: Seq<usize>,
    npc_rooms: Seq<usize>,
    start: int,
    p: Place,
    n: Seq<char>,
)
    requires
        items_placed(g.rooms(), inames, item_rooms, inames.len() as int),
        chars_placed(g.rooms(), av, start, nnames, npc_rooms, nnames.len() as int),
        g.inventory@.len() == 0,
        item_rooms.len() == inames.len(),
        npc_rooms.len() == nnames.len(),
        g.valid_place(p),
        g.holds(p, n),
    ensures
        ({
            let src = setup_src(inames, nnames, av, item_rooms, npc_rooms, start, p, n);
            &&& 0 <= src < setup_names(inames, nnames, av).len()
            &&& name_eq(setup_names(inames, nnames, av)[src], n)
            &&& match p {
                Place::Items(i) => src < inames.len() && item_rooms[src] as int == i,
                Place::Characters(i) => if src < inames.len() {
                    false
                } else if src < inames.len() + nnames.len() {
                    npc_rooms[src - inames.len()] as int == i
                } else {
                    i == start
                },
                Place::Inventory => false,
            }
        }),
{
    lemma_setup_names_index(inames, nnames, av);
    let src = setup_src(inames, nnames, av, item_rooms, npc_rooms, start, p, n);
    match p {
        Place::Items(i) => {
            assert(contains_name(g.rooms()[i].item_list@, n));
            assert(exists|t: int|
                0 <= t < inames.len() && item_rooms[t] as int == i && name_eq(inames[t]@, n));
        },
        Place::Characters(i) => {
            assert(contains_name(g.rooms()[i].character_list@, n));
            if exists|u: int|
                0 <= u < nnames.len() && npc_rooms[u] as int == i && name_eq(nnames[u]@, n) {
                let u = choose|u: int|
                    0 <= u < nnames.len() && npc_rooms[u] as int == i && name_eq(nnames[u]@, n);
                assert(src == inames.len() + u);
            } else {
                assert(i == start && name_eq(av, n));
            }
        },
        Place::Inventory => {
            assert(contains_name(g.inventory@, n));
            assert(false);
        },
    }
}

/// Two game states with the very same containers own the same names and
/// stand or fall together under the single-ownership discipline.
proof fn lemma_owned_same_containers(g0: Game, g1: Game)
    requires
        g1.rooms().len() == g0.rooms().len(),
        forall|p: Place| g1.valid_place(p) ==> #[trigger] g1.container_at(p) == g0.container_at(p),
    ensures
        forall|n: Seq<char>| g1.owned(n) <==> g0.owned(n),
        g0.ownership_ok() ==> g1.ownership_ok(),
{
    assert forall|n: Seq<char>| g1.owned(n) <==> g0.owned(n) by {
        if g1.owned(n) {
            let p = choose|p: Place| g1.valid_place(p) && g1.holds(p, n);
            assert(g0.holds(p, n) && g0.valid_place(p));
        }
        if g0.owned(n) {
            let p = choose|p: Place| g0.valid_place(p) && g0.holds(p, n);
            assert(g1.container_at(p) == g0.container_at(p));
            assert(g1.holds(p, n) && g1.valid_place(p));
        }
    }
    if g0.ownership_ok() {
        assert forall|p: Place| g1.valid_place(p) implies distinct_names(
            #[trigger] g1.container_at(p),
        ) by {
            assert(g1.container_at(p) == g0.container_at(p));
        }
        assert forall|p1: Place, p2: Place, n: Seq<char>|
            g1.valid_place(p1) && g1.valid_place(p2) && #[trigger] g1.holds(p1, n)
                && #[trigger] g1.holds(p2, n) implies p1 == p2 by {
            assert(g1.container_at(p1) == g0.container_at(p1));
            assert(g1.container_at(p2) == g0.container_at(p2));
            assert(g0.holds(p1, n) && g0.holds(p2, n));
        }
    }
}

/// Moving one entity between two containers keeps the single-ownership
/// discipline and keeps the set of owned names: when `g1` differs from
/// `g0` only in that the entity at position `i` of the container at `pa`
/// has been removed there and appended to the container at `pb`, `g1`
/// obeys the discipline again, and every name owned before is owned
/// after, nothing more.
proof fn lemma_ownership_transfer(g0: Game, g1: Game, pa: Place, pb: Place, i: int)
    requires
        g0.ownership_ok(),
        g0.valid_place(pa),
        g0.valid_place(pb),
        pa != pb,
        0 <= i < g0.container_at(pa).len(),
        g1.rooms().len() == g0.rooms().len(),
        g1.container_at(pa) == g0.container_at(pa).remove(i),
        g1.container_at(pb) == g0.container_at(pb).push(g0.container_at(pa)[i]),
        forall|p: Place|
            g0.valid_place(p) && p != pa && p != pb ==> #[trigger] g1.container_at(p)
                == g0.container_at(p),
    ensures
        g1.ownership_ok(),
        forall|n: Seq<char>| g1.owned(n) <==> g0.owned(n),
{
    let e = g0.container_at(pa)[i];
    let en = e.name@;
    let ca0 = g0.container_at(pa);
    let cb0 = g0.container_at(pb);
    assert(distinct_names(ca0));
    assert(distinct_names(cb0));
    assert(contains_name(ca0, en)) by {
        crate::names::lemma_name_eq_reflexive(en);
        assert(name_eq(ca0[i].name@, en));
    }
    assert(g0.holds(pa, en));
    assert(!contains_name(cb0, en)) by {
        if contains_name(cb0, en) {
            assert(g0.holds(pb, en) && g0.holds(pa, en));
        }
    }
    crate::entity::lemma_distinct_remove(ca0, i);
    crate::entity::lemma_contains_push(cb0, e);
    crate::entity::lemma_distinct_push(cb0, e);

    // every container of g1 is name-unique
    assert forall|p: Place| g1.valid_place(p) implies distinct_names(
        #[trigger] g1.container_at(p),
    ) by {
        assert(g0.valid_place(p));
        if p == pa {
        } else if p == pb {
        } else {
            assert(g1.container_at(p) == g0.container_at(p));
        }
    }
    // a name held at a place of g1, traced back to g0
    assert forall|p: Place, n: Seq<char>|
        g1.valid_place(p) && #[trigger] g1.holds(p, n) implies (if name_eq(en, n) {
        p == pb
    } else {
        g0.holds(p, n)
    }) by {
        assert(g0.valid_place(p));
        if p == pa {
            assert(contains_name(ca0.remove(i), n));
            assert(contains_name(ca0, n) && !name_eq(ca0[i].name@, n));
        } else if p == pb {
            assert(contains_name(cb0.push(e), n));
            if !name_eq(en, n) {
                assert(contains_name(cb0, n));
            }
        } else {
            assert(g1.container_at(p) == g0.container_at(p));
            if name_eq(en, n) {
                assert(g0.holds(p, n) && g0.holds(pa, en));
                assert(contains_name(g0.container_at(p), n));
                let j = choose|j: int|
                    0 <= j < g0.container_at(p).len() && name_eq(g0.container_at(p)[j].name@, n);
                assert(name_eq(g0.container_at(p)[j].name@, en));
                assert(g0.holds(p, en));
                assert(p == pa);
                assert(false);
            }
        }
    }
    // no name in two places of g1
    assert forall|p1: Place, p2: Place, n: Seq<char>|
        g1.valid_place(p1) && g1.valid_place(p2) && #[trigger] g1.holds(p1, n)
            && #[trigger] g1.holds(p2, n) implies p1 == p2 by {
        if name_eq(en, n) {
            assert(p1 == pb && p2 == pb);
        } else {
            assert(g0.holds(p1, n) && g0.holds(p2, n));
            assert(g0.valid_place(p1) && g0.valid_place(p2));
        }
    }
    // the owned names are unchanged
    assert forall|n: Seq<char>| g1.owned(n) <==> g0.owned(n) by {
        if name_eq(en, n) {
            assert(g0.holds(pa, n)) by {
                assert(name_eq(ca0[i].name@, n));
            }
            assert(g0.owned(n));
            assert(g1.holds(pb, n)) by {
                assert(contains_name(cb0.push(e), n)) by {
                    assert(name_eq(e.name@, n));
                }
            }
            assert(g1.valid_place(pb));
            assert(g1.owned(n));
        } else {
            if g1.owned(n) {
                let p = choose|p: Place| g1.valid_place(p) && g1.holds(p, n);
                assert(g0.holds(p, n));
                assert(g0.owned(n));
            }
            if g0.owned(n) {
                let p = choose|p: Place| g0.valid_place(p) && g0.holds(p, n);
                if p == pa {
                    if name_eq(ca0[i].name@, n) {
                        assert(name_eq(en, n));
                        assert(false);
                    }
                    assert(contains_name(ca0.remove(i), n));
                    assert(g1.holds(pa, n));
                    assert(g1.valid_place(pa));
                } else if p == pb {
                    assert(contains_name(cb0.push(e), n));
                    assert(g1.holds(pb, n));
                    assert(g1.valid_place(pb));
                } else {
                    assert(g1.container_at(p) == g0.container_at(p));
                    assert(g1.holds(p, n));
                    assert(g1.valid_place(p));
                }
                assert(g1.owned(n));
            }
        }
    }
}

/// Single ownership: in a well-formed game, a name held by two containers
/// is held by the same container — every entity lives in exactly one
/// place. Each operation's contract keeps `wf` and the set of owned
/// names, so this holds at every point after setup, through any sequence
/// of `go`, `take`, `drop` and `summon`.
pub proof fn lemma_single_ownership(g: Game, p1: Place, p2: Place, n: Seq<char>)
    requires
        g.wf(),
        g.valid_place(p1),
        g.valid_place(p2),
        g.holds(p1, n),
        g.holds(p2, n),
    ensures
        p1 == p2,
{
}

/// Round trip of `take` then `drop`: taking the first item named `n` out
/// of the current room and dropping it straight back leaves the inventory
/// exactly as it was — the slot it passed through is emptied again — and
/// leaves the room's item container with the same items as before, the
/// taken one now at the end. Single ownership guarantees that the
/// inventory held no item of that name, so the reverse move picks exactly
/// the taken entity.
pub proof fn lemma_take_drop_round_trip(g: Game, n: Seq<char>, i: int)
    requires
        g.wf(),
        first_match(g.rooms()[g.current_room as int].item_list@, n, i),
    ensures
        ({
            let items0 = g.rooms()[g.current_room as int].item_list@;
            let inv0 = g.inventory@;
            let items1 = items0.remove(i);
            let inv1 = inv0.push(items0[i]);
            &&& first_match(inv1, n, inv0.len() as int)
            &&& inv1.remove(inv0.len() as int) == inv0
            &&& items1.push(items0[i]).to_multiset() == items0.to_multiset()
            &&& forall|m: Seq<char>|
                contains_name(items1.push(items0[i]), m) <==> contains_name(items0, m)
        }),
{
    let cur = g.current_room as int;
    let items0 = g.rooms()[cur].item_list@;
    let inv0 = g.inventory@;
    assert(!contains_name(inv0, n)) by {
        if contains_name(inv0, n) {
            assert(g.holds(Place::Inventory, n));
            assert(g.holds(Place::Items(cur), n)) by {
                assert(name_eq(items0[i].name@, n));
            }
            assert(Place::Inventory == Place::Items(cur));
            assert(false);
        }
    }
    crate::entity::lemma_move_round_trip(items0, inv0, n, i);
}

} // verus!
