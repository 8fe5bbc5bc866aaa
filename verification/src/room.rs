use vstd::prelude::*;
use vstd::string::*;

use crate::entity::{list_text, Entity};
use crate::names::str_eq;

verus! {

/// A direction token as the player types it; anything that is not one of
/// the four cardinal directions parses to `Invalid`.
#[derive(Debug, Clone, Copy, PartialEq, Eq, Structural)]
pub enum Direction {
    North,
    South,
    East,
    West,
    Invalid,
}

/// The direction a given command token denotes.
pub open spec fn spec_direction(s: Seq<char>) -> Direction {
    if s == "north"@ {
        Direction::North
    } else if s == "south"@ {
        Direction::South
    } else if s == "east"@ {
        Direction::East
    } else if s == "west"@ {
        Direction::West
    } else {
        Direction::Invalid
    }
}

/// The direction that leads straight back.
pub open spec fn spec_opposite(d: Direction) -> Direction {
    match d {
        Direction::North => Direction::South,
        Direction::South => Direction::North,
        Direction::East => Direction::West,
        Direction::West => Direction::East,
        Direction::Invalid => Direction::Invalid,
    }
}

impl Direction {
    /// Parses a command token into a direction.
    pub fn get_direction(buffer: &str) -> (r: Direction)
        ensures
            r == spec_direction(buffer@),
    {
        if str_eq(buffer, "north") {
            return Direction::North;
        }
        if str_eq(buffer, "south") {
            return Direction::South;
        }
        if str_eq(buffer, "east") {
            return Direction::East;
        }
        if str_eq(buffer, "west") {
            return Direction::West;
        }
        Direction::Invalid
    }

    /// The direction that leads straight back.
    pub fn opposite(self) -> (r: Direction)
        ensures
            r == spec_opposite(self),
    {
        match self {
            Direction::North => Direction::South,
            Direction::South => Direction::North,
            Direction::East => Direction::West,
            Direction::West => Direction::East,
            Direction::Invalid => Direction::Invalid,
        }
    }
}

/// One node of the board: a named room, its four optional neighbor links
/// (indices into the board's room arena), and the entities it holds.
#[derive(Debug)]
pub struct Room {
    pub name: String,
    pub north: Option<usize>,
    pub south: Option<usize>,
    pub east: Option<usize>,
    pub west: Option<usize>,
    pub item_list: Vec<Entity>,
    pub character_list: Vec<Entity>,
}

impl Room {
    /// The neighbor link of this room in the given direction.
    pub open spec fn neighbor(self, d: Direction) -> Option<usize> {
        match d {
            Direction::North => self.north,
            Direction::South => self.south,
            Direction::East => self.east,
            Direction::West => self.west,
            Direction::Invalid => None,
        }
    }

    /// Every neighbor link of this room points inside an arena of `n` rooms.
    pub open spec fn links_in_range(self, n: nat) -> bool {
        &&& (self.north matches Some(k) ==> k < n)
        &&& (self.south matches Some(k) ==> k < n)
        &&& (self.east matches Some(k) ==> k < n)
        &&& (self.west matches Some(k) ==> k < n)
    }

    /// The text one neighbor link renders to.
    pub open spec fn link_text(rooms: Seq<Room>, link: Option<usize>, label: Seq<char>) -> Seq<
        char,
    > {
        match link {
            Some(k) => " "@ + rooms[k as int].name@ + " ("@ + label + ") |"@,
            None => Seq::empty(),
        }
    }

    /// The full text of the neighbor listing, north, south, east, west.
    pub open spec fn around_text(rooms: Seq<Room>, r: Room) -> Seq<char> {
        Room::link_text(rooms, r.north, "North"@) + Room::link_text(rooms, r.south, "South"@)
            + Room::link_text(rooms, r.east, "East"@) + Room::link_text(rooms, r.west, "West"@)
    }

    /// Renders the rooms reachable from this one, with their directions.
    /// `rooms` is the arena this room's links point into.
    pub fn around(&self, rooms: &Vec<Room>) -> (r: String)
        requires
            self.links_in_range(rooms@.len()),
        ensures
            r@ == Room::around_text(rooms@, *self),
    {
        let ghost p_n = Room::link_text(rooms@, self.north, "North"@);
        let ghost p_s = Room::link_text(rooms@, self.south, "South"@);
        let ghost p_e = Room::link_text(rooms@, self.east, "East"@);
        let ghost p_w = Room::link_text(rooms@, self.west, "West"@);
        let mut s = String::new();
        if let Some(k) = self.north {
            s.append(" ");
            s.append(rooms[k].name.as_str());
            s.append(" (");
            s.append("North");
            s.append(") |");
        }
        proof {
            assert(s@ =~= p_n);
        }
        if let Some(k) = self.south {
            s.append(" ");
            s.append(rooms[k].name.as_str());
            s.append(" (");
            s.append("South");
            s.append(") |");
        }
        proof {
            assert(s@ =~= p_n + p_s);
        }
        if let Some(k) = self.east {
            s.append(" ");
            s.append(rooms[k].name.as_str());
            s.append(" (");
            s.append("East");
            s.append(") |");
        }
        proof {
            assert(s@ =~= p_n + p_s + p_e);
        }
        if let Some(k) = self.west {
            s.append(" ");
            s.append(rooms[k].name.as_str());
            s.append(" (");
            s.append("West");
            s.append(") |");
        }
        proof {
            assert(s@ =~= p_n + p_s + p_e + p_w);
        }
        s
    }

    /// Renders this room's items for display.
    pub fn item_list_as_string(&self) -> (r: String)
        ensures
            self.item_list@.len() == 0 ==> r@ == "No items."@,
            self.item_list@.len() > 0 ==> r@ == list_text(self.item_list@),
    {
        Entity::entity_list_as_string(&self.item_list, "No items.")
    }

    /// Renders this room's characters for display.
    pub fn character_list_as_string(&self) -> (r: String)
        ensures
            self.character_list@.len() == 0 ==> r@ == "No characters."@,
            self.character_list@.len() > 0 ==> r@ == list_text(self.character_list@),
    {
        Entity::entity_list_as_string(&self.character_list, "No characters.")
    }
}

} // verus!
