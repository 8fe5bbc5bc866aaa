use vstd::multiset::Multiset;
use vstd::prelude::*;

use crate::entity::{contains_name, Entity};
use crate::errors::GameError;
use crate::names::{eq_ignore_case, name_eq};
use crate::rng::random_below;
use crate::room::{spec_opposite, Direction, Room};

verus! {

/// `n` is a square of a positive side length.
pub open spec fn is_perfect_square(n: nat) -> bool {
    exists|k: nat| 1 <= k && #[trigger] (k * k) == n
}

/// The four neighbor links a room at position `idx` of a row-major
/// `side x side` grid of `n` rooms must carry: plain lattice adjacency,
/// no wraparound.
pub open spec fn lattice_links_at(r: Room, idx: int, side: int, n: int) -> bool {
    &&& r.north == (if idx >= side {
        Some((idx - side) as usize)
    } else {
        None::<usize>
    })
    &&& r.south == (if idx + side < n {
        Some((idx + side) as usize)
    } else {
        None::<usize>
    })
    &&& r.east == (if idx % side + 1 < side {
        Some((idx + 1) as usize)
    } else {
        None::<usize>
    })
    &&& r.west == (if idx % side > 0 {
        Some((idx - 1) as usize)
    } else {
        None::<usize>
    })
}

/// The character sequences behind a sequence of strings.
pub open spec fn views(s: Seq<String>) -> Seq<Seq<char>> {
    s.map_values(|x: String| x@)
}

/// The names of a sequence of rooms, in order.
pub open spec fn room_names_of(rooms: Seq<Room>) -> Seq<Seq<char>> {
    rooms.map_values(|r: Room| r.name@)
}

/// The side length of the square grid with `n` cells, when there is one.
fn grid_side(n: usize) -> (r: Option<usize>)
    ensures
        match r {
            Some(k) => 1 <= k && k * k == n,
            None => !is_perfect_square(n as nat),
        },
{
    if n == 0 {
        proof {
            assert forall|k: nat| 1 <= k implies #[trigger] (k * k) != n as nat by {
                assert(k * k >= 1) by (nonlinear_arith)
                    requires
                        k >= 1,
                ;
            }
        }
        return None;
    }
    let mut k: usize = 1;
    loop
        invariant
            1 <= k <= n,
            forall|j: int| 1 <= j < k ==> #[trigger] (j * j) != n,
        decreases n - k,
    {
        proof {
            vstd::arithmetic::div_mod::lemma_fundamental_div_mod(n as int, k as int);
            vstd::arithmetic::div_mod::lemma_mod_bound(n as int, k as int);
        }
        if k > n / k {
            proof {
                let q = n as int / k as int;
                let r = n as int % k as int;
                assert((k as int) * (k as int) > n) by (nonlinear_arith)
                    requires
                        n as int == k as int * q + r,
                        0 <= r < k as int,
                        q < k as int,
                ;
                assert forall|j: nat| 1 <= j implies #[trigger] (j * j) != n as nat by {
                    if j < k {
                        assert((j as int) * (j as int) != n);
                    } else {
                        assert(j * j >= (k as nat) * (k as nat)) by (nonlinear_arith)
                            requires
                                j >= k,
                        ;
                    }
                }
            }
            return None;
        }
        proof {
            let q = n as int / k as int;
            let r = n as int % k as int;
            assert((k as int) * (k as int) <= n) by (nonlinear_arith)
                requires
                    n as int == k as int * q + r,
                    0 <= r,
                    k as int <= q,
            ;
        }
        let sq = k * k;
        if sq == n {
            return Some(k);
        }
        proof {
            assert(k < n) by (nonlinear_arith)
                requires
                    1 <= k,
                    (k as int) * (k as int) < n,
            ;
        }
        k = k + 1;
    }
}

proof fn lemma_views_empty_multiset()
    ensures
        views(Seq::<String>::empty()).to_multiset() == Multiset::<Seq<char>>::empty(),
{
    broadcast use vstd::seq_lib::group_to_multiset_ensures;

    assert(views(Seq::<String>::empty()) =~= Seq::<Seq<char>>::empty());
    assert forall|x: Seq<char>| views(Seq::<String>::empty()).to_multiset().count(x) == 0 by {
        assert(!views(Seq::<String>::empty()).contains(x));
    }
    assert(views(Seq::<String>::empty()).to_multiset() =~= Multiset::<Seq<char>>::empty());
}

proof fn lemma_add_empty(m: Multiset<Seq<char>>)
    ensures
        Multiset::<Seq<char>>::empty().add(m) == m,
        m.add(Multiset::<Seq<char>>::empty()) == m,
{
    broadcast use vstd::multiset::group_multiset_axioms;

    assert(Multiset::<Seq<char>>::empty().add(m) =~= m);
    assert(m.add(Multiset::<Seq<char>>::empty()) =~= m);
}

proof fn lemma_multiset_transfer(a: Multiset<Seq<char>>, b: Multiset<Seq<char>>, x: Seq<char>)
    requires
        b.count(x) > 0,
    ensures
        a.insert(x).add(b.remove(x)) == a.add(b),
{
    broadcast use vstd::multiset::group_multiset_axioms;

    assert(a.insert(x).add(b.remove(x)) =~= a.add(b));
}

proof fn lemma_count_of_member(s: Seq<Seq<char>>, i: int)
    requires
        0 <= i < s.len(),
    ensures
        s.to_multiset().count(s[i]) > 0,
{
    broadcast use vstd::seq_lib::group_to_multiset_ensures;

    assert(s.contains(s[i]));
}

proof fn lemma_views_subrange(s: Seq<String>, a: int, c: int)
    requires
        0 <= a <= c <= s.len(),
    ensures
        views(s).subrange(a, c) == views(s.subrange(a, c)),
{
    assert(views(s).subrange(a, c) =~= views(s.subrange(a, c)));
}

proof fn lemma_views_remove(s: Seq<String>, i: int)
    requires
        0 <= i < s.len(),
    ensures
        views(s.remove(i)) == views(s).remove(i),
{
    assert(views(s.remove(i)) =~= views(s).remove(i));
}

proof fn lemma_views_push_subrange(s: Seq<String>, a: int, x: String)
    requires
        0 <= a <= s.len(),
    ensures
        views(s.push(x).subrange(a, s.len() as int + 1)) == views(s.subrange(a, s.len() as int)).push(x@),
{
    assert(views(s.push(x).subrange(a, s.len() as int + 1)) =~= views(
        s.subrange(a, s.len() as int),
    ).push(x@));
}

proof fn lemma_subrange_of_push(s: Seq<String>, x: String, a: int, c: int)
    requires
        0 <= a <= c <= s.len(),
    ensures
        s.push(x).subrange(a, c) == s.subrange(a, c),
{
    assert(s.push(x).subrange(a, c) =~= s.subrange(a, c));
}

/// Permutes each row of the row-major name grid independently: the names
/// of a row are drawn one by one at random positions. Every row of the
/// result holds exactly the names of the same row of the input.
fn shuffle_names(names: &Vec<String>, side: usize) -> (r: Vec<String>)
    requires
        1 <= side,
        names@.len() == side * side,
    ensures
        r@.len() == names@.len(),
        forall|row: int|
            0 <= row < side ==> #[trigger] views(
                r@.subrange(row * side, (row + 1) * side),
            ).to_multiset() == views(names@.subrange(row * side, (row + 1) * side)).to_multiset(),
{
    broadcast use vstd::seq_lib::group_to_multiset_ensures;
    broadcast use vstd::multiset::group_multiset_axioms;

    let n = names.len();
    let mut out: Vec<String> = Vec::new();
    let mut row: usize = 0;
    while row < side
        invariant
            1 <= side,
            n == names@.len(),
            n == side * side,
            row <= side,
            out@.len() == row * side,
            forall|t: int|
                0 <= t < row ==> #[trigger] views(
                    out@.subrange(t * side, (t + 1) * side),
                ).to_multiset() == views(
                    names@.subrange(t * side, (t + 1) * side),
                ).to_multiset(),
        decreases side - row,
    {
        proof {
            assert(row * side + side <= side * side && (row + 1) * side == row * side + side)
                by (nonlinear_arith)
                requires
                    row < side,
                    1 <= side,
            ;
        }
        let base = row * side;
        let mut pool: Vec<String> = Vec::new();
        let mut j: usize = 0;
        while j < side
            invariant
                j <= side,
                pool@.len() == j,
                base + side <= n,
                n == names@.len(),
                forall|t: int| 0 <= t < j ==> #[trigger] pool@[t]@ == names@[base + t]@,
            decreases side - j,
        {
            pool.push(names[base + j].clone());
            j = j + 1;
        }
        let ghost seg = views(names@.subrange(base as int, base as int + side as int));
        proof {
            assert(views(pool@) =~= seg);
            let a = base as int;
            assert(out@.subrange(a, a) =~= Seq::<String>::empty());
            lemma_views_empty_multiset();
            lemma_add_empty(seg.to_multiset());
        }
        while pool.len() > 0
            invariant
                1 <= side,
                base == row * side,
                row < side,
                base + side <= n,
                n == names@.len(),
                out@.len() == base + side - pool@.len(),
                pool@.len() <= side,
                seg == views(names@.subrange(base as int, base as int + side as int)),
                views(out@.subrange(base as int, out@.len() as int)).to_multiset().add(
                    views(pool@).to_multiset(),
                ) == seg.to_multiset(),
                forall|t: int|
                    0 <= t < row ==> #[trigger] views(
                        out@.subrange(t * side, (t + 1) * side),
                    ).to_multiset() == views(
                        names@.subrange(t * side, (t + 1) * side),
                    ).to_multiset(),
            decreases pool@.len(),
        {
            let ghost pool0 = pool@;
            let ghost out0 = out@;
            let idx = random_below(pool.len());
            let s = pool.remove(idx);
            out.push(s);
            proof {
                let a = base as int;
                let l0 = out0.len() as int;
                let before = views(out0.subrange(a, l0)).to_multiset();
                let taken = views(pool0).to_multiset();
                assert(views(pool0)[idx as int] == s@);
                lemma_views_remove(pool0, idx as int);
                vstd::seq_lib::to_multiset_remove(views(pool0), idx as int);
                assert(views(pool@).to_multiset() == taken.remove(s@));
                lemma_views_push_subrange(out0, a, s);
                vstd::seq_lib::to_multiset_build(views(out0.subrange(a, l0)), s@);
                assert(out@.subrange(a, l0 + 1) == out0.push(s).subrange(a, l0 + 1));
                assert(views(out@.subrange(a, l0 + 1)).to_multiset() == before.insert(s@));
                lemma_count_of_member(views(pool0), idx as int);
                lemma_multiset_transfer(before, taken, s@);
                assert(views(out@.subrange(a, l0 + 1)).to_multiset().add(
                    views(pool@).to_multiset(),
                ) == seg.to_multiset());
                assert forall|t: int| 0 <= t < row implies #[trigger] views(
                    out@.subrange(t * side, (t + 1) * side),
                ).to_multiset() == views(
                    names@.subrange(t * side, (t + 1) * side),
                ).to_multiset() by {
                    vstd::arithmetic::mul::lemma_mul_nonnegative(t, side as int);
                    vstd::arithmetic::mul::lemma_mul_inequality(t, t + 1, side as int);
                    vstd::arithmetic::mul::lemma_mul_inequality(t + 1, row as int, side as int);
                    lemma_subrange_of_push(out0, s, t * side, (t + 1) * side);
                }
            }
        }
        proof {
            assert(pool@ =~= Seq::<String>::empty());
            lemma_views_empty_multiset();
            let a = base as int;
            let full = views(out@.subrange(a, a + side as int)).to_multiset();
            lemma_add_empty(full);
            assert(full == seg.to_multiset());
        }
        row = row + 1;
        proof {
            assert forall|t: int| 0 <= t < row implies #[trigger] views(
                out@.subrange(t * side, (t + 1) * side),
            ).to_multiset() == views(names@.subrange(t * side, (t + 1) * side)).to_multiset() by {
                if t == row - 1 {
                    assert(t * side == base && (t + 1) * side == base + side);
                }
            }
        }
    }
    proof {
        assert(out@.len() == side * side);
    }
    out
}

/// The full grid of rooms, stored as a row-major arena: the room at row
/// `i`, column `j` is `rooms[i * side + j]`, and neighbor links are
/// indices into the arena.
#[derive(Debug)]
pub struct Board {
    pub rooms: Vec<Room>,
    pub side: usize,
}

impl Board {
    /// The room arena forms a `side x side` lattice.
    pub open spec fn wf(self) -> bool {
        &&& 1 <= self.side
        &&& self.rooms@.len() <= usize::MAX
        &&& self.rooms@.len() == self.side * self.side
        &&& forall|idx: int|
            0 <= idx < self.rooms@.len() ==> #[trigger] lattice_links_at(
                self.rooms@[idx],
                idx,
                self.side as int,
                self.rooms@.len() as int,
            )
    }

    /// Lays the given room names out row-major on a square grid and links
    /// every cell to its grid neighbors. Fails exactly when the number of
    /// names is not a perfect square `k * k` with `k >= 1`; the rooms start
    /// with no items and no characters.
    pub fn new(room_names: Vec<String>) -> (r: Result<Board, GameError>)
        ensures
            r is Ok <==> is_perfect_square(room_names@.len() as nat),
            r is Err ==> r == Err::<Board, GameError>(GameError::ConfigurationError),
            r matches Ok(b) ==> {
                &&& b.wf()
                &&& b.rooms@.len() == room_names@.len()
                &&& forall|i: int|
                    0 <= i < b.rooms@.len() ==> (#[trigger] b.rooms@[i]).name@ == room_names@[i]@
                        && b.rooms@[i].item_list@.len() == 0 && b.rooms@[i].character_list@.len()
                        == 0
            },
    {
        let n = room_names.len();
        let side = match grid_side(n) {
            Some(k) => k,
            None => {
                return Err(GameError::ConfigurationError);
            },
        };
        let mut rooms: Vec<Room> = Vec::new();
        let mut idx: usize = 0;
        while idx < n
            invariant
                1 <= side,
                side * side == n,
                n == room_names@.len(),
                idx <= n,
                rooms@.len() == idx,
                forall|i: int|
                    0 <= i < idx ==> #[trigger] lattice_links_at(
                        rooms@[i],
                        i,
                        side as int,
                        n as int,
                    ),
                forall|i: int|
                    0 <= i < idx ==> (#[trigger] rooms@[i]).name@ == room_names@[i]@
                        && rooms@[i].item_list@.len() == 0 && rooms@[i].character_list@.len() == 0,
            decreases n - idx,
        {
            let north = if idx >= side {
                Some(idx - side)
            } else {
                None
            };
            let south = if n - idx > side {
                Some(idx + side)
            } else {
                None
            };
            let east = if idx % side + 1 < side {
                Some(idx + 1)
            } else {
                None
            };
            proof {
                if idx == 0 {
                    vstd::arithmetic::div_mod::lemma_small_mod(0nat, side as nat);
                }
            }
            let west = if idx % side > 0 {
                Some(idx - 1)
            } else {
                None
            };
            let name = room_names[idx].clone();
            rooms.push(
                Room {
                    name,
                    north,
                    south,
                    east,
                    west,
                    item_list: Vec::new(),
                    character_list: Vec::new(),
                },
            );
            idx = idx + 1;
        }
        proof {
            assert((side as nat) * (side as nat) == n as nat);
            assert(is_perfect_square(n as nat));
        }
        Ok(Board { rooms, side })
    }

    /// Like `new`, but first permutes the names within each row at random,
    /// so that logical adjacency reflects the shuffled positions, not the
    /// original name order. Each row of the resulting grid holds exactly
    /// the names of the same row of the row-major layout.
    pub fn new_shuffled(room_names: Vec<String>) -> (r: Result<Board, GameError>)
        ensures
            r is Ok <==> is_perfect_square(room_names@.len() as nat),
            r is Err ==> r == Err::<Board, GameError>(GameError::ConfigurationError),
            r matches Ok(b) ==> {
                &&& b.wf()
                &&& b.rooms@.len() == room_names@.len()
                &&& forall|row: int|
                    0 <= row < b.side ==> #[trigger] room_names_of(b.rooms@).subrange(
                        row * b.side,
                        (row + 1) * b.side,
                    ).to_multiset() == views(
                        room_names@.subrange(row * b.side, (row + 1) * b.side),
                    ).to_multiset()
                &&& forall|i: int|
                    0 <= i < b.rooms@.len() ==> (#[trigger] b.rooms@[i]).item_list@.len() == 0
                        && b.rooms@[i].character_list@.len() == 0
            },
    {
        let n = room_names.len();
        let side = match grid_side(n) {
            Some(k) => k,
            None => {
                return Err(GameError::ConfigurationError);
            },
        };
        let shuffled = shuffle_names(&room_names, side);
        let ghost shv = shuffled@;
        proof {
            assert((side as nat) * (side as nat) == shv.len() as nat);
            assert(is_perfect_square(shv.len() as nat));
        }
        let b = match Board::new(shuffled) {
            Ok(b) => b,
            Err(_) => {
                proof {
                    assert(false);
                }
                return Err(GameError::ConfigurationError);
            },
        };
        proof {
            assert(b.side == side) by (nonlinear_arith)
                requires
                    1 <= side,
                    1 <= b.side,
                    (b.side as int) * (b.side as int) == (side as int) * (side as int),
            ;
            assert(room_names_of(b.rooms@) =~= views(shv));
            assert forall|row: int| 0 <= row < b.side implies #[trigger] room_names_of(
                b.rooms@,
            ).subrange(row * b.side, (row + 1) * b.side).to_multiset() == views(
                room_names@.subrange(row * b.side, (row + 1) * b.side),
            ).to_multiset() by {
                let a = row * side;
                let c = (row + 1) * side;
                assert(views(shv.subrange(a, c)).to_multiset() == views(
                    room_names@.subrange(a, c),
                ).to_multiset());
                vstd::arithmetic::mul::lemma_mul_nonnegative(row, side as int);
                vstd::arithmetic::mul::lemma_mul_inequality(row, row + 1, side as int);
                vstd::arithmetic::mul::lemma_mul_inequality(row + 1, side as int, side as int);
                lemma_views_subrange(shv, a, c);
            }
            assert((side as nat) * (side as nat) == room_names@.len() as nat);
            assert(is_perfect_square(room_names@.len() as nat));
        }
        Ok(b)
    }

    /// Picks a room by two independent uniform draws, one over the row and
    /// one over the column. Nothing beyond membership is promised: repeated
    /// calls may well pick the same room.
    pub fn get_random_room(&self) -> (r: usize)
        requires
            self.wf(),
        ensures
            r < self.rooms@.len(),
    {
        let n = self.rooms.len();
        let i = random_below(self.side);
        let j = random_below(self.side);
        proof {
            assert(i * self.side + j < self.side * self.side) by (nonlinear_arith)
                requires
                    i < self.side,
                    j < self.side,
            ;
            assert(i * self.side + j < n);
        }
        i * self.side + j
    }

    /// Board-wide scan: the first room whose character container holds an
    /// entity named `name`, or `None` when no room does.
    pub fn find_room_for_character_by_name(&self, name: &str) -> (r: Option<usize>)
        ensures
            match r {
                Some(i) => i < self.rooms@.len() && contains_name(
                    self.rooms@[i as int].character_list@,
                    name@,
                ) && forall|j: int|
                    0 <= j < i ==> !contains_name(self.rooms@[j].character_list@, name@),
                None => forall|j: int|
                    0 <= j < self.rooms@.len() ==> !contains_name(
                        self.rooms@[j].character_list@,
                        name@,
                    ),
            },
    {
        let mut k: usize = 0;
        while k < self.rooms.len()
            invariant
                k <= self.rooms@.len(),
                forall|j: int| 0 <= j < k ==> !contains_name(self.rooms@[j].character_list@, name@),
            decreases self.rooms@.len() - k,
        {
            if Entity::find_entity_by_name(name, &self.rooms[k].character_list).is_some() {
                return Some(k);
            }
            k = k + 1;
        }
        None
    }

    /// The first room bearing the given name (case-insensitively), if any.
    pub fn find_room_by_name(&self, name: &str) -> (r: Option<usize>)
        ensures
            match r {
                Some(i) => i < self.rooms@.len() && name_eq(self.rooms@[i as int].name@, name@)
                    && forall|j: int| 0 <= j < i ==> !name_eq(self.rooms@[j].name@, name@),
                None => forall|j: int|
                    0 <= j < self.rooms@.len() ==> !name_eq(self.rooms@[j].name@, name@),
            },
    {
        let mut k: usize = 0;
        while k < self.rooms.len()
            invariant
                k <= self.rooms@.len(),
                forall|j: int| 0 <= j < k ==> !name_eq(self.rooms@[j].name@, name@),
            decreases self.rooms@.len() - k,
        {
            if eq_ignore_case(self.rooms[k].name.as_str(), name) {
                return Some(k);
            }
            k = k + 1;
        }
        None
    }
}

/// Symmetry of the lattice: on a well-formed board, whenever direction `d`
/// leads from room `idx` to room `k`, the opposite direction leads from
/// `k` straight back to `idx`.
pub proof fn lemma_neighbor_symmetry(b: Board, idx: int, d: Direction, k: usize)
    requires
        b.wf(),
        0 <= idx < b.rooms@.len(),
        b.rooms@[idx].neighbor(d) == Some(k),
    ensures
        k < b.rooms@.len(),
        b.rooms@[k as int].neighbor(spec_opposite(d)) == Some(idx as usize),
{
    let side = b.side as int;
    let n = b.rooms@.len() as int;
    assert(lattice_links_at(b.rooms@[idx], idx, side, n));
    vstd::arithmetic::div_mod::lemma_fundamental_div_mod(idx, side);
    vstd::arithmetic::div_mod::lemma_mod_bound(idx, side);
    let q = idx / side;
    let r = idx % side;
    assert(q < side) by (nonlinear_arith)
        requires
            idx == side * q + r,
            0 <= r < side,
            idx < n,
            n == side * side,
            1 <= side,
    ;
    match d {
        Direction::North => {
            assert(lattice_links_at(b.rooms@[k as int], k as int, side, n));
        },
        Direction::South => {
            assert(lattice_links_at(b.rooms@[k as int], k as int, side, n));
        },
        Direction::East => {
            assert(r + 1 < side && k == idx + 1);
            assert(k < n) by (nonlinear_arith)
                requires
                    k == side * q + (r + 1),
                    0 <= r + 1 < side,
                    0 <= q < side,
                    n == side * side,
            ;
            assert(lattice_links_at(b.rooms@[k as int], k as int, side, n));
            vstd::arithmetic::div_mod::lemma_fundamental_div_mod_converse(k as int, side, q, r + 1);
            assert(b.rooms@[k as int].west == Some((k - 1) as usize));
        },
        Direction::West => {
            assert(r > 0 && k == idx - 1);
            assert(lattice_links_at(b.rooms@[k as int], k as int, side, n));
            vstd::arithmetic::div_mod::lemma_fundamental_div_mod_converse(k as int, side, q, r - 1);
            assert(k as int % side + 1 == r < side);
            assert(b.rooms@[k as int].east == Some((k + 1) as usize));
        },
        Direction::Invalid => {
            assert(false);
        },
    }
}

/// On a well-formed board every neighbor link points inside the arena.
pub proof fn lemma_links_in_range(b: Board, idx: int)
    requires
        b.wf(),
        0 <= idx < b.rooms@.len(),
    ensures
        b.rooms@[idx].links_in_range(b.rooms@.len() as nat),
{
    let r = b.rooms@[idx];
    if let Some(k) = r.north {
        lemma_neighbor_symmetry(b, idx, Direction::North, k);
    }
    if let Some(k) = r.south {
        lemma_neighbor_symmetry(b, idx, Direction::South, k);
    }
    if let Some(k) = r.east {
        lemma_neighbor_symmetry(b, idx, Direction::East, k);
    }
    if let Some(k) = r.west {
        lemma_neighbor_symmetry(b, idx, Direction::West, k);
    }
}

} // verus!
