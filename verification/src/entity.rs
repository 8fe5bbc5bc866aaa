use vstd::prelude::*;
use vstd::string::*;

use crate::errors::GameError;
use crate::names::{eq_ignore_case, name_eq};

verus! {

/// A named movable object: an item, a character, or the player avatar.
/// Identity is the name, compared case-insensitively.
#[derive(Debug)]
pub struct Entity {
    pub name: String,
}

/// Some entity of `s` bears the name `name` (case-insensitively).
pub open spec fn contains_name(s: Seq<Entity>, name: Seq<char>) -> bool {
    exists|i: int| 0 <= i < s.len() && name_eq(s[i].name@, name)
}

/// No two entities of `s` share a name: the container has set semantics.
pub open spec fn distinct_names(s: Seq<Entity>) -> bool {
    forall|i: int, j: int| 0 <= i < j < s.len() ==> !name_eq(s[i].name@, s[j].name@)
}

/// `i` is the position of the first entity of `s` named `name`.
pub open spec fn first_match(s: Seq<Entity>, name: Seq<char>, i: int) -> bool {
    &&& 0 <= i < s.len()
    &&& name_eq(s[i].name@, name)
    &&& forall|j: int| 0 <= j < i ==> !name_eq(s[j].name@, name)
}

/// The text a container renders to: every name in order, each followed by
/// a separator.
pub open spec fn list_text(s: Seq<Entity>) -> Seq<char>
    decreases s.len(),
{
    if s.len() == 0 {
        Seq::empty()
    } else {
        list_text(s.drop_last()) + s.last().name@ + " | "@
    }
}

/// Appending an entity adds exactly its name to a container.
pub proof fn lemma_contains_push(s: Seq<Entity>, e: Entity)
    ensures
        forall|n: Seq<char>|
            #[trigger] contains_name(s.push(e), n) <==> (contains_name(s, n) || name_eq(
                e.name@,
                n,
            )),
{
    assert forall|n: Seq<char>|
        #[trigger] contains_name(s.push(e), n) <==> (contains_name(s, n) || name_eq(
            e.name@,
            n,
        )) by {
        if contains_name(s.push(e), n) {
            let i = choose|i: int| 0 <= i < s.push(e).len() && name_eq(s.push(e)[i].name@, n);
            if i < s.len() {
                assert(s[i] == s.push(e)[i]);
            } else {
                assert(s.push(e)[i] == e);
            }
        }
        if contains_name(s, n) {
            let i = choose|i: int| 0 <= i < s.len() && name_eq(s[i].name@, n);
            assert(name_eq(s.push(e)[i].name@, n));
        }
        if name_eq(e.name@, n) {
            assert(name_eq(s.push(e)[s.len() as int].name@, n));
        }
    }
}

/// A name-unique container stays name-unique when an entity whose name it
/// does not hold is appended.
pub proof fn lemma_distinct_push(s: Seq<Entity>, e: Entity)
    requires
        distinct_names(s),
        !contains_name(s, e.name@),
    ensures
        distinct_names(s.push(e)),
{
    assert forall|i: int, j: int| 0 <= i < j < s.push(e).len() implies !name_eq(
        s.push(e)[i].name@,
        s.push(e)[j].name@,
    ) by {
        if j < s.len() {
            assert(s.push(e)[i] == s[i] && s.push(e)[j] == s[j]);
        } else {
            assert(s.push(e)[j] == e && s.push(e)[i] == s[i]);
            if name_eq(s[i].name@, e.name@) {
                assert(name_eq(e.name@, s[i].name@));
                assert(contains_name(s, e.name@));
            }
        }
    }
}

/// Removing the entity at `i` from a name-unique container removes exactly
/// its name: the container stays name-unique, and a name is left exactly
/// when it was there and is not the removed entity's.
pub proof fn lemma_distinct_remove(s: Seq<Entity>, i: int)
    requires
        distinct_names(s),
        0 <= i < s.len(),
    ensures
        distinct_names(s.remove(i)),
        forall|n: Seq<char>|
            #[trigger] contains_name(s.remove(i), n) <==> (contains_name(s, n) && !name_eq(
                s[i].name@,
                n,
            )),
{
    let s1 = s.remove(i);
    assert forall|a: int, b: int| 0 <= a < b < s1.len() implies !name_eq(
        s1[a].name@,
        s1[b].name@,
    ) by {
        let a0 = if a < i {
            a
        } else {
            a + 1
        };
        let b0 = if b < i {
            b
        } else {
            b + 1
        };
        assert(s1[a] == s[a0] && s1[b] == s[b0]);
    }
    assert forall|n: Seq<char>|
        #[trigger] contains_name(s.remove(i), n) <==> (contains_name(s, n) && !name_eq(
            s[i].name@,
            n,
        )) by {
        if contains_name(s1, n) {
            let j = choose|j: int| 0 <= j < s1.len() && name_eq(s1[j].name@, n);
            let j0 = if j < i {
                j
            } else {
                j + 1
            };
            assert(s1[j] == s[j0]);
            assert(contains_name(s, n));
            if name_eq(s[i].name@, n) {
                assert(name_eq(s[i].name@, s[j0].name@));
                assert(name_eq(s[j0].name@, s[i].name@));
                if j0 < i {
                    assert(!name_eq(s[j0].name@, s[i].name@));
                } else {
                    assert(!name_eq(s[i].name@, s[j0].name@));
                }
                assert(false);
            }
        }
        if contains_name(s, n) && !name_eq(s[i].name@, n) {
            let j = choose|j: int| 0 <= j < s.len() && name_eq(s[j].name@, n);
            assert(j != i);
            let j1 = if j < i {
                j
            } else {
                j - 1
            };
            assert(s1[j1] == s[j]);
            assert(name_eq(s1[j1].name@, n));
        }
    }
}

/// Round trip of a transfer: after moving the first entity named `name`
/// out of `src` and into `dst` (as `move_entity_by_name` does), moving it
/// straight back restores `dst` exactly, and restores `src` up to order —
/// the same entities, with the moved one now at the end. The moved entity
/// is the first match in the intermediate `dst`, so the reverse move picks
/// exactly it.
pub proof fn lemma_move_round_trip(src: Seq<Entity>, dst: Seq<Entity>, name: Seq<char>, i: int)
    requires
        first_match(src, name, i),
        !contains_name(dst, name),
    ensures
        first_match(dst.push(src[i]), name, dst.len() as int),
        dst.push(src[i]).remove(dst.len() as int) == dst,
        src.remove(i).push(src[i]).to_multiset() == src.to_multiset(),
        forall|n: Seq<char>|
            contains_name(src.remove(i).push(src[i]), n) <==> contains_name(src, n),
{
    broadcast use vstd::seq_lib::group_to_multiset_ensures;

    assert(dst.push(src[i]).remove(dst.len() as int) =~= dst);
    let src1 = src.remove(i);
    let back = src1.push(src[i]);
    assert(src.to_multiset().count(src[i]) > 0) by {
        assert(src.contains(src[i]));
    }
    assert(back.to_multiset() =~= src.to_multiset());
    assert forall|n: Seq<char>| contains_name(back, n) implies contains_name(src, n) by {
        let j = choose|j: int| 0 <= j < back.len() && name_eq(back[j].name@, n);
        if j == back.len() - 1 {
            assert(name_eq(src[i].name@, n));
        } else if j < i {
            assert(back[j] == src[j]);
        } else {
            assert(back[j] == src[j + 1]);
        }
    }
    assert forall|n: Seq<char>| contains_name(src, n) implies contains_name(back, n) by {
        let j = choose|j: int| 0 <= j < src.len() && name_eq(src[j].name@, n);
        if j == i {
            assert(name_eq(back[back.len() - 1].name@, n));
        } else if j < i {
            assert(back[j] == src[j]);
            assert(name_eq(back[j].name@, n));
        } else {
            assert(back[j - 1] == src[j]);
            assert(name_eq(back[j - 1].name@, n));
        }
    }
}

impl Entity {
    pub fn new(name: String) -> (e: Entity)
        ensures
            e.name@ == name@,
    {
        Entity { name }
    }

    /// Renders a container for display: the names in order, separated, or
    /// the given placeholder when the container is empty.
    pub fn entity_list_as_string(list: &Vec<Entity>, default: &str) -> (r: String)
        ensures
            list@.len() == 0 ==> r@ == default@,
            list@.len() > 0 ==> r@ == list_text(list@),
    {
        let mut s = String::new();
        if list.len() == 0 {
            s.append(default);
            proof {
                assert(s@ =~= default@);
            }
            return s;
        }
        let mut k: usize = 0;
        while k < list.len()
            invariant
                k <= list@.len(),
                s@ == list_text(list@.subrange(0, k as int)),
            decreases list@.len() - k,
        {
            s.append(list[k].name.as_str());
            s.append(" | ");
            proof {
                let pre = list@.subrange(0, k as int);
                let cur = list@.subrange(0, k as int + 1);
                assert(cur.drop_last() =~= pre);
                assert(cur.last() == list@[k as int]);
            }
            k = k + 1;
        }
        proof {
            assert(list@.subrange(0, list@.len() as int) =~= list@);
        }
        s
    }

    /// Position of the first entity named `name`, if any.
    pub fn find_entity_by_name(name: &str, list: &Vec<Entity>) -> (r: Option<usize>)
        ensures
            match r {
                Some(i) => first_match(list@, name@, i as int),
                None => !contains_name(list@, name@),
            },
    {
        let mut k: usize = 0;
        while k < list.len()
            invariant
                k <= list@.len(),
                forall|j: int| 0 <= j < k ==> !name_eq(list@[j].name@, name@),
            decreases list@.len() - k,
        {
            if eq_ignore_case(list[k].name.as_str(), name) {
                return Some(k);
            }
            k = k + 1;
        }
        None
    }

    /// Appends an entity; the caller keeps containers name-unique.
    pub fn push_entity(list: &mut Vec<Entity>, item: Entity)
        ensures
            final(list)@ == old(list)@.push(item),
    {
        list.push(item);
    }

    /// Removes and returns the first entity named `name`, if any;
    /// otherwise leaves the container unchanged.
    pub fn remove_entity(list: &mut Vec<Entity>, name: &str) -> (r: Option<Entity>)
        ensures
            match r {
                Some(e) => exists|i: int|
                    first_match(old(list)@, name@, i) && e == old(list)@[i] && final(list)@
                        == old(list)@.remove(i),
                None => final(list)@ == old(list)@ && !contains_name(old(list)@, name@),
            },
    {
        let position = Entity::find_entity_by_name(name, list);
        match position {
            Some(i) => Some(list.remove(i)),
            None => None,
        }
    }

    /// Transfers the first entity named `name` from `source` to the end of
    /// `dest`. On `NotFound` both containers are untouched: the move is
    /// atomic, never a partial mutation, and never a copy.
    pub fn move_entity_by_name(name: &str, source: &mut Vec<Entity>, dest: &mut Vec<Entity>) -> (r:
        Result<(), GameError>)
        ensures
            r is Ok <==> contains_name(old(source)@, name@),
            r is Ok ==> exists|i: int|
                first_match(old(source)@, name@, i) && final(source)@ == old(source)@.remove(i)
                    && final(dest)@ == old(dest)@.push(old(source)@[i]),
            r is Err ==> r == Err::<(), GameError>(GameError::NotFound) && final(source)@ == old(
                source,
            )@ && final(dest)@ == old(dest)@,
    {
        let item = Entity::remove_entity(source, name);
        match item {
            Some(item) => {
                dest.push(item);
                Ok(())
            },
            None => Err(GameError::NotFound),
        }
    }
}

} // verus!
