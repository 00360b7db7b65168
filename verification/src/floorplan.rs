//! Identity bookkeeping of a floorplan: which openings survive a wall edit,
//! and which room a photo belongs to by name.
use vstd::prelude::*;
use crate::text::str_eq;

verus! {

/// Indices of the openings whose wall id is among `walls`, in order.
pub open spec fn kept_openings(opening_walls: Seq<u128>, walls: Seq<u128>) -> Seq<usize>
    decreases opening_walls.len(),
{
    if opening_walls.len() == 0 {
        Seq::empty()
    } else {
        kept_openings(opening_walls.drop_last(), walls) + if walls.contains(opening_walls.last()) {
            seq![(opening_walls.len() - 1) as usize]
        } else {
            Seq::empty()
        }
    }
}

/// Whether `id` is among `ids`.
pub fn contains_id(ids: &Vec<u128>, id: u128) -> (r: bool)
    ensures
        r == ids@.contains(id),
{
    let mut i: usize = 0;
    while i < ids.len()
        invariant
            i <= ids@.len(),
            forall|k: int| 0 <= k < i ==> ids@[k] != id,
        decreases ids@.len() - i,
    {
        if ids[i] == id {
            assert(ids@[i as int] == id);
            return true;
        }
        i = i + 1;
    }
    false
}

/// The openings that still refer to an existing wall (by index, in order).
pub fn openings_to_keep(opening_walls: &Vec<u128>, walls: &Vec<u128>) -> (r: Vec<usize>)
    ensures
        r@ == kept_openings(opening_walls@, walls@),
{
    let mut r: Vec<usize> = Vec::new();
    let mut i: usize = 0;
    while i < opening_walls.len()
        invariant
            i <= opening_walls@.len(),
            r@ == kept_openings(opening_walls@.take(i as int), walls@),
        decreases opening_walls@.len() - i,
    {
        proof {
            assert(opening_walls@.take(i as int + 1).drop_last() =~= opening_walls@.take(i as int));
            assert(opening_walls@.take(i as int + 1).last() == opening_walls@[i as int]);
        }
        if contains_id(walls, opening_walls[i]) {
            r.push(i);
        }
        proof {
            assert(r@ =~= kept_openings(opening_walls@.take(i as int + 1), walls@));
        }
        i = i + 1;
    }
    proof {
        assert(opening_walls@.take(opening_walls@.len() as int) =~= opening_walls@);
    }
    r
}

/// An opening is kept exactly when its wall still exists; kept indices are
/// strictly increasing, so the openings keep their order.
pub proof fn lemma_kept_openings(opening_walls: Seq<u128>, walls: Seq<u128>)
    requires
        opening_walls.len() <= usize::MAX,
    ensures
        forall|i: int|
            0 <= i < opening_walls.len() ==> (kept_openings(opening_walls, walls).contains(i as usize) <==> walls.contains(
                #[trigger] opening_walls[i],
            )),
        forall|k: int|
            0 <= k < kept_openings(opening_walls, walls).len() ==> #[trigger] kept_openings(opening_walls, walls)[k]
                < opening_walls.len(),
        forall|k: int, l: int|
            0 <= k < l < kept_openings(opening_walls, walls).len() ==> #[trigger] kept_openings(opening_walls, walls)[k]
                < #[trigger] kept_openings(opening_walls, walls)[l],
    decreases opening_walls.len(),
{
    if opening_walls.len() > 0 {
        let prev = opening_walls.drop_last();
        lemma_kept_openings(prev, walls);
        let kp = kept_openings(prev, walls);
        let k = kept_openings(opening_walls, walls);
        let n = opening_walls.len() - 1;
        assert forall|i: int| 0 <= i < opening_walls.len() implies (k.contains(i as usize) <==> walls.contains(
            #[trigger] opening_walls[i],
        )) by {
            if i < n {
                assert(prev[i] == opening_walls[i]);
                if kp.contains(i as usize) {
                    let j = choose|j: int| 0 <= j < kp.len() && kp[j] == i as usize;
                    assert(k[j] == kp[j]);
                }
                if k.contains(i as usize) {
                    let j = choose|j: int| 0 <= j < k.len() && k[j] == i as usize;
                    if j >= kp.len() {
                        assert(k[j] == n as usize);
                    } else {
                        assert(kp[j] == i as usize);
                    }
                }
            } else {
                if walls.contains(opening_walls[i]) {
                    assert(k[kp.len() as int] == n as usize);
                }
                if k.contains(i as usize) {
                    let j = choose|j: int| 0 <= j < k.len() && k[j] == i as usize;
                    if j < kp.len() {
                        assert(kp[j] < prev.len());
                    }
                }
            }
        }
    }
}

/// Index of the first room named `name`.
pub fn find_room_by_name(names: &Vec<String>, name: &str) -> (r: Option<usize>)
    ensures
        r matches Some(i) ==> i < names@.len() && names@[i as int]@ == name@ && forall|j: int|
            0 <= j < i ==> #[trigger] names@[j]@ != name@,
        r is None ==> forall|j: int| 0 <= j < names@.len() ==> #[trigger] names@[j]@ != name@,
{
    let mut i: usize = 0;
    while i < names.len()
        invariant
            i <= names@.len(),
            forall|j: int| 0 <= j < i ==> #[trigger] names@[j]@ != name@,
        decreases names@.len() - i,
    {
        if str_eq(names[i].as_str(), name) {
            return Some(i);
        }
        i = i + 1;
    }
    None
}

/// The id of the first room named `name`, if any; rooms are given as
/// parallel lists of names and ids.
pub fn room_id_for_name(names: &Vec<String>, ids: &Vec<u128>, name: &str) -> (r: Option<u128>)
    requires
        names@.len() == ids@.len(),
    ensures
        r matches Some(id) ==> exists|i: int|
            0 <= i < names@.len() && names@[i]@ == name@ && ids@[i] == id && forall|j: int|
                0 <= j < i ==> #[trigger] names@[j]@ != name@,
        r is None ==> forall|j: int| 0 <= j < names@.len() ==> #[trigger] names@[j]@ != name@,
{
    match find_room_by_name(names, name) {
        Some(i) => Some(ids[i]),
        None => None,
    }
}

} // verus!
