//! Challenges, grouped in categories, and the lookup of one by identifier.

use vstd::prelude::*;

verus! {

pub struct Challenge {
    pub id: u16,
    pub name: String,
    pub description: String,
    pub hint: Option<String>,
    pub points: u32,
    pub flag: String,
}

pub struct ChallengeCategory {
    pub name: String,
    pub challenges: Vec<Challenge>,
}

/// Position (c, j) comes before (c2, j2) when it is in an earlier category,
/// or earlier in the same one.
pub open spec fn position_before(c: int, j: int, c2: int, j2: int) -> bool {
    c < c2 || (c == c2 && j < j2)
}

/// Whether challenge `j` of category `c` has identifier `id`.
pub open spec fn has_id_at(cats: Seq<ChallengeCategory>, c: int, j: int, id: u16) -> bool {
    0 <= c < cats.len() && 0 <= j < cats[c].challenges@.len() && cats[c].challenges@[j].id == id
}

/// The position of the first challenge with identifier `id`, if any.
pub fn find_challenge(cats: &Vec<ChallengeCategory>, id: u16) -> (r: Option<(usize, usize)>)
    ensures
        r matches Some((c, j)) ==> has_id_at(cats@, c as int, j as int, id)
            && forall|c2: int, j2: int| #[trigger] has_id_at(cats@, c2, j2, id) ==> !position_before(c2, j2, c as int, j as int),
        r is None ==> forall|c2: int, j2: int| !#[trigger] has_id_at(cats@, c2, j2, id),
{
    let mut c: usize = 0;
    while c < cats.len()
        invariant
            c <= cats@.len(),
            forall|c2: int, j2: int| 0 <= c2 < c ==> !#[trigger] has_id_at(cats@, c2, j2, id),
        decreases cats.len() - c,
    {
        let list = &cats[c].challenges;
        let mut j: usize = 0;
        while j < list.len()
            invariant
                c < cats@.len(),
                list@ == cats@[c as int].challenges@,
                j <= list@.len(),
                forall|c2: int, j2: int| 0 <= c2 < c ==> !#[trigger] has_id_at(cats@, c2, j2, id),
                forall|j2: int| 0 <= j2 < j ==> !#[trigger] has_id_at(cats@, c as int, j2, id),
            decreases list.len() - j,
        {
            if list[j].id == id {
                return Some((c, j));
            }
            j = j + 1;
        }
        c = c + 1;
    }
    None
}

} // verus!
