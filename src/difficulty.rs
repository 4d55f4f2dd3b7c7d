use vstd::prelude::*;

verus! {

/// How hard a generated puzzle should be; the solver itself never reads it.
#[derive(PartialEq, Eq, Structural, Default, Clone, Copy, Debug)]
pub enum Difficulty {
    #[default]
    Easy,
    Medium,
    Hard,
}

/// The lower-case word that names a difficulty.
pub open spec fn difficulty_name(d: Difficulty) -> Seq<char> {
    match d {
        Difficulty::Easy => seq!['e', 'a', 's', 'y'],
        Difficulty::Medium => seq!['m', 'e', 'd', 'i', 'u', 'm'],
        Difficulty::Hard => seq!['h', 'a', 'r', 'd'],
    }
}

impl Difficulty {
    /// The lower-case word for this difficulty, as a puzzle service expects it.
    pub fn name(&self) -> (r: &'static str)
        ensures
            r@ == difficulty_name(*self),
    {
        match *self {
            Difficulty::Easy => {
                proof { reveal_strlit("easy"); }
                "easy"
            },
            Difficulty::Medium => {
                proof { reveal_strlit("medium"); }
                "medium"
            },
            Difficulty::Hard => {
                proof { reveal_strlit("hard"); }
                "hard"
            },
        }
    }
}

} // verus!
