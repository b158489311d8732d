use vstd::prelude::*;
use crate::data::text::{decimal, push_decimal};
use crate::data::tight_poly::TightPoly;

verus! {

/// A problem of the catalogue: the polyomino to cover, its name, its number of cells, and
/// whether an answer is known for it.
#[derive(Debug, Clone)]
pub struct ParsedProblem {
    pub cell_count: usize,
    pub name: String,
    pub solved: bool,
    pub problem: TightPoly,
}

/// The file of a problem, relative to the problem directory: `<cells>/<name>.yes` when an
/// answer is known, `<cells>/<name>.never` otherwise.
pub open spec fn problem_file(cell_count: nat, name: Seq<char>, solved: bool) -> Seq<char> {
    decimal(cell_count) + seq!['/'] + name + seq!['.'] + if solved {
        seq!['y', 'e', 's']
    } else {
        seq!['n', 'e', 'v', 'e', 'r']
    }
}

/// The file of an answer, relative to the answer directory: `<cells>/<name>.txt`.
pub open spec fn solution_file(cell_count: nat, name: Seq<char>) -> Seq<char> {
    decimal(cell_count) + seq!['/'] + name + seq!['.', 't', 'x', 't']
}

impl ParsedProblem {
    /// The file of the answer to this problem, relative to the answer directory.
    pub fn solution_name(&self) -> (r: String)
        ensures
            r@ == solution_file(self.cell_count as nat, self.name@),
    {
        proof {
            reveal_strlit("/");
            reveal_strlit(".txt");
        }
        let mut s = String::new();
        push_decimal(&mut s, self.cell_count);
        s.append("/");
        s.append(self.name.as_str());
        s.append(".txt");
        s
    }

    /// The file of this problem, relative to the problem directory; its extension says
    /// whether an answer is known.
    pub fn problem_name(&self) -> (r: String)
        ensures
            r@ == problem_file(self.cell_count as nat, self.name@, self.solved),
    {
        proof {
            reveal_strlit("/");
            reveal_strlit(".yes");
            reveal_strlit(".never");
        }
        let mut s = String::new();
        push_decimal(&mut s, self.cell_count);
        s.append("/");
        s.append(self.name.as_str());
        if self.solved {
            s.append(".yes");
        } else {
            s.append(".never");
        }
        proof {
            assert(seq!['.'] + seq!['y', 'e', 's'] =~= seq!['.', 'y', 'e', 's']);
            assert(seq!['.'] + seq!['n', 'e', 'v', 'e', 'r'] =~= seq!['.', 'n', 'e', 'v', 'e', 'r']);
        }
        s
    }
}

} // verus!
