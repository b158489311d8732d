use polycover2::data::tight_poly::TightPoly;
use polycover2::problems::ParsedProblem;

fn problem(cell_count: usize, name: &str, solved: bool) -> ParsedProblem {
    ParsedProblem {
        cell_count,
        name: name.to_string(),
        solved,
        problem: TightPoly::from_str("1 1\n#\n").unwrap(),
    }
}

#[test]
fn problem_and_solution_names() {
    let p = problem(6, "T", true);
    assert_eq!(p.problem_name(), "6/T.yes");
    assert_eq!(p.solution_name(), "6/T.txt");
    let q = problem(12, "L-shape", false);
    assert_eq!(q.problem_name(), "12/L-shape.never");
    assert_eq!(q.solution_name(), "12/L-shape.txt");
}
