//! Solution pipeline: hand the encoding to the satisfiability oracle, decode
//! a returned assignment back into the grid, and classify the puzzle.
//!
//! The oracle is logicng's MiniSat solver behind a small trusted boundary:
//! constraints go in as plain variable names and description strings, and
//! what comes back out is plain values (the names assigned true, core
//! descriptions, a model count). Everything around that boundary — the
//! encoding, the name codec, the decoding of a model into cell values and
//! the uniqueness classification — is ordinary verified code.

use crate::codec::{decode_name, encode_name, name_spec, parse_name_spec};
use crate::encoder::{
    encode_model, models, shape_has_key, translate_to_sat_encoding, Constraint, ConstraintKind,
    PlacementVar,
};
use crate::grid::{Grid, SudokuError};
use logicng::formulas::ToFormula;
use vstd::prelude::*;

verus! {

#[verifier::external_type_specification]
#[verifier::external_body]
pub struct ExFormulaFactory(logicng::formulas::FormulaFactory);

#[verifier::external_type_specification]
#[verifier::external_body]
pub struct ExMiniSat(logicng::solver::minisat::MiniSat);

#[verifier::external_type_specification]
#[verifier::external_body]
pub struct ExModel(logicng::datastructures::Model);

/// The classification of a puzzle: a well-formed puzzle instance has
/// exactly one satisfying assignment.
pub enum Verdict {
    /// No assignment satisfies the encoding; carries the descriptions of an
    /// unsatisfiable core's constraints.
    Unsolvable(Vec<String>),
    /// Exactly one satisfying assignment exists; the grid holds it.
    UniqueSolution,
    /// The oracle found this many satisfying assignments (never one).
    Ambiguous(usize),
}

/// The decision oracle: a formula factory and the solver fed from it.
/// Holding both in one value keeps every variable, formula and model on the
/// factory it was created in. The ghost fields log what has been handed to
/// the oracle; only the trusted methods below speak about them, so what the
/// oracle returns can be related to what it was given.
pub struct Oracle {
    factory: logicng::formulas::FormulaFactory,
    solver: logicng::solver::minisat::MiniSat,
    /// Names of every boolean variable handed to the oracle.
    supplied_names: Ghost<Set<Seq<char>>>,
    /// Description of every constraint handed to the oracle.
    supplied_descriptions: Ghost<Set<Seq<char>>>,
    /// Whether the last solver call answered satisfiable, with no
    /// constraint added since.
    answered_satisfiable: Ghost<bool>,
    /// How many models the last enumeration returned, if one ran.
    enumerated: Ghost<Option<nat>>,
}

impl Oracle {
    pub closed spec fn names_log(&self) -> Set<Seq<char>> {
        self.supplied_names@
    }

    pub closed spec fn descriptions_log(&self) -> Set<Seq<char>> {
        self.supplied_descriptions@
    }

    pub closed spec fn was_satisfiable(&self) -> bool {
        self.answered_satisfiable@
    }

    pub closed spec fn model_count(&self) -> Option<nat> {
        self.enumerated@
    }
}

impl Oracle {
    /// Relies on logicng's `FormulaFactory::new`, `MiniSatConfig::default`,
    /// `MiniSatConfig::proof_generation` and `MiniSat::new_with_config`:
    /// a fresh solver with proof generation on, so an unsatisfiable core can
    /// be extracted later.
    #[verifier::external_body]
    pub(crate) fn new() -> (r: Oracle)
        ensures
            r.names_log() == Set::<Seq<char>>::empty(),
            r.descriptions_log() == Set::<Seq<char>>::empty(),
            !r.was_satisfiable(),
            r.model_count() is None,
    {
        let config = logicng::solver::minisat::MiniSatConfig::default().proof_generation(true);
        Oracle {
            factory: logicng::formulas::FormulaFactory::new(),
            solver: logicng::solver::minisat::MiniSat::new_with_config(config),
            supplied_names: Ghost(Set::empty()),
            supplied_descriptions: Ghost(Set::empty()),
            answered_satisfiable: Ghost(false),
            enumerated: Ghost(None),
        }
    }

    /// Relies on logicng's `FormulaFactory::var`, `FormulaFactory::exo`,
    /// `Proposition::new`, `Proposition::description` and
    /// `MiniSat::add_proposition`: asserts on the solver that exactly one of
    /// the named boolean variables is true, labeled with `desc`.
    #[verifier::external_body]
    fn add_exactly_one(&mut self, names: &Vec<String>, desc: &str)
        ensures
            final(self).names_log() == old(self).names_log() + names@.map_values(
                |n: String| n@,
            ).to_set(),
            final(self).descriptions_log() == old(self).descriptions_log().insert(desc@),
            !final(self).was_satisfiable(),
            final(self).model_count() == old(self).model_count(),
    {
        let vars: Vec<logicng::formulas::Variable> = names.iter().map(
            |n| self.factory.var(n),
        ).collect();
        let prop = logicng::propositions::Proposition::new(self.factory.exo(vars)).description(
            desc,
        );
        self.solver.add_proposition(&prop, &self.factory);
    }

    /// Relies on logicng's `FormulaFactory::var`, `Variable::to_formula`,
    /// `Proposition::new`, `Proposition::description` and
    /// `MiniSat::add_proposition`: asserts the named boolean variable true,
    /// labeled with `desc`.
    #[verifier::external_body]
    fn add_given(&mut self, name: &str, desc: &str)
        ensures
            final(self).names_log() == old(self).names_log().insert(name@),
            final(self).descriptions_log() == old(self).descriptions_log().insert(desc@),
            !final(self).was_satisfiable(),
            final(self).model_count() == old(self).model_count(),
    {
        let var = self.factory.var(name);
        let prop = logicng::propositions::Proposition::new(var.to_formula(&self.factory))
            .description(desc);
        self.solver.add_proposition(&prop, &self.factory);
    }

    /// Relies on logicng's `MiniSat::sat`, `MiniSat::model`, `Model::pos`
    /// and `Variable::name`: solves the asserted formulas; on a satisfiable
    /// answer returns the names of the variables assigned true in one model,
    /// otherwise nothing. `model` keeps auxiliary encoding variables out of
    /// models (the default configuration), so every returned name is the
    /// name of a variable that was handed in with a constraint.
    #[verifier::external_body]
    fn check(&mut self) -> (r: Option<Vec<String>>)
        ensures
            final(self).names_log() == old(self).names_log(),
            final(self).descriptions_log() == old(self).descriptions_log(),
            final(self).model_count() == old(self).model_count(),
            final(self).was_satisfiable() == (r is Some),
            match r {
                Some(names) => forall|i: int|
                    0 <= i < names@.len() ==> old(self).names_log().contains(
                        #[trigger] names@[i]@,
                    ),
                None => true,
            },
    {
        match self.solver.sat() {
            logicng::solver::minisat::sat::Tristate::True => self.solver.model(None).map(
                |m| m.pos().iter().map(|v| v.name(&self.factory).into_owned()).collect(),
            ),
            _ => None,
        }
    }

    /// Relies on logicng's `MiniSat::sat` and `MiniSat::unsat_core`: after
    /// an unsatisfiable answer, the descriptions of an unsatisfiable core's
    /// propositions; an empty list if the formulas are satisfiable. A core
    /// is drawn from the propositions added to the solver, so each present
    /// description was supplied with a constraint.
    #[verifier::external_body]
    fn unsat_core_descriptions(&mut self) -> (r: Vec<Option<String>>)
        ensures
            forall|i: int|
                0 <= i < r@.len() ==> match #[trigger] r@[i] {
                    Some(d) => old(self).descriptions_log().contains(d@),
                    None => true,
                },
    {
        match self.solver.sat() {
            logicng::solver::minisat::sat::Tristate::False => self.solver.unsat_core(
                &self.factory,
            ).propositions.into_iter().map(|p| p.description).collect(),
            _ => Vec::new(),
        }
    }

    /// Relies on logicng's `enumerate_models`: one entry per distinct
    /// satisfying assignment over the supplied variables, no duplicates and
    /// no omissions; the order is unspecified. It saves and restores the
    /// solver state, adding only blocking clauses in between, so with the
    /// constraint set satisfiable (a prior solve answered so and nothing was
    /// added since) it returns at least one model.
    #[verifier::external_body]
    fn enumerate(&mut self) -> (r: Vec<logicng::datastructures::Model>)
        ensures
            final(self).names_log() == old(self).names_log(),
            final(self).descriptions_log() == old(self).descriptions_log(),
            final(self).was_satisfiable() == old(self).was_satisfiable(),
            final(self).model_count() == Some(r@.len() as nat),
            old(self).was_satisfiable() ==> r@.len() >= 1,
    {
        logicng::solver::functions::enumerate_models(&mut self.solver)
    }
}

/// Whether `d` is the description of some constraint of grid `g`'s encoding.
pub open spec fn desc_of_encoding(g: Grid, d: Seq<char>) -> bool {
    exists|i: int| 0 <= i < encode_model(g).len() && (#[trigger] encode_model(g)[i]).0 == d
}

/// Whether constraint `c` mentions the placement key `k`.
pub open spec fn constraint_has_key(c: Constraint, k: (int, int, int)) -> bool {
    match c.kind {
        ConstraintKind::ExactlyOne(vs) => exists|j: int|
            0 <= j < vs@.len() && (#[trigger] vs@[j]).key() == k,
        ConstraintKind::Given(v) => v.key() == k,
    }
}

/// Whether some constraint of the list mentions the placement key `k`.
pub open spec fn props_have_key(props: Seq<Constraint>, k: (int, int, int)) -> bool {
    exists|i: int| 0 <= i < props.len() && constraint_has_key(#[trigger] props[i], k)
}

/// Serialises a constraint's variables to their canonical names, in order.
fn encode_names(vars: &Vec<PlacementVar>) -> (r: Vec<String>)
    ensures
        r@.len() == vars@.len(),
        forall|j: int|
            0 <= j < vars@.len() ==> (#[trigger] r@[j])@ == name_spec(
                vars@[j].row as int,
                vars@[j].col as int,
                vars@[j].value as int,
            ),
{
    let mut names: Vec<String> = Vec::new();
    let mut j: usize = 0;
    while j < vars.len()
        invariant
            j <= vars@.len(),
            names@.len() == j,
            forall|jj: int|
                0 <= jj < j ==> (#[trigger] names@[jj])@ == name_spec(
                    vars@[jj].row as int,
                    vars@[jj].col as int,
                    vars@[jj].value as int,
                ),
        decreases vars@.len() - j,
    {
        names.push(encode_name(vars[j].row, vars[j].col, vars[j].value));
        j += 1;
    }
    names
}

/// Loads every constraint of an encoding into the oracle, serialising each
/// placement variable to its canonical name. Every variable name the oracle
/// then knows is the canonical name of a key some constraint mentions, and
/// every description it knows was some constraint's label.
fn add_constraints(oracle: &mut Oracle, props: &Vec<Constraint>)
    ensures
        forall|d: Seq<char>|
            #[trigger] final(oracle).descriptions_log().contains(d) ==> old(
                oracle,
            ).descriptions_log().contains(d) || exists|i: int|
                0 <= i < props@.len() && (#[trigger] props@[i]).description@ == d,
        forall|s: Seq<char>|
            #[trigger] final(oracle).names_log().contains(s) ==> old(oracle).names_log().contains(
                s,
            ) || exists|k: (int, int, int)|
                s == name_spec(k.0, k.1, k.2) && props_have_key(props@, k),
{
    let mut i: usize = 0;
    while i < props.len()
        invariant
            i <= props@.len(),
            forall|d: Seq<char>|
                #[trigger] oracle.descriptions_log().contains(d) ==> old(
                    oracle,
                ).descriptions_log().contains(d) || exists|ii: int|
                    0 <= ii < props@.len() && (#[trigger] props@[ii]).description@ == d,
            forall|s: Seq<char>|
                #[trigger] oracle.names_log().contains(s) ==> old(oracle).names_log().contains(s)
                    || exists|k: (int, int, int)|
                    s == name_spec(k.0, k.1, k.2) && props_have_key(props@, k),
        decreases props@.len() - i,
    {
        match &props[i].kind {
            ConstraintKind::ExactlyOne(vars) => {
                let names = encode_names(vars);
                let ghost pre = *oracle;
                oracle.add_exactly_one(&names, props[i].description.as_str());
                proof {
                    let added = names@.map_values(|n: String| n@).to_set();
                    assert forall|s: Seq<char>| #[trigger] oracle.names_log().contains(s) implies
                        pre.names_log().contains(s) || exists|k: (int, int, int)|
                        s == name_spec(k.0, k.1, k.2) && props_have_key(props@, k) by {
                        if !pre.names_log().contains(s) {
                            let m = names@.map_values(|n: String| n@);
                            assert(added.contains(s));
                            assert(m.contains(s));
                            let jj = choose|jj: int| 0 <= jj < m.len() && #[trigger] m[jj] == s;
                            let k = vars@[jj].key();
                            assert(s == name_spec(k.0, k.1, k.2));
                            assert(constraint_has_key(props@[i as int], k));
                            assert(props_have_key(props@, k));
                        }
                    }
                }
            },
            ConstraintKind::Given(v) => {
                let name = encode_name(v.row, v.col, v.value);
                let ghost pre = *oracle;
                oracle.add_given(name.as_str(), props[i].description.as_str());
                proof {
                    let k = v.key();
                    assert(constraint_has_key(props@[i as int], k));
                    assert(props_have_key(props@, k));
                }
            },
        }
        i += 1;
    }
}

/// Whether a variable name denotes a placement the grid can hold: it parses
/// back to a triple whose coordinates name a cell and whose value is legal.
pub open spec fn name_ok(g: Grid, s: Seq<char>) -> bool {
    match parse_name_spec(s) {
        Some(t) => g.in_range(t.0 as int, t.1 as int) && t.2 as int <= g.dim(),
        None => false,
    }
}

/// Whether some name of the list targets the cell `(rr, cc)`.
pub open spec fn targets(names: Seq<String>, rr: int, cc: int) -> bool {
    exists|k: int|
        0 <= k < names.len() && match parse_name_spec(#[trigger] names[k]@) {
            Some(t) => t.0 as int == rr && t.1 as int == cc,
            None => false,
        }
}

/// Whether some name of the list targets the cell `(rr, cc)` with value `v`.
pub open spec fn targets_value(names: Seq<String>, rr: int, cc: int, v: int) -> bool {
    exists|k: int|
        0 <= k < names.len() && match parse_name_spec(#[trigger] names[k]@) {
            Some(t) => t.0 as int == rr && t.1 as int == cc && t.2 as int == v,
            None => false,
        }
}

/// How decoding fails, each error kind pinned to its cause: a name that
/// does not parse back into a triple is a `DecodingError`; a name that
/// parses but names no legal placement of the grid is a `RangeError`.
pub open spec fn decode_failure(g: Grid, names: Seq<String>, e: SudokuError) -> bool {
    &&& (e == SudokuError::DecodingError || e == SudokuError::RangeError)
    &&& (e == SudokuError::DecodingError ==> exists|k: int|
        0 <= k < names.len() && parse_name_spec(#[trigger] names[k]@) is None)
    &&& (e == SudokuError::RangeError ==> exists|k: int|
        0 <= k < names.len() && match parse_name_spec(#[trigger] names[k]@) {
            Some(t) => !(g.in_range(t.0 as int, t.1 as int) && t.2 as int <= g.dim()),
            None => false,
        })
}

/// How a decoded model relates a grid before and after: every name is a
/// legal placement, cells no name targets keep their value, and each
/// targeted cell ends holding the value of a name that targets it.
pub open spec fn decoded_into(g0: Grid, g1: Grid, names: Seq<String>) -> bool {
    &&& forall|k: int| 0 <= k < names.len() ==> name_ok(g0, #[trigger] names[k]@)
    &&& forall|rr: int, cc: int|
        g0.in_range(rr, cc) && !targets(names, rr, cc) ==> #[trigger] g1.at(rr, cc) == g0.at(
            rr, cc)
    &&& forall|rr: int, cc: int|
        g0.in_range(rr, cc) && #[trigger] targets(names, rr, cc) ==> targets_value(
            names, rr, cc, g1.at(rr, cc))
}

/// Decodes each positive variable name via the inverse of the naming
/// bijection and writes the recovered value into its cell. Cells no name
/// targets keep their value; each targeted cell ends holding the value of a
/// name that targets it.
pub fn fill_grid_with_solution(names: &Vec<String>, grid: &mut Grid) -> (r: Result<
    (),
    SudokuError,
>)
    requires
        old(grid).wf(),
    ensures
        final(grid).wf(),
        final(grid).number_rows == old(grid).number_rows,
        final(grid).number_cols == old(grid).number_cols,
        final(grid).box_size == old(grid).box_size,
        match r {
            Ok(()) => decoded_into(*old(grid), *final(grid), names@),
            Err(e) => decode_failure(*old(grid), names@, e),
        },
{
    let ghost g0 = *grid;
    let mut i: usize = 0;
    while i < names.len()
        invariant
            g0 == *old(grid),
            grid.wf(),
            g0.wf(),
            grid.number_rows == g0.number_rows,
            grid.number_cols == g0.number_cols,
            grid.box_size == g0.box_size,
            i <= names@.len(),
            forall|k: int| 0 <= k < i ==> name_ok(g0, #[trigger] names@[k]@),
            forall|rr: int, cc: int|
                g0.in_range(rr, cc) && !targets(names@.subrange(0, i as int), rr, cc)
                    ==> #[trigger] grid.at(rr, cc) == g0.at(rr, cc),
            forall|rr: int, cc: int|
                g0.in_range(rr, cc) && #[trigger] targets(names@.subrange(0, i as int), rr, cc)
                    ==> targets_value(names@.subrange(0, i as int), rr, cc, grid.at(rr, cc)),
        decreases names@.len() - i,
    {
        let decoded = decode_name(names[i].as_str());
        let (row, col, value) = match decoded {
            Some(t) => t,
            None => {
                return Err(SudokuError::DecodingError);
            },
        };
        match grid.set_value(row, col, value) {
            Ok(()) => {},
            Err(_) => {
                return Err(SudokuError::RangeError);
            },
        }
        proof {
            let pre = names@.subrange(0, i as int);
            let post = names@.subrange(0, i as int + 1);
            assert(post.drop_last() =~= pre);
            assert(post[i as int] == names@[i as int]);
            assert forall|rr: int, cc: int|
                g0.in_range(rr, cc) && !targets(post, rr, cc) implies #[trigger] grid.at(rr, cc)
                == g0.at(rr, cc) by {
                assert forall|k: int| 0 <= k < pre.len() implies !(match parse_name_spec(
                    #[trigger] pre[k]@,
                ) {
                    Some(t) => t.0 as int == rr && t.1 as int == cc,
                    None => false,
                }) by {
                    assert(post[k] == pre[k]);
                }
                assert(!targets(pre, rr, cc));
                assert(!(rr == row as int && cc == col as int));
            }
            assert forall|rr: int, cc: int|
                g0.in_range(rr, cc) && #[trigger] targets(post, rr, cc) implies targets_value(
                post, rr, cc, grid.at(rr, cc)) by {
                if rr == row as int && cc == col as int {
                    assert(parse_name_spec(post[i as int]@) == Some((row, col, value)));
                    assert(grid.at(rr, cc) == value as int);
                } else {
                    if targets(pre, rr, cc) {
                        assert(targets_value(pre, rr, cc, g0.at(rr, cc)) || targets_value(
                            pre, rr, cc, grid.at(rr, cc))) by {
                            assert(grid.at(rr, cc) == grid.at(rr, cc));
                        }
                        let k = choose|k: int|
                            0 <= k < pre.len() && match parse_name_spec(#[trigger] pre[k]@) {
                                Some(t) => t.0 as int == rr && t.1 as int == cc && t.2 as int
                                    == grid.at(rr, cc),
                                None => false,
                            };
                        assert(post[k] == pre[k]);
                    } else {
                        let k = choose|k: int|
                            0 <= k < post.len() && match parse_name_spec(#[trigger] post[k]@) {
                                Some(t) => t.0 as int == rr && t.1 as int == cc,
                                None => false,
                            };
                        assert(k == i as int);
                        assert(false);
                    }
                }
            }
        }
        i += 1;
    }
    proof {
        assert(names@.subrange(0, names@.len() as int) =~= names@);
    }
    Ok(())
}

/// Handles a satisfiable puzzle: decodes the model's positive variables into
/// the grid, then asks the oracle for every distinct satisfying assignment
/// and classifies the puzzle by their number: one enumerated model is a
/// unique solution, any other count is ambiguous.
pub fn handle_sat_sudoku(oracle: &mut Oracle, names: &Vec<String>, grid: &mut Grid) -> (r: Result<
    Verdict,
    SudokuError,
>)
    requires
        old(grid).wf(),
    ensures
        final(grid).wf(),
        final(grid).number_rows == old(grid).number_rows,
        final(grid).number_cols == old(grid).number_cols,
        final(grid).box_size == old(grid).box_size,
        match r {
            Ok(v) => {
                &&& !(v is Unsolvable)
                &&& decoded_into(*old(grid), *final(grid), names@)
                &&& match final(oracle).model_count() {
                    Some(n) => {
                        &&& (v is UniqueSolution <==> n == 1)
                        &&& (v is Ambiguous <==> n != 1)
                        &&& (v is Ambiguous ==> v->Ambiguous_0 as nat == n)
                    },
                    None => false,
                }
                &&& (old(oracle).was_satisfiable() && v is Ambiguous ==> v->Ambiguous_0 >= 2)
            },
            Err(e) => decode_failure(*old(grid), names@, e),
        },
{
    match fill_grid_with_solution(names, grid) {
        Ok(()) => {},
        Err(e) => {
            return Err(e);
        },
    }
    let ms = oracle.enumerate();
    if ms.len() == 1 {
        Ok(Verdict::UniqueSolution)
    } else {
        Ok(Verdict::Ambiguous(ms.len()))
    }
}

/// Encodes the grid, runs the oracle, and classifies the puzzle. On an
/// unsatisfiable answer the grid is untouched and the verdict carries an
/// unsatisfiable core's constraint descriptions, each the description of a
/// constraint of the grid's own encoding; on a satisfiable answer the grid
/// is filled by decoding a model (every positive variable is one the
/// encoding handed over, so decoding cannot fail) and the verdict says
/// whether the model count was one.
pub fn solve_grid(grid: &mut Grid) -> (r: Result<Verdict, SudokuError>)
    requires
        old(grid).wf(),
    ensures
        final(grid).wf(),
        final(grid).number_rows == old(grid).number_rows,
        final(grid).number_cols == old(grid).number_cols,
        final(grid).box_size == old(grid).box_size,
        match r {
            Ok(Verdict::Unsolvable(core)) => {
                &&& *final(grid) == *old(grid)
                &&& forall|j: int|
                    0 <= j < core@.len() ==> desc_of_encoding(
                        *old(grid),
                        (#[trigger] core@[j])@,
                    )
            },
            Ok(Verdict::UniqueSolution) => exists|names: Seq<String>|
                decoded_into(*old(grid), *final(grid), names),
            Ok(Verdict::Ambiguous(count)) => count >= 2 && exists|names: Seq<String>|
                decoded_into(*old(grid), *final(grid), names),
            Err(_) => false,
        },
{
    let props = translate_to_sat_encoding(grid);
    let mut oracle = Oracle::new();
    add_constraints(&mut oracle, &props);
    match oracle.check() {
        None => {
            let ghost log = oracle.descriptions_log();
            let with_desc = oracle.unsat_core_descriptions();
            let mut core: Vec<String> = Vec::new();
            let mut i: usize = 0;
            while i < with_desc.len()
                invariant
                    i <= with_desc@.len(),
                    models(props@) == encode_model(*old(grid)),
                    forall|ii: int|
                        0 <= ii < with_desc@.len() ==> match #[trigger] with_desc@[ii] {
                            Some(d) => log.contains(d@),
                            None => true,
                        },
                    forall|d: Seq<char>|
                        #[trigger] log.contains(d) ==> exists|ii: int|
                            0 <= ii < props@.len() && (#[trigger] props@[ii]).description@ == d,
                    forall|j: int|
                        0 <= j < core@.len() ==> desc_of_encoding(
                            *old(grid),
                            (#[trigger] core@[j])@,
                        ),
                decreases with_desc@.len() - i,
            {
                match &with_desc[i] {
                    Some(d) => {
                        proof {
                            assert(log.contains(d@));
                        }
                        let ghost prev = core@;
                        core.push(d.clone());
                        proof {
                            let ii = choose|ii: int|
                                0 <= ii < props@.len() && (#[trigger] props@[ii]).description@
                                    == d@;
                            assert(models(props@)[ii].0 == props@[ii].description@);
                            assert((encode_model(*old(grid))[ii]).0 == d@);
                            assert(desc_of_encoding(*old(grid), d@));
                            assert forall|j: int| 0 <= j < core@.len() implies desc_of_encoding(
                                *old(grid),
                                (#[trigger] core@[j])@,
                            ) by {
                                if j < prev.len() {
                                    assert(core@[j] == prev[j]);
                                } else {
                                    assert(core@[j]@ == d@);
                                }
                            }
                        }
                    },
                    None => {},
                }
                i += 1;
            }
            Ok(Verdict::Unsolvable(core))
        },
        Some(names) => {
            let ghost g0 = *grid;
            proof {
                crate::encoder::lemma_encode_keys_in_range(g0);
                assert forall|k: int| 0 <= k < names@.len() implies name_ok(
                    g0,
                    #[trigger] names@[k]@,
                ) by {
                    let s = names@[k]@;
                    assert(oracle.names_log().contains(s));
                    let kk = choose|kk: (int, int, int)|
                        s == name_spec(kk.0, kk.1, kk.2) && props_have_key(props@, kk);
                    let ii = choose|ii: int|
                        0 <= ii < props@.len() && constraint_has_key(#[trigger] props@[ii], kk);
                    assert(models(props@)[ii].1 == props@[ii].shape());
                    assert(shape_has_key(encode_model(g0)[ii].1, kk)) by {
                        match props@[ii].kind {
                            ConstraintKind::ExactlyOne(vs) => {
                                let j = choose|j: int|
                                    0 <= j < vs@.len() && (#[trigger] vs@[j]).key() == kk;
                                assert(vs@.map_values(|v: PlacementVar| v.key())[j] == kk);
                                assert(vs@.map_values(|v: PlacementVar| v.key()).contains(kk));
                            },
                            ConstraintKind::Given(_) => {},
                        }
                    }
                    assert(1 <= kk.0 <= g0.dim() && 1 <= kk.1 <= g0.dim() && 1 <= kk.2
                        <= g0.dim());
                    crate::codec::lemma_name_round_trip(kk.0 as u8, kk.1 as u8, kk.2 as u8);
                    assert(name_spec(kk.0 as u8 as int, kk.1 as u8 as int, kk.2 as u8 as int)
                        == name_spec(kk.0, kk.1, kk.2));
                    assert(parse_name_spec(s) == Some((kk.0 as u8, kk.1 as u8, kk.2 as u8)));
                }
            }
            let r = handle_sat_sudoku(&mut oracle, &names, grid);
            proof {
                if r is Err {
                    assert(false);
                }
                if r is Ok {
                    assert(decoded_into(*old(grid), *grid, names@));
                }
            }
            r
        },
    }
}

} // verus!
