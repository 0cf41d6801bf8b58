// Explanations of decision policies for tic-tac-toe.
//
// `board` holds the game rules, `values` exact integer grids, `policy` the
// random and minimax policies, `observation` partially observed boards and
// their marginal distributions, `shapley` the Shapley attribution engine,
// `sverl` the expected-return predictor and its attribution, and `efficiency`
// the proof that the attributions add up.
//
// All quantities are exact integers: a probability is a multiple of
// `values::UNIT`, a minimax value a multiple of `policy::VALUE_UNIT`, and a
// Shapley value is reported multiplied by `shapley::SHAPLEY_SCALE` (9!).

pub mod board;
pub mod efficiency;
pub mod observation;
pub mod policy;
pub mod shapley;
pub mod sverl;
pub mod values;
