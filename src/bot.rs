use vstd::prelude::*;

verus! {

pub const MIN_COMPLEXITY: u32 = 0;

pub const MAX_COMPLEXITY: u32 = 100;

pub const MIN_UCT_ITERATIONS: u64 = 0;

pub const MAX_UCT_ITERATIONS: u64 = 500000;

pub const MIN_MINIMAX_DEPTH: u32 = 0;

pub const MAX_MINIMAX_DEPTH: u32 = 8;

/// The complexity that `best_move` asks for: the middle of the range.
pub fn default_complexity() -> (r: u32)
    ensures
        r == (MAX_COMPLEXITY - MIN_COMPLEXITY) / 2 + MIN_COMPLEXITY,
{
    (MAX_COMPLEXITY - MIN_COMPLEXITY) / 2 + MIN_COMPLEXITY
}

/// The four words that seed the bot's random generator.
pub fn seed_words(seed: u64) -> (r: [u32; 4])
    ensures
        r@ == seq![3u32, seed as u32, 7u32, (seed >> 32u64) as u32],
{
    [3, seed as u32, 7, (seed >> 32) as u32]
}

/// Tree-search iterations for a complexity: scaled linearly from the
/// complexity range onto the iteration range.
pub fn uct_iterations_count(complexity: u32) -> (r: u64)
    ensures
        r == (complexity - MIN_COMPLEXITY) as int * (MAX_UCT_ITERATIONS - MIN_UCT_ITERATIONS) / (MAX_COMPLEXITY - MIN_COMPLEXITY) as int
            + MIN_UCT_ITERATIONS,
{
    let c = (complexity - MIN_COMPLEXITY) as u64;
    assert(c * 500000 <= 0xffff_ffffu64 * 500000) by (nonlinear_arith)
        requires
            c <= 0xffff_ffffu64,
    ;
    c * (MAX_UCT_ITERATIONS - MIN_UCT_ITERATIONS) / ((MAX_COMPLEXITY - MIN_COMPLEXITY) as u64) + MIN_UCT_ITERATIONS
}

/// Minimax depth for a complexity: scaled linearly from the complexity
/// range onto the depth range.
pub fn minimax_depth(complexity: u32) -> (r: u32)
    ensures
        r == (complexity - MIN_COMPLEXITY) as int * (MAX_MINIMAX_DEPTH - MIN_MINIMAX_DEPTH) as int / (MAX_COMPLEXITY - MIN_COMPLEXITY) as int
            + MIN_MINIMAX_DEPTH,
{
    let c = (complexity - MIN_COMPLEXITY) as u64;
    let d = c * ((MAX_MINIMAX_DEPTH - MIN_MINIMAX_DEPTH) as u64) / ((MAX_COMPLEXITY - MIN_COMPLEXITY) as u64);
    assert(d <= 0xffff_ffffu64) by (nonlinear_arith)
        requires
            c <= 0xffff_ffffu64,
            d == c * 8 / 100,
    ;
    d as u32 + MIN_MINIMAX_DEPTH
}

} // verus!
