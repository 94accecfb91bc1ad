use vstd::prelude::*;
use crate::board::{adjacent_at, allowed_at, first_of, last_of, moves_of, near_groups_at, near_points_at, Board};
use crate::player::Player;

verus! {

/// Weight of a position by the number of stones of one player around it.
pub open spec fn cg_sum(n: u32) -> int {
    if n == 0 {
        -5
    } else if n == 1 {
        -1
    } else if n <= 3 {
        0
    } else if n == 4 {
        1
    } else if n == 5 {
        2
    } else if n == 6 {
        5
    } else if n == 7 {
        20
    } else {
        30
    }
}

fn cg_sum_exec(n: u32) -> (r: i32)
    requires
        n <= 8,
    ensures
        r == cg_sum(n),
{
    let table: [i32; 9] = [-5, -1, 0, 0, 1, 2, 5, 20, 30];
    table[n as usize]
}

pub open spec fn abs(x: int) -> int {
    if x < 0 {
        -x
    } else {
        x
    }
}

/// Static estimate of a move of `player` on `pos`: groups of both players
/// around it, weighed against crowding, with a bonus next to the last move.
pub open spec fn estimation<B: Board>(field: B, pos: usize, player: Player) -> int {
    let g1 = near_groups_at(field, pos, player) as int;
    let g2 = near_groups_at(field, pos, player.spec_next()) as int;
    let c1 = cg_sum(near_points_at(field, pos, player));
    let c2 = cg_sum(near_points_at(field, pos, player.spec_next()));
    let base = (g1 * 3 + g2 * 2) * (5 - abs(g1 - g2)) - c1 - c2;
    if moves_of(field).len() > 0 && adjacent_at(field, moves_of(field).last(), pos) {
        base + 5
    } else {
        base
    }
}

fn heuristic_estimation<B: Board>(field: &B, pos: usize, player: Player) -> (r: i32)
    ensures
        r == estimation(*field, pos, player),
        r >= -200,
{
    let enemy = player.next();
    let g1 = field.number_near_groups(pos, player) as i32;
    let g2 = field.number_near_groups(pos, enemy) as i32;
    let c1 = cg_sum_exec(field.number_near_points(pos, player));
    let c2 = cg_sum_exec(field.number_near_points(pos, enemy));
    let d = if g1 >= g2 { g1 - g2 } else { g2 - g1 };
    assert((g1 * 3 + g2 * 2) * (5 - d) <= 40 * 5) by (nonlinear_arith)
        requires
            0 <= g1 <= 8,
            0 <= g2 <= 8,
            0 <= d <= 8,
    ;
    assert((g1 * 3 + g2 * 2) * (5 - d) >= -40 * 3) by (nonlinear_arith)
        requires
            0 <= g1 <= 8,
            0 <= g2 <= 8,
            0 <= d <= 8,
    ;
    let mut result = (g1 * 3 + g2 * 2) * (5 - d) - c1 - c2;
    if let Some(last_pos) = field.last_move() {
        if field.is_near(last_pos, pos) {
            result = result + 5;
        }
    }
    result
}

/// Whether `pos` lies between the board's first and last position and may
/// be played.
pub open spec fn candidate<B: Board>(field: B, pos: usize) -> bool {
    first_of(field) <= pos <= last_of(field) && allowed_at(field, pos)
}

/// The playable position with the best estimate, the first one among
/// equals, or `None` when no position may be played.
pub fn heuristic<B: Board>(field: &B, player: Player) -> (r: Option<usize>)
    ensures
        r is None <==> !(exists|p: usize| candidate(*field, p)),
        r matches Some(p) ==> {
            &&& candidate(*field, p)
            &&& forall|q: usize| candidate(*field, q) ==> estimation(*field, q, player) <= estimation(*field, p, player)
            &&& forall|q: usize| q < p && candidate(*field, q) ==> estimation(*field, q, player) < estimation(*field, p, player)
        },
{
    let mut best_estimation = i32::MIN;
    let mut result: Option<usize> = None;
    let min = field.min_pos();
    let max = field.max_pos();
    if min > max {
        return None;
    }
    let mut pos = min;
    let mut finished = false;
    let ghost mut upto: int = min as int;
    while !finished
        invariant
            min == first_of(*field),
            max == last_of(*field),
            min <= pos <= max,
            finished ==> upto == max + 1,
            !finished ==> upto == pos,
            result is None ==> forall|q: usize| min <= q < upto ==> !allowed_at(*field, q),
            result is None ==> best_estimation == i32::MIN,
            result matches Some(p) ==> {
                &&& min <= p < upto
                &&& allowed_at(*field, p)
                &&& best_estimation == estimation(*field, p, player)
                &&& forall|q: usize| min <= q < upto && allowed_at(*field, q) ==> estimation(*field, q, player) <= best_estimation
                &&& forall|q: usize| min <= q < p && allowed_at(*field, q) ==> estimation(*field, q, player) < best_estimation
            },
        decreases max - pos + if finished { 0int } else { 1int },
    {
        if field.is_putting_allowed(pos) {
            let cur_estimation = heuristic_estimation(field, pos, player);
            if cur_estimation > best_estimation {
                best_estimation = cur_estimation;
                result = Some(pos);
            }
        }
        if pos == max {
            finished = true;
            proof {
                upto = max + 1;
            }
        } else {
            pos = pos + 1;
            proof {
                upto = pos as int;
            }
        }
    }
    proof {
        match result {
            Some(p) => {
                assert(candidate(*field, p));
            },
            None => {
                assert forall|q: usize| !candidate(*field, q) by {
                    if min <= q <= max {
                        assert(!allowed_at(*field, q));
                    }
                }
            },
        }
    }
    result
}

} // verus!
