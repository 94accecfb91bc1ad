use vstd::prelude::*;
use crate::player::Player;
use crate::zobrist::Zobrist;

verus! {

/// What the pruning engine needs of a game board. Every answer of the board
/// is a function of its model; `put_point` moves the model on by
/// `after_put` and saves the old one, and `undo` brings the saved model back.
pub trait Board: Sized {
    /// Everything the board's answers depend on.
    type Model;

    spec fn model(&self) -> Self::Model;

    /// The models saved by the moves not yet taken back, oldest first.
    spec fn saved(&self) -> Seq<Self::Model>;

    /// Positions played so far, oldest first.
    spec fn moves(m: Self::Model) -> Seq<usize>;

    /// Number of positions of the flattened board, border included.
    spec fn length(m: Self::Model) -> nat;

    /// The keys of the board's position hash table.
    spec fn hashes(m: Self::Model) -> Seq<u64>;

    /// Whether the mover may place a stone on `pos`.
    spec fn allowed(m: Self::Model, pos: usize) -> bool;

    /// Whether `pos` lies strictly inside the playable area.
    spec fn bound(m: Self::Model, pos: usize) -> bool;

    /// Whether `pos` lies in an empty region fully enclosed by `player`.
    spec fn empty_base(m: Self::Model, pos: usize, player: Player) -> bool;

    /// Number of distinct groups of `player` adjacent to `pos`.
    spec fn near_groups(m: Self::Model, pos: usize, player: Player) -> u32;

    /// Number of stones of `player` adjacent to `pos`.
    spec fn near_points(m: Self::Model, pos: usize, player: Player) -> u32;

    /// Whether a stone of `player` is adjacent to `pos`.
    spec fn near_point(m: Self::Model, pos: usize, player: Player) -> bool;

    /// Identifier of the group that holds the stone on `pos`.
    spec fn group(m: Self::Model, pos: usize) -> usize;

    /// Whether `pos` is adjacent to the group `group` of `player`.
    spec fn near_group(m: Self::Model, pos: usize, player: Player, group: usize) -> bool;

    /// Whether two positions are neighbours.
    spec fn adjacent(m: Self::Model, a: usize, b: usize) -> bool;

    /// Capture-score change that the most recent move brought to `player`.
    spec fn delta_score(m: Self::Model, player: Player) -> i32;

    /// First position of the board.
    spec fn first_position(m: Self::Model) -> usize;

    /// Last position of the board.
    spec fn last_position(m: Self::Model) -> usize;

    /// The model after `player` places a stone on `pos`.
    spec fn after_put(m: Self::Model, pos: usize, player: Player) -> Self::Model;

    fn min_pos(&self) -> (r: usize)
        ensures
            r == Self::first_position(self.model()),
    ;

    fn max_pos(&self) -> (r: usize)
        ensures
            r == Self::last_position(self.model()),
    ;

    fn zobrist(&self) -> (r: &Zobrist)
        ensures
            r@ == Self::hashes(self.model()),
            Self::length(self.model()) <= r@.len(),
    ;

    fn is_bound(&self, pos: usize) -> (r: bool)
        ensures
            r == Self::bound(self.model(), pos),
            r ==> pos < Self::length(self.model()),
    ;

    /// A position already played is never allowed again.
    fn is_putting_allowed(&self, pos: usize) -> (r: bool)
        ensures
            r == Self::allowed(self.model(), pos),
            r ==> pos < Self::length(self.model()),
            r ==> !Self::moves(self.model()).contains(pos),
    ;

    fn is_players_empty_base(&self, pos: usize, player: Player) -> (r: bool)
        ensures
            r == Self::empty_base(self.model(), pos, player),
    ;

    /// A position has eight neighbours, so at most eight adjacent groups.
    fn number_near_groups(&self, pos: usize, player: Player) -> (r: u32)
        ensures
            r == Self::near_groups(self.model(), pos, player),
            r <= 8,
    ;

    fn number_near_points(&self, pos: usize, player: Player) -> (r: u32)
        ensures
            r == Self::near_points(self.model(), pos, player),
            r <= 8,
    ;

    fn is_near(&self, a: usize, b: usize) -> (r: bool)
        ensures
            r == Self::adjacent(self.model(), a, b),
    ;

    fn has_near_points(&self, pos: usize, player: Player) -> (r: bool)
        ensures
            r == Self::near_point(self.model(), pos, player),
    ;

    fn find_dsu_set(&self, pos: usize) -> (r: usize)
        ensures
            r == Self::group(self.model(), pos),
    ;

    fn has_near_dsu_group(&self, pos: usize, player: Player, group: usize) -> (r: bool)
        ensures
            r == Self::near_group(self.model(), pos, player, group),
    ;

    fn get_delta_score(&self, player: Player) -> (r: i32)
        ensures
            r == Self::delta_score(self.model(), player),
    ;

    /// The `i`-th move played.
    fn move_at(&self, i: usize) -> (r: usize)
        requires
            i < Self::moves(self.model()).len(),
        ensures
            r == Self::moves(self.model())[i as int],
    ;

    fn moves_count(&self) -> (r: usize)
        ensures
            r == Self::moves(self.model()).len(),
    ;

    fn last_move(&self) -> (r: Option<usize>)
        ensures
            Self::moves(self.model()).len() == 0 ==> r is None,
            Self::moves(self.model()).len() > 0 ==> r == Some(Self::moves(self.model()).last()),
    ;

    /// Places a stone of `player` on an allowed position.
    fn put_point(&mut self, pos: usize, player: Player) -> (r: bool)
        requires
            Self::allowed(old(self).model(), pos),
        ensures
            r,
            final(self).model() == Self::after_put(old(self).model(), pos, player),
            final(self).saved() == old(self).saved().push(old(self).model()),
            Self::moves(final(self).model()) == Self::moves(old(self).model()).push(pos),
            Self::length(final(self).model()) == Self::length(old(self).model()),
            Self::hashes(final(self).model()) == Self::hashes(old(self).model()),
    ;

    /// Takes back the most recent move.
    fn undo(&mut self) -> (r: bool)
        requires
            old(self).saved().len() > 0,
        ensures
            r,
            final(self).model() == old(self).saved().last(),
            final(self).saved() == old(self).saved().drop_last(),
    ;
}

/// Two boards stand in the same position: same model, same saved models.
pub open spec fn same_position<B: Board>(a: B, b: B) -> bool {
    a.model() == b.model() && a.saved() == b.saved()
}

pub open spec fn moves_of<B: Board>(b: B) -> Seq<usize> {
    B::moves(b.model())
}

pub open spec fn length_of<B: Board>(b: B) -> nat {
    B::length(b.model())
}

pub open spec fn hashes_of<B: Board>(b: B) -> Seq<u64> {
    B::hashes(b.model())
}

pub open spec fn allowed_at<B: Board>(b: B, pos: usize) -> bool {
    B::allowed(b.model(), pos)
}

pub open spec fn near_groups_at<B: Board>(b: B, pos: usize, player: Player) -> u32 {
    B::near_groups(b.model(), pos, player)
}

pub open spec fn near_points_at<B: Board>(b: B, pos: usize, player: Player) -> u32 {
    B::near_points(b.model(), pos, player)
}

pub open spec fn adjacent_at<B: Board>(b: B, x: usize, y: usize) -> bool {
    B::adjacent(b.model(), x, y)
}

pub open spec fn first_of<B: Board>(b: B) -> usize {
    B::first_position(b.model())
}

pub open spec fn last_of<B: Board>(b: B) -> usize {
    B::last_position(b.model())
}

} // verus!
