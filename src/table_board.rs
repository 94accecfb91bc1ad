use vstd::prelude::*;
use crate::board::Board;
use crate::live_counts::lemma_take_push_contains;
use crate::player::Player;
use crate::zobrist::Zobrist;
use vstd::math::min;

verus! {

/// One move: where, by whom, whether it completed a capture, and the
/// position hash before it.
#[derive(Clone, Copy)]
pub struct Step {
    pub pos: usize,
    pub player: Player,
    pub gain: u32,
    pub hash_before: u64,
}

/// Per-player table of adjacency answers.
pub struct Adjacency {
    near: Vec<bool>,
    stones: Vec<u32>,
    groups: Vec<u32>,
}

/// The tables of one player, as values.
pub struct AdjacencyModel {
    pub near: Seq<bool>,
    pub stones: Seq<u32>,
    pub groups: Seq<u32>,
}

/// Everything a `TableBoard` answers from.
pub struct TableModel {
    pub zobrist: Seq<u64>,
    pub width: usize,
    pub open: Seq<bool>,
    pub inside: Seq<bool>,
    pub red: AdjacencyModel,
    pub black: AdjacencyModel,
    pub red_captures: Seq<Seq<usize>>,
    pub black_captures: Seq<Seq<usize>>,
    pub steps: Seq<Step>,
    pub hash: u64,
}

pub open spec fn color(p: Player) -> int {
    match p {
        Player::Red => 0,
        Player::Black => 1,
    }
}

/// Number of positions that every table covers.
pub open spec fn size(m: TableModel) -> nat {
    let n = min(m.open.len() as int, m.inside.len() as int);
    let n = min(n, min(m.red.near.len() as int, m.red.groups.len() as int));
    let n = min(n, min(m.black.near.len() as int, m.black.groups.len() as int));
    let n = min(n, min(m.red.stones.len() as int, m.black.stones.len() as int));
    min(n, m.zobrist.len() as int / 2) as nat
}

pub open spec fn adjacency(m: TableModel, p: Player) -> AdjacencyModel {
    match p {
        Player::Red => m.red,
        Player::Black => m.black,
    }
}

pub open spec fn captures(m: TableModel, p: Player) -> Seq<Seq<usize>> {
    match p {
        Player::Red => m.red_captures,
        Player::Black => m.black_captures,
    }
}

pub open spec fn positions(steps: Seq<Step>) -> Seq<usize> {
    steps.map_values(|s: Step| s.pos)
}

/// Whether `player` has played `q` among `steps`.
pub open spec fn played_by(steps: Seq<Step>, q: usize, player: Player) -> bool {
    exists|i: int| 0 <= i < steps.len() && (#[trigger] steps[i]).pos == q && steps[i].player == player
}

/// Whether a move of `player` on `pos` completes the capture set `set`.
pub open spec fn completes(set: Seq<usize>, steps: Seq<Step>, pos: usize, player: Player) -> bool {
    &&& set.contains(pos)
    &&& forall|j: int| 0 <= j < set.len() ==> (#[trigger] set[j]) == pos || played_by(steps, set[j], player)
}

/// One when a move of `player` on `pos` completes a capture set.
pub open spec fn gain(m: TableModel, pos: usize, player: Player) -> u32 {
    if exists|k: int| 0 <= k < captures(m, player).len() && completes(#[trigger] captures(m, player)[k], m.steps, pos, player) {
        1
    } else {
        0
    }
}

/// A board whose answers come from fixed tables: which positions are open,
/// which lie inside, which touch a stone and how many groups of each player,
/// and which sets of positions, once all played by a player, capture. It
/// has no enclosed empty regions. The position hash keys a stone by its
/// position and its color.
pub struct TableBoard {
    zobrist: Zobrist,
    width: usize,
    open: Vec<bool>,
    inside: Vec<bool>,
    red: Adjacency,
    black: Adjacency,
    red_captures: Vec<Vec<usize>>,
    black_captures: Vec<Vec<usize>>,
    steps: Vec<Step>,
    hash: u64,
}

impl TableBoard {
    pub closed spec fn tables(&self) -> TableModel {
        TableModel {
            zobrist: self.zobrist@,
            width: self.width,
            open: self.open@,
            inside: self.inside@,
            red: AdjacencyModel { near: self.red.near@, stones: self.red.stones@, groups: self.red.groups@ },
            black: AdjacencyModel { near: self.black.near@, stones: self.black.stones@, groups: self.black.groups@ },
            red_captures: self.red_captures@.map_values(|v: Vec<usize>| v@),
            black_captures: self.black_captures@.map_values(|v: Vec<usize>| v@),
            steps: self.steps@,
            hash: self.hash,
        }
    }

    fn size_exec(&self) -> (r: usize)
        ensures
            r == size(self.tables()),
    {
        let mut n = self.open.len();
        if self.inside.len() < n {
            n = self.inside.len();
        }
        if self.red.near.len() < n {
            n = self.red.near.len();
        }
        if self.red.groups.len() < n {
            n = self.red.groups.len();
        }
        if self.black.near.len() < n {
            n = self.black.near.len();
        }
        if self.black.groups.len() < n {
            n = self.black.groups.len();
        }
        if self.red.stones.len() < n {
            n = self.red.stones.len();
        }
        if self.black.stones.len() < n {
            n = self.black.stones.len();
        }
        if self.zobrist.len() / 2 < n {
            n = self.zobrist.len() / 2;
        }
        n
    }

    /// A board of `length` positions in rows of `width`, all closed, none
    /// inside, no stone near, no capture, nothing played.
    pub fn new(zobrist: Zobrist, width: usize, length: usize) -> (r: TableBoard)
        requires
            2 * length <= zobrist@.len(),
            width > 0,
        ensures
            size(r.model()) == length,
            r.model().zobrist == zobrist@,
            r.model().steps.len() == 0,
            r.saved().len() == 0,
            forall|p: usize| !TableBoard::allowed(r.model(), p) && !TableBoard::bound(r.model(), p),
    {
        let red = Adjacency { near: vec![false; length], stones: vec![0u32; length], groups: vec![0u32; length] };
        let black = Adjacency { near: vec![false; length], stones: vec![0u32; length], groups: vec![0u32; length] };
        TableBoard {
            zobrist,
            width,
            open: vec![false; length],
            inside: vec![false; length],
            red,
            black,
            red_captures: Vec::new(),
            black_captures: Vec::new(),
            steps: Vec::new(),
            hash: 0,
        }
    }

    /// Marks `pos` as open for play and inside the playable area, or not.
    pub fn set_open(&mut self, pos: usize, open: bool)
        requires
            (pos as int) < size(old(self).model()),
        ensures
            size(final(self).model()) == size(old(self).model()),
            TableBoard::allowed(final(self).model(), pos) == (open && !positions(old(self).model().steps).contains(pos)),
            TableBoard::bound(final(self).model(), pos) == open,
    {
        self.open.set(pos, open);
        self.inside.set(pos, open);
    }

    /// Sets how many groups of `player` touch `pos`, each through one stone.
    pub fn set_near(&mut self, pos: usize, player: Player, groups: u32)
        requires
            (pos as int) < size(old(self).model()),
            groups <= 8,
        ensures
            size(final(self).model()) == size(old(self).model()),
            TableBoard::near_groups(final(self).model(), pos, player) == groups,
    {
        match player {
            Player::Red => {
                self.red.near.set(pos, groups > 0);
                self.red.stones.set(pos, groups);
                self.red.groups.set(pos, groups);
            },
            Player::Black => {
                self.black.near.set(pos, groups > 0);
                self.black.stones.set(pos, groups);
                self.black.groups.set(pos, groups);
            },
        }
    }

    /// Adds a set of positions that captures once `player` has played all
    /// of them.
    pub fn add_capture(&mut self, player: Player, points: Vec<usize>)
        ensures
            size(final(self).model()) == size(old(self).model()),
    {
        match player {
            Player::Red => self.red_captures.push(points),
            Player::Black => self.black_captures.push(points),
        }
    }

    /// The current position hash.
    pub fn position_hash(&self) -> (r: u64)
        ensures
            r == self.model().hash,
    {
        self.hash
    }

    /// Whether `player` has played `q`, or is playing it now on `now`.
    fn played_by_exec(&self, q: usize, player: Player, now: usize) -> (r: bool)
        ensures
            r == (q == now || played_by(self.steps@, q, player)),
    {
        if q == now {
            return true;
        }
        let mut i: usize = 0;
        while i < self.steps.len()
            invariant
                i <= self.steps@.len(),
                forall|k: int| 0 <= k < i ==> !((#[trigger] self.steps@[k]).pos == q && self.steps@[k].player == player),
            decreases self.steps@.len() - i,
        {
            if self.steps[i].pos == q && self.steps[i].player == player {
                return true;
            }
            i = i + 1;
        }
        false
    }

    /// One when a move of `player` on `pos` completes a capture set.
    fn gain_of(&self, pos: usize, player: Player) -> (r: u32)
        ensures
            r == gain(self.model(), pos, player),
    {
        let sets = match player {
            Player::Red => &self.red_captures,
            Player::Black => &self.black_captures,
        };
        let ghost caps = captures(self.model(), player);
        assert(caps == sets@.map_values(|v: Vec<usize>| v@));
        let mut k: usize = 0;
        while k < sets.len()
            invariant
                k <= sets@.len(),
                caps == sets@.map_values(|v: Vec<usize>| v@),
                caps == captures(self.model(), player),
                forall|i: int| 0 <= i < k ==> !completes(#[trigger] caps[i], self.steps@, pos, player),
            decreases sets@.len() - k,
        {
            let set = &sets[k];
            assert(caps[k as int] == set@);
            let mut holds_pos = false;
            let mut complete = true;
            let mut j: usize = 0;
            while j < set.len()
                invariant
                    j <= set@.len(),
                    holds_pos == set@.take(j as int).contains(pos),
                    complete == forall|i: int| 0 <= i < j ==> (#[trigger] set@[i]) == pos || played_by(self.steps@, set@[i], player),
                decreases set@.len() - j,
            {
                let q = set[j];
                proof {
                    lemma_take_push_contains(set@, j as int, pos);
                }
                if q == pos {
                    holds_pos = true;
                }
                if !self.played_by_exec(q, player, pos) {
                    complete = false;
                }
                j = j + 1;
            }
            assert(set@.take(set@.len() as int) =~= set@);
            if holds_pos && complete {
                assert(completes(caps[k as int], self.steps@, pos, player));
                return 1;
            }
            k = k + 1;
        }
        0
    }
}

impl Board for TableBoard {
    type Model = TableModel;

    closed spec fn model(&self) -> TableModel {
        self.tables()
    }

    closed spec fn saved(&self) -> Seq<TableModel> {
        Seq::new(
            self.steps@.len(),
            |i: int| TableModel { steps: self.steps@.take(i), hash: self.steps@[i].hash_before, ..self.tables() },
        )
    }

    open spec fn moves(m: TableModel) -> Seq<usize> {
        positions(m.steps)
    }

    open spec fn length(m: TableModel) -> nat {
        size(m)
    }

    open spec fn hashes(m: TableModel) -> Seq<u64> {
        m.zobrist
    }

    open spec fn allowed(m: TableModel, pos: usize) -> bool {
        (pos as int) < size(m) && m.open[pos as int] && !positions(m.steps).contains(pos)
    }

    open spec fn bound(m: TableModel, pos: usize) -> bool {
        (pos as int) < size(m) && m.inside[pos as int]
    }

    open spec fn empty_base(m: TableModel, pos: usize, player: Player) -> bool {
        false
    }

    open spec fn near_groups(m: TableModel, pos: usize, player: Player) -> u32 {
        if (pos as int) < size(m) {
            min(adjacency(m, player).groups[pos as int] as int, 8) as u32
        } else {
            0
        }
    }

    open spec fn near_points(m: TableModel, pos: usize, player: Player) -> u32 {
        if (pos as int) < size(m) {
            min(adjacency(m, player).stones[pos as int] as int, 8) as u32
        } else {
            0
        }
    }

    open spec fn near_point(m: TableModel, pos: usize, player: Player) -> bool {
        (pos as int) < size(m) && adjacency(m, player).near[pos as int]
    }

    open spec fn group(m: TableModel, pos: usize) -> usize {
        pos
    }

    open spec fn near_group(m: TableModel, pos: usize, player: Player, group: usize) -> bool {
        (pos as int) < size(m) && adjacency(m, player).near[pos as int]
    }

    open spec fn adjacent(m: TableModel, a: usize, b: usize) -> bool {
        m.width > 0 && a != b && -1 <= a / m.width - b / m.width <= 1 && -1 <= a % m.width - b % m.width <= 1
    }

    open spec fn delta_score(m: TableModel, player: Player) -> i32 {
        if m.steps.len() == 0 || m.steps.last().gain > 1 {
            0
        } else if m.steps.last().player == player {
            m.steps.last().gain as i32
        } else {
            (0 - m.steps.last().gain) as i32
        }
    }

    open spec fn first_position(m: TableModel) -> usize {
        0
    }

    open spec fn last_position(m: TableModel) -> usize {
        if size(m) == 0 {
            0
        } else {
            (size(m) - 1) as usize
        }
    }

    open spec fn after_put(m: TableModel, pos: usize, player: Player) -> TableModel {
        TableModel {
            steps: m.steps.push(Step { pos, player, gain: gain(m, pos, player), hash_before: m.hash }),
            hash: m.hash ^ m.zobrist[2 * pos + color(player)],
            ..m
        }
    }

    fn min_pos(&self) -> (r: usize) {
        0
    }

    fn max_pos(&self) -> (r: usize) {
        let n = self.size_exec();
        if n == 0 {
            0
        } else {
            n - 1
        }
    }

    fn zobrist(&self) -> (r: &Zobrist) {
        &self.zobrist
    }

    fn is_bound(&self, pos: usize) -> (r: bool) {
        pos < self.size_exec() && self.inside[pos]
    }

    fn is_putting_allowed(&self, pos: usize) -> (r: bool) {
        if pos < self.size_exec() && self.open[pos] {
            let ghost ps = positions(self.steps@);
            let mut i: usize = 0;
            while i < self.steps.len()
                invariant
                    ps == positions(self.steps@),
                    i <= self.steps@.len(),
                    forall|k: int| 0 <= k < i ==> ps[k] != pos,
                decreases self.steps@.len() - i,
            {
                if self.steps[i].pos == pos {
                    assert(ps[i as int] == pos);
                    return false;
                }
                i = i + 1;
            }
            true
        } else {
            false
        }
    }

    fn is_players_empty_base(&self, pos: usize, player: Player) -> (r: bool) {
        false
    }

    fn number_near_groups(&self, pos: usize, player: Player) -> (r: u32) {
        let table = match player {
            Player::Red => &self.red.groups,
            Player::Black => &self.black.groups,
        };
        if pos < self.size_exec() {
            if table[pos] > 8 {
                8
            } else {
                table[pos]
            }
        } else {
            0
        }
    }

    fn number_near_points(&self, pos: usize, player: Player) -> (r: u32) {
        let table = match player {
            Player::Red => &self.red.stones,
            Player::Black => &self.black.stones,
        };
        if pos < self.size_exec() {
            if table[pos] > 8 {
                8
            } else {
                table[pos]
            }
        } else {
            0
        }
    }

    fn is_near(&self, a: usize, b: usize) -> (r: bool) {
        if self.width == 0 || a == b {
            return false;
        }
        let (ra, rb) = (a / self.width, b / self.width);
        let (ca, cb) = (a % self.width, b % self.width);
        let rows = if ra >= rb { ra - rb } else { rb - ra };
        let cols = if ca >= cb { ca - cb } else { cb - ca };
        rows <= 1 && cols <= 1
    }

    fn has_near_points(&self, pos: usize, player: Player) -> (r: bool) {
        let table = match player {
            Player::Red => &self.red.near,
            Player::Black => &self.black.near,
        };
        pos < self.size_exec() && table[pos]
    }

    fn find_dsu_set(&self, pos: usize) -> (r: usize) {
        pos
    }

    fn has_near_dsu_group(&self, pos: usize, player: Player, group: usize) -> (r: bool) {
        self.has_near_points(pos, player)
    }

    fn get_delta_score(&self, player: Player) -> (r: i32) {
        if self.steps.len() == 0 {
            return 0;
        }
        let last = self.steps[self.steps.len() - 1];
        if last.gain > 1 {
            return 0;
        }
        let gain: i32 = last.gain as i32;
        if last.player == player {
            gain
        } else {
            -gain
        }
    }

    fn move_at(&self, i: usize) -> (r: usize) {
        self.steps[i].pos
    }

    fn moves_count(&self) -> (r: usize) {
        self.steps.len()
    }

    fn last_move(&self) -> (r: Option<usize>) {
        if self.steps.len() == 0 {
            None
        } else {
            Some(self.steps[self.steps.len() - 1].pos)
        }
    }

    fn put_point(&mut self, pos: usize, player: Player) -> (r: bool) {
        let g = self.gain_of(pos, player);
        let table_len = self.zobrist.len();
        assert(pos < table_len / 2);
        let key_index = match player {
            Player::Red => pos * 2,
            Player::Black => pos * 2 + 1,
        };
        let key = self.zobrist.get_hash(key_index);
        let ghost m0 = self.model();
        let ghost saved0 = self.saved();
        let ghost before = self.steps@;
        self.steps.push(Step { pos, player, gain: g, hash_before: self.hash });
        self.hash = self.hash ^ key;
        proof {
            assert(self.model().red_captures == m0.red_captures);
            assert(self.model() == TableBoard::after_put(m0, pos, player));
            assert(self.steps@.take(before.len() as int) =~= before);
            assert(self.saved() =~= saved0.push(m0)) by {
                assert forall|i: int| 0 <= i < before.len() implies self.steps@.take(i) =~= before.take(i) by {}
            }
            assert(positions(self.steps@) =~= positions(before).push(pos));
        }
        true
    }

    fn undo(&mut self) -> (r: bool) {
        let ghost saved0 = self.saved();
        let ghost before = self.steps@;
        let step = self.steps.pop().unwrap();
        self.hash = step.hash_before;
        proof {
            assert(before.take(before.len() - 1) =~= before.drop_last());
            assert(self.saved() =~= saved0.drop_last()) by {
                assert forall|i: int| 0 <= i < self.steps@.len() implies self.steps@.take(i) =~= before.take(i) by {}
            }
        }
        true
    }
}

} // verus!
