use vstd::prelude::*;
use vstd::array::spec_array_update;
use crate::search::{Evaluable, Player as Role, minimax_value, best_value, lemma_best_value_attained};

verus! {

broadcast use vstd::array::group_array_axioms;

/// Number of rows of the board; row 0 is the top.
pub const ROWS: usize = 6;

/// Number of columns of the board.
pub const COLS: usize = 7;

/// The content of one cell, and whose turn it is.
#[derive(Copy, Clone, PartialEq, Eq, Structural, Debug)]
pub enum Player {
    Red,
    Black,
    Empty,
}

impl Player {
    /// The player who moves after this one.
    pub open spec fn opponent(self) -> Player {
        match self {
            Player::Red => Player::Black,
            Player::Black => Player::Red,
            Player::Empty => Player::Empty,
        }
    }

    fn get_oppenent(self) -> (r: Player)
        ensures
            r == self.opponent(),
    {
        match self {
            Player::Red => Player::Black,
            Player::Black => Player::Red,
            Player::Empty => Player::Empty,
        }
    }

    /// The character that stands for this cell on a printed board.
    pub fn symbol(&self) -> (r: char)
        ensures
            r == match self {
                Player::Red => 'R',
                Player::Black => 'B',
                Player::Empty => '+',
            },
    {
        match self {
            Player::Red => 'R',
            Player::Black => 'B',
            Player::Empty => '+',
        }
    }
}

/// A connect-four position: six rows of seven cells and the player to move.
pub struct ConnectFour {
    pub state: [[Player; 7]; 6],
    pub turn: Player,
}

/// Whether `(r, c)` is a cell of the board.
pub open spec fn in_board(r: int, c: int) -> bool {
    0 <= r < ROWS && 0 <= c < COLS
}

impl ConnectFour {
    /// The cell in row `r` and column `c`.
    pub open spec fn cell(self, r: int, c: int) -> Player {
        self.state[r][c]
    }

    /// Four cells of `p` in a row, starting at `(r, c)` and stepping by
    /// `(dr, dc)`.
    pub open spec fn line_at(self, p: Player, r: int, c: int, dr: int, dc: int) -> bool {
        &&& in_board(r, c)
        &&& in_board(r + 3 * dr, c + 3 * dc)
        &&& self.cell(r, c) == p
        &&& self.cell(r + dr, c + dc) == p
        &&& self.cell(r + 2 * dr, c + 2 * dc) == p
        &&& self.cell(r + 3 * dr, c + 3 * dc) == p
    }

    /// Four cells of `p` in a row somewhere along direction `(dr, dc)`.
    pub open spec fn has_line_along(self, p: Player, dr: int, dc: int) -> bool {
        exists|r: int, c: int| #[trigger] self.line_at(p, r, c, dr, dc)
    }

    /// Four cells of `p` in a row vertically, horizontally or diagonally.
    pub open spec fn has_four(self, p: Player) -> bool {
        ||| self.has_line_along(p, 1, 0)
        ||| self.has_line_along(p, 0, 1)
        ||| self.has_line_along(p, 1, 1)
        ||| self.has_line_along(p, 1, -1)
    }

    /// The winner: Red if Red has four in a row, else Black if Black has,
    /// else `Empty`.
    pub open spec fn winner(self) -> Player {
        if self.has_four(Player::Red) {
            Player::Red
        } else if self.has_four(Player::Black) {
            Player::Black
        } else {
            Player::Empty
        }
    }

    /// No cell is empty.
    pub open spec fn filled(self) -> bool {
        forall|r: int, c: int| in_board(r, c) ==> #[trigger] self.cell(r, c) != Player::Empty
    }

    /// The lowest empty row among the top `n` rows of column `col`, or -1.
    pub open spec fn lowest_empty(self, col: int, n: nat) -> int
        decreases n,
    {
        if n == 0 {
            -1
        } else if self.cell(n - 1, col) == Player::Empty {
            n - 1
        } else {
            self.lowest_empty(col, (n - 1) as nat)
        }
    }

    /// A move in column `col` is legal: the column exists and is not full.
    pub open spec fn can_play(self, col: int) -> bool {
        0 <= col < COLS && self.lowest_empty(col, ROWS as nat) >= 0
    }

    /// The position after the player to move drops a piece into `col`.
    pub open spec fn played(self, col: int) -> ConnectFour {
        let r = self.lowest_empty(col, ROWS as nat);
        ConnectFour {
            state: spec_array_update(self.state, r, spec_array_update(self.state[r], col, self.turn)),
            turn: self.turn.opponent(),
        }
    }

    /// The positions reachable by one legal move in the first `n` columns,
    /// left to right.
    pub open spec fn children_upto(self, n: nat) -> Seq<ConnectFour>
        decreases n,
    {
        if n == 0 {
            Seq::empty()
        } else if self.can_play(n - 1) {
            self.children_upto((n - 1) as nat).push(self.played(n - 1))
        } else {
            self.children_upto((n - 1) as nat)
        }
    }

    /// The empty board with Red to move.
    pub fn new() -> (r: ConnectFour)
        ensures
            forall|i: int, j: int| in_board(i, j) ==> #[trigger] r.cell(i, j) == Player::Empty,
            r.turn == Player::Red,
    {
        ConnectFour { state: [[Player::Empty; 7]; 6], turn: Player::Red }
    }

    /// A copy of `cf`.
    pub fn new_from_existing(cf: &ConnectFour) -> (r: Self)
        ensures
            r == *cf,
    {
        ConnectFour { state: cf.state, turn: cf.turn }
    }
}

impl ConnectFour {
    /// Whether `player` has four in a row from `(row, col)` along `(dr, dc)`.
    fn line_from(&self, player: Player, row: usize, col: usize, dr: i64, dc: i64) -> (r: bool)
        requires
            row < ROWS,
            col < COLS,
            -1 <= dr <= 1,
            -1 <= dc <= 1,
        ensures
            r == self.line_at(player, row as int, col as int, dr as int, dc as int),
    {
        let end_row = row as i64 + 3 * dr;
        let end_col = col as i64 + 3 * dc;
        if end_row < 0 || end_row >= 6 || end_col < 0 || end_col >= 7 {
            return false;
        }
        let r1 = (row as i64 + dr) as usize;
        let c1 = (col as i64 + dc) as usize;
        let r2 = (row as i64 + 2 * dr) as usize;
        let c2 = (col as i64 + 2 * dc) as usize;
        let r3 = end_row as usize;
        let c3 = end_col as usize;
        self.state[row][col] == player && self.state[r1][c1] == player && self.state[r2][c2]
            == player && self.state[r3][c3] == player
    }

    /// Whether `player` has four in a row anywhere along `(dr, dc)`.
    fn has_line(&self, player: Player, dr: i64, dc: i64) -> (r: bool)
        requires
            -1 <= dr <= 1,
            -1 <= dc <= 1,
        ensures
            r == self.has_line_along(player, dr as int, dc as int),
    {
        let mut row: usize = 0;
        while row < 6
            invariant
                row <= ROWS,
                -1 <= dr <= 1,
                -1 <= dc <= 1,
                forall|r: int, c: int|
                    0 <= r < row ==> !#[trigger] self.line_at(player, r, c, dr as int, dc as int),
            decreases 6 - row,
        {
            let mut col: usize = 0;
            while col < 7
                invariant
                    row < ROWS,
                    col <= COLS,
                    -1 <= dr <= 1,
                    -1 <= dc <= 1,
                    forall|r: int, c: int|
                        0 <= r < row ==> !#[trigger] self.line_at(player, r, c, dr as int, dc as int),
                    forall|c: int|
                        0 <= c < col ==> !#[trigger] self.line_at(
                            player,
                            row as int,
                            c,
                            dr as int,
                            dc as int,
                        ),
                decreases 7 - col,
            {
                if self.line_from(player, row, col, dr, dc) {
                    return true;
                }
                col = col + 1;
            }
            row = row + 1;
        }
        false
    }

    /// The player with four in a row, Red checked first; `Empty` if none.
    pub fn get_winner(&self) -> (r: Player)
        ensures
            r == self.winner(),
    {
        let players: [Player; 2] = [Player::Red, Player::Black];
        let mut i: usize = 0;
        while i < 2
            invariant
                i <= 2,
                players@ == seq![Player::Red, Player::Black],
                i >= 1 ==> !self.has_four(Player::Red),
                i >= 2 ==> !self.has_four(Player::Black),
            decreases 2 - i,
        {
            let player = players[i];
            if self.has_line(player, 1, 0) || self.has_line(player, 0, 1) || self.has_line(
                player,
                1,
                1,
            ) || self.has_line(player, 1, -1) {
                return player;
            }
            i = i + 1;
        }
        Player::Empty
    }
}

impl ConnectFour {
    /// Drops a piece of the player to move into column `col` and passes the
    /// turn. Returns false, leaving the position unchanged, when the column
    /// is full or does not exist.
    pub fn play_move(&mut self, col: usize) -> (r: bool)
        ensures
            r == old(self).can_play(col as int),
            r ==> *final(self) == old(self).played(col as int),
            !r ==> *final(self) == *old(self),
    {
        if col >= 7 {
            return false;
        }
        let ghost s0 = *self;
        let mut row: usize = 6;
        while row > 0
            invariant
                row <= ROWS,
                col < COLS,
                *self == s0,
                s0 == *old(self),
                s0.lowest_empty(col as int, ROWS as nat) == s0.lowest_empty(col as int, row as nat),
            decreases row,
        {
            row = row - 1;
            if self.state[row][col] == Player::Empty {
                let mut line = self.state[row];
                line[col] = self.turn;
                self.state[row] = line;
                self.turn = self.turn.get_oppenent();
                proof {
                    let r = row as int;
                    assert(line =~= spec_array_update(s0.state[r], col as int, s0.turn));
                    assert(self.state =~= spec_array_update(
                        s0.state,
                        r,
                        spec_array_update(s0.state[r], col as int, s0.turn),
                    ));
                }
                return true;
            }
        }
        false
    }

    /// Whether no cell is empty.
    pub fn is_filled(&self) -> (r: bool)
        ensures
            r == self.filled(),
    {
        let mut row: usize = 0;
        while row < 6
            invariant
                row <= ROWS,
                forall|r: int, c: int|
                    0 <= r < row && 0 <= c < COLS ==> #[trigger] self.cell(r, c) != Player::Empty,
            decreases 6 - row,
        {
            let mut col: usize = 0;
            while col < 7
                invariant
                    row < ROWS,
                    col <= COLS,
                    forall|r: int, c: int|
                        0 <= r < row && 0 <= c < COLS ==> #[trigger] self.cell(r, c)
                            != Player::Empty,
                    forall|c: int| 0 <= c < col ==> #[trigger] self.cell(row as int, c) != Player::Empty,
                decreases 7 - col,
            {
                if self.state[row][col] == Player::Empty {
                    assert(in_board(row as int, col as int) && self.cell(row as int, col as int)
                        == Player::Empty);
                    return false;
                }
                col = col + 1;
            }
            row = row + 1;
        }
        true
    }
}

impl Evaluable for ConnectFour {
    open spec fn children_spec(&self) -> Seq<ConnectFour> {
        self.children_upto(COLS as nat)
    }

    open spec fn is_terminal_spec(&self) -> bool {
        self.winner() != Player::Empty || self.filled()
    }

    open spec fn evaluation(&self) -> int {
        match self.winner() {
            Player::Red => 1,
            Player::Black => -1,
            Player::Empty => 0,
        }
    }

    open spec fn min_evaluation_spec() -> int {
        -1
    }

    open spec fn max_evaluation_spec() -> int {
        1
    }

    proof fn lemma_evaluation_bounds(&self) {
    }

    /// One position per legal move, columns left to right.
    fn get_children(&self) -> (r: Vec<ConnectFour>) {
        let mut children: Vec<ConnectFour> = Vec::new();
        let mut col: usize = 0;
        while col < 7
            invariant
                col <= COLS,
                children@ == self.children_upto(col as nat),
            decreases 7 - col,
        {
            let mut new_child = ConnectFour::new_from_existing(self);
            let is_legal_move = new_child.play_move(col);
            if is_legal_move {
                children.push(new_child);
            }
            col = col + 1;
        }
        children
    }

    fn get_min_evaluation() -> (r: i64) {
        -1
    }

    fn get_max_evaluation() -> (r: i64) {
        1
    }

    fn is_terminal_state(&self) -> (r: bool) {
        !(self.get_winner() == Player::Empty) || self.is_filled()
    }

    fn evaluate(&self) -> (r: i64) {
        match self.get_winner() {
            Player::Red => 1,
            Player::Black => -1,
            Player::Empty => 0,
        }
    }
}

/// `b` is `a` reflected left to right, with the same player to move.
pub open spec fn is_mirror(a: ConnectFour, b: ConnectFour) -> bool {
    &&& a.turn == b.turn
    &&& forall|r: int, c: int| in_board(r, c) ==> #[trigger] a.cell(r, c) == b.cell(r, 6 - c)
}

/// Reflection is its own inverse.
pub proof fn lemma_mirror_symmetric(a: ConnectFour, b: ConnectFour)
    requires
        is_mirror(a, b),
    ensures
        is_mirror(b, a),
{
    assert forall|r: int, c: int| in_board(r, c) implies #[trigger] b.cell(r, c) == a.cell(r, 6 - c) by {
        assert(a.cell(r, 6 - c) == b.cell(r, 6 - (6 - c)));
    }
}

/// A line of four in `a` is a line of four in its reflection `b`.
proof fn lemma_mirror_has_four(a: ConnectFour, b: ConnectFour, p: Player)
    requires
        is_mirror(a, b),
    ensures
        a.has_four(p) ==> b.has_four(p),
{
    if a.has_line_along(p, 1, 0) {
        let (r, c) = choose|r: int, c: int| #[trigger] a.line_at(p, r, c, 1, 0);
        assert(a.cell(r, c) == b.cell(r, 6 - c));
        assert(a.cell(r + 1, c) == b.cell(r + 1, 6 - c));
        assert(a.cell(r + 2, c) == b.cell(r + 2, 6 - c));
        assert(a.cell(r + 3, c) == b.cell(r + 3, 6 - c));
        assert(b.line_at(p, r, 6 - c, 1, 0));
    }
    if a.has_line_along(p, 0, 1) {
        let (r, c) = choose|r: int, c: int| #[trigger] a.line_at(p, r, c, 0, 1);
        assert(a.cell(r, c) == b.cell(r, 6 - c));
        assert(a.cell(r, c + 1) == b.cell(r, 6 - (c + 1)));
        assert(a.cell(r, c + 2) == b.cell(r, 6 - (c + 2)));
        assert(a.cell(r, c + 3) == b.cell(r, 6 - (c + 3)));
        assert(b.line_at(p, r, 3 - c, 0, 1));
    }
    if a.has_line_along(p, 1, 1) {
        let (r, c) = choose|r: int, c: int| #[trigger] a.line_at(p, r, c, 1, 1);
        assert(a.cell(r, c) == b.cell(r, 6 - c));
        assert(a.cell(r + 1, c + 1) == b.cell(r + 1, 6 - (c + 1)));
        assert(a.cell(r + 2, c + 2) == b.cell(r + 2, 6 - (c + 2)));
        assert(a.cell(r + 3, c + 3) == b.cell(r + 3, 6 - (c + 3)));
        assert(b.line_at(p, r, 6 - c, 1, -1));
    }
    if a.has_line_along(p, 1, -1) {
        let (r, c) = choose|r: int, c: int| #[trigger] a.line_at(p, r, c, 1, -1);
        assert(a.cell(r, c) == b.cell(r, 6 - c));
        assert(a.cell(r + 1, c - 1) == b.cell(r + 1, 6 - (c - 1)));
        assert(a.cell(r + 2, c - 2) == b.cell(r + 2, 6 - (c - 2)));
        assert(a.cell(r + 3, c - 3) == b.cell(r + 3, 6 - (c - 3)));
        assert(b.line_at(p, r, 6 - c, 1, 1));
    }
}

/// Reflection keeps the winner, fullness, terminality and evaluation.
proof fn lemma_mirror_static(a: ConnectFour, b: ConnectFour)
    requires
        is_mirror(a, b),
    ensures
        a.winner() == b.winner(),
        a.filled() == b.filled(),
        a.is_terminal_spec() == b.is_terminal_spec(),
        a.evaluation() == b.evaluation(),
{
    lemma_mirror_symmetric(a, b);
    lemma_mirror_has_four(a, b, Player::Red);
    lemma_mirror_has_four(b, a, Player::Red);
    lemma_mirror_has_four(a, b, Player::Black);
    lemma_mirror_has_four(b, a, Player::Black);
    if a.filled() {
        assert forall|r: int, c: int| in_board(r, c) implies #[trigger] b.cell(r, c)
            != Player::Empty by {
            assert(a.cell(r, 6 - c) == b.cell(r, c));
        }
    }
    if b.filled() {
        assert forall|r: int, c: int| in_board(r, c) implies #[trigger] a.cell(r, c)
            != Player::Empty by {
            assert(b.cell(r, 6 - c) == a.cell(r, c));
        }
    }
}

/// Column `col` of `a` fills like column `6 - col` of its reflection.
proof fn lemma_mirror_lowest_empty(a: ConnectFour, b: ConnectFour, col: int, n: nat)
    requires
        is_mirror(a, b),
        0 <= col < COLS,
        n <= ROWS,
    ensures
        a.lowest_empty(col, n) == b.lowest_empty(6 - col, n),
    decreases n,
{
    if n > 0 {
        assert(a.cell(n - 1, col) == b.cell(n - 1, 6 - col));
        lemma_mirror_lowest_empty(a, b, col, (n - 1) as nat);
    }
}

/// The lowest empty row found is a row of the board.
proof fn lemma_lowest_empty_range(a: ConnectFour, col: int, n: nat)
    requires
        n <= ROWS,
    ensures
        -1 <= a.lowest_empty(col, n) < n,
    decreases n,
{
    if n > 0 {
        lemma_lowest_empty_range(a, col, (n - 1) as nat);
    }
}

/// Playing column `col` in `a` and column `6 - col` in its reflection gives
/// reflected positions.
pub proof fn lemma_mirror_played(a: ConnectFour, b: ConnectFour, col: int)
    requires
        is_mirror(a, b),
        a.can_play(col),
    ensures
        b.can_play(6 - col),
        is_mirror(a.played(col), b.played(6 - col)),
{
    lemma_mirror_lowest_empty(a, b, col, ROWS as nat);
    lemma_lowest_empty_range(a, col, ROWS as nat);
    let row = a.lowest_empty(col, ROWS as nat);
    let pa = a.played(col);
    let pb = b.played(6 - col);
    assert forall|r: int, c: int| in_board(r, c) implies #[trigger] pa.cell(r, c) == pb.cell(
        r,
        6 - c,
    ) by {
        assert(a.cell(r, c) == b.cell(r, 6 - c));
        if r == row {
            assert(pa.state[r]@ == a.state[r]@.update(col, a.turn));
            assert(pb.state[r]@ == b.state[r]@.update(6 - col, b.turn));
        }
    }
}

/// Every successor comes from a legal move.
proof fn lemma_children_from_moves(s: ConnectFour, n: nat)
    requires
        n <= COLS,
    ensures
        forall|i: int|
            0 <= i < s.children_upto(n).len() ==> exists|c: int|
                0 <= c < n && s.can_play(c) && #[trigger] s.children_upto(n)[i] == s.played(c),
    decreases n,
{
    if n > 0 {
        lemma_children_from_moves(s, (n - 1) as nat);
        let prev = s.children_upto((n - 1) as nat);
        let cur = s.children_upto(n);
        assert forall|i: int| 0 <= i < cur.len() implies exists|c: int|
            0 <= c < n && s.can_play(c) && #[trigger] cur[i] == s.played(c) by {
            if i < prev.len() {
                assert(cur[i] == prev[i]);
                let c = choose|c: int|
                    0 <= c < n - 1 && s.can_play(c) && #[trigger] prev[i] == s.played(c);
                assert(0 <= c < n && s.can_play(c) && cur[i] == s.played(c));
            } else {
                assert(cur[i] == s.played(n - 1));
            }
        }
    }
}

/// Every legal move gives a successor.
proof fn lemma_moves_give_children(s: ConnectFour, n: nat)
    requires
        n <= COLS,
    ensures
        forall|c: int|
            0 <= c < n && s.can_play(c) ==> exists|i: int|
                0 <= i < s.children_upto(n).len() && s.children_upto(n)[i] == #[trigger] s.played(
                    c,
                ),
    decreases n,
{
    if n > 0 {
        lemma_moves_give_children(s, (n - 1) as nat);
        let prev = s.children_upto((n - 1) as nat);
        let cur = s.children_upto(n);
        assert forall|c: int| 0 <= c < n && s.can_play(c) implies exists|i: int|
            0 <= i < cur.len() && cur[i] == #[trigger] s.played(c) by {
            if c < n - 1 {
                let i = choose|i: int| 0 <= i < prev.len() && prev[i] == #[trigger] s.played(c);
                assert(cur[i] == prev[i]);
            } else {
                assert(cur[prev.len() as int] == s.played(c));
            }
        }
    }
}

/// Every successor comes from a legal move, and every legal move gives a
/// successor.
proof fn lemma_children_upto(s: ConnectFour, n: nat)
    requires
        n <= COLS,
    ensures
        forall|i: int|
            0 <= i < s.children_upto(n).len() ==> exists|c: int|
                0 <= c < n && s.can_play(c) && #[trigger] s.children_upto(n)[i] == s.played(c),
        forall|c: int|
            0 <= c < n && s.can_play(c) ==> exists|i: int|
                0 <= i < s.children_upto(n).len() && s.children_upto(n)[i] == #[trigger] s.played(
                    c,
                ),
{
    lemma_children_from_moves(s, n);
    lemma_moves_give_children(s, n);
}

/// The best successor of `a` has a reflected counterpart among the
/// successors of `b`, so `b`'s best value is at least as good for `p`.
proof fn lemma_mirror_dominates(a: ConnectFour, b: ConnectFour, depth: nat, p: Role)
    requires
        is_mirror(a, b),
        depth >= 1,
        a.children_spec().len() > 0,
        b.children_spec().len() > 0,
    ensures
        !p.prefers(
            best_value(a.children_spec(), (depth - 1) as nat, p, a.children_spec().len()),
            best_value(b.children_spec(), (depth - 1) as nat, p, b.children_spec().len()),
        ),
    decreases depth, 0nat,
{
    let ca = a.children_spec();
    let cb = b.children_spec();
    let d = (depth - 1) as nat;
    lemma_best_value_attained(ca, d, p, ca.len());
    lemma_best_value_attained(cb, d, p, cb.len());
    lemma_children_upto(a, COLS as nat);
    lemma_children_upto(b, COLS as nat);
    let j = choose|j: int|
        0 <= j < ca.len() && best_value(ca, d, p, ca.len()) == #[trigger] minimax_value(
            ca[j],
            d,
            p.other(),
        );
    let c = choose|c: int| 0 <= c < COLS && a.can_play(c) && #[trigger] a.children_upto(7)[j] == a.played(c);
    lemma_mirror_played(a, b, c);
    let k = choose|k: int| 0 <= k < cb.len() && b.children_upto(7)[k] == #[trigger] b.played(6 - c);
    lemma_mirror_value(ca[j], cb[k], d, p.other());
    assert(!p.prefers(minimax_value(cb[k], d, p.other()), best_value(cb, d, p, cb.len())));
}

/// A position and its left-to-right reflection have the same minimax value
/// at every depth and for either role.
pub proof fn lemma_mirror_value(a: ConnectFour, b: ConnectFour, depth: nat, p: Role)
    requires
        is_mirror(a, b),
    ensures
        minimax_value(a, depth, p) == minimax_value(b, depth, p),
    decreases depth, 1nat,
{
    lemma_mirror_static(a, b);
    lemma_mirror_symmetric(a, b);
    lemma_children_upto(a, COLS as nat);
    lemma_children_upto(b, COLS as nat);
    if a.children_spec().len() > 0 {
        assert(a.children_spec()[0] == a.children_upto(7)[0]);
        let c = choose|c: int| 0 <= c < COLS && a.can_play(c) && #[trigger] a.children_upto(7)[0] == a.played(c);
        lemma_mirror_played(a, b, c);
    }
    if b.children_spec().len() > 0 {
        assert(b.children_spec()[0] == b.children_upto(7)[0]);
        let c = choose|c: int| 0 <= c < COLS && b.can_play(c) && #[trigger] b.children_upto(7)[0] == b.played(c);
        lemma_mirror_played(b, a, c);
    }
    if depth >= 1 && a.children_spec().len() > 0 && !a.is_terminal_spec() {
        lemma_mirror_dominates(a, b, depth, p);
        lemma_mirror_dominates(b, a, depth, p);
    }
}

/// Mirroring the board and the column played gives the same value: playing
/// `col` in `a` and `6 - col` in its reflection `b` leads to positions of
/// equal minimax value.
pub proof fn lemma_mirror_move_value(a: ConnectFour, b: ConnectFour, col: int, depth: nat, p: Role)
    requires
        is_mirror(a, b),
        a.can_play(col),
    ensures
        b.can_play(6 - col),
        minimax_value(a.played(col), depth, p) == minimax_value(b.played(6 - col), depth, p),
{
    lemma_mirror_played(a, b, col);
    lemma_mirror_value(a.played(col), b.played(6 - col), depth, p);
}

} // verus!
