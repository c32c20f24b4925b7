use vstd::prelude::*;

verus! {

/// A game position that the search engines can explore.
///
/// The spec functions describe the position mathematically; each executable
/// method must agree with its spec function.
pub trait Evaluable: Sized {
    /// The legal successor positions, in search order.
    spec fn children_spec(&self) -> Seq<Self>;

    /// Whether the game is over in this position.
    spec fn is_terminal_spec(&self) -> bool;

    /// The static evaluation of this position.
    spec fn evaluation(&self) -> int;

    /// The smallest evaluation any position of this game can have.
    spec fn min_evaluation_spec() -> int;

    /// The largest evaluation any position of this game can have.
    spec fn max_evaluation_spec() -> int;

    /// Every evaluation lies within the game-wide bounds.
    proof fn lemma_evaluation_bounds(&self)
        ensures
            Self::min_evaluation_spec() <= self.evaluation() <= Self::max_evaluation_spec(),
    ;

    fn get_children(&self) -> (r: Vec<Self>)
        ensures
            r@ == self.children_spec(),
    ;

    fn get_min_evaluation() -> (r: i64)
        ensures
            r as int == Self::min_evaluation_spec(),
    ;

    fn get_max_evaluation() -> (r: i64)
        ensures
            r as int == Self::max_evaluation_spec(),
    ;

    fn is_terminal_state(&self) -> (r: bool)
        ensures
            r == self.is_terminal_spec(),
    ;

    fn evaluate(&self) -> (r: i64)
        ensures
            r as int == self.evaluation(),
    ;
}

/// The perspective from which one ply is searched.
#[allow(non_camel_case_types)]
#[derive(PartialEq, Eq, Structural, Clone, Copy, Debug)]
pub enum Player {
    MINIMIZING,
    MAXIMIZING,
}

impl Player {
    /// The role of the opponent.
    pub open spec fn other(self) -> Player {
        match self {
            Player::MINIMIZING => Player::MAXIMIZING,
            Player::MAXIMIZING => Player::MINIMIZING,
        }
    }

    /// Whether value `a` is strictly more favourable than `b` to this role.
    pub open spec fn prefers(self, a: int, b: int) -> bool {
        match self {
            Player::MINIMIZING => a < b,
            Player::MAXIMIZING => a > b,
        }
    }

    /// The preferred of an incumbent value `a` and a challenger `b`.
    pub open spec fn pick(self, a: int, b: int) -> int {
        if self.prefers(b, a) {
            b
        } else {
            a
        }
    }

    fn get_other_player(&self) -> (r: Player)
        ensures
            r == self.other(),
    {
        match self {
            Player::MINIMIZING => Player::MAXIMIZING,
            Player::MAXIMIZING => Player::MINIMIZING,
        }
    }
}

/// A position at which the search stops: no successors, no depth left, or
/// the game is over.
pub open spec fn is_leaf<S: Evaluable>(s: S, depth: nat) -> bool {
    s.children_spec().len() == 0 || depth == 0 || s.is_terminal_spec()
}

/// The game-theoretic value of `s` searched `depth` plies deep, with `p` to
/// choose among the successors.
pub open spec fn minimax_value<S: Evaluable>(s: S, depth: nat, p: Player) -> int
    decreases depth, 0nat,
{
    if is_leaf(s, depth) {
        s.evaluation()
    } else {
        best_value(s.children_spec(), (depth - 1) as nat, p, s.children_spec().len())
    }
}

/// The value `p` obtains by choosing among the first `n` of `cs`, each
/// searched `depth` plies deep by the opponent.
pub open spec fn best_value<S: Evaluable>(cs: Seq<S>, depth: nat, p: Player, n: nat) -> int
    decreases depth, n + 1,
{
    if n <= 1 {
        minimax_value(cs[0], depth, p.other())
    } else {
        p.pick(
            best_value(cs, depth, p, (n - 1) as nat),
            minimax_value(cs[n - 1], depth, p.other()),
        )
    }
}

/// The index of the first among the first `n` of `cs` that attains
/// `best_value(cs, depth, p, n)`: a later child replaces an earlier one only
/// when strictly better for `p`.
pub open spec fn best_index<S: Evaluable>(cs: Seq<S>, depth: nat, p: Player, n: nat) -> nat
    decreases n,
{
    if n <= 1 {
        0
    } else if p.prefers(
        minimax_value(cs[n - 1], depth, p.other()),
        best_value(cs, depth, p, (n - 1) as nat),
    ) {
        (n - 1) as nat
    } else {
        best_index(cs, depth, p, (n - 1) as nat)
    }
}

/// One node of a search: a position and, once searched, its value.
pub struct Minimax<InfoNode: Evaluable> {
    pub value: Option<i64>,
    pub info: InfoNode,
}

/// What a minimax search reports: the chosen successor (none at a leaf) and
/// two ply counters used to break ties between equally valued successors.
pub struct MinimaxResult<InfoNode: Evaluable> {
    pub distance_to_zero_depth: u16,
    pub distance_to_terminal_node: u16,
    pub node: Option<Minimax<InfoNode>>,
}

impl<InfoNode: Evaluable> Minimax<InfoNode> {
    /// The node holds exactly the value `v`.
    pub open spec fn has_value(self, v: int) -> bool {
        self.value.is_some() && self.value.unwrap() as int == v
    }
}

impl<InfoNode: Evaluable> MinimaxResult<InfoNode> {
    fn new(
        node: Option<Minimax<InfoNode>>,
        distance_to_terminal_node: u16,
        distance_to_zero_depth: u16,
    ) -> (r: MinimaxResult<InfoNode>)
        ensures
            r.node == node,
            r.distance_to_terminal_node == distance_to_terminal_node,
            r.distance_to_zero_depth == distance_to_zero_depth,
    {
        MinimaxResult { node, distance_to_terminal_node, distance_to_zero_depth }
    }

    pub fn get_distance_to_terminal_node(&self) -> (r: u16)
        ensures
            r == self.distance_to_terminal_node,
    {
        self.distance_to_terminal_node
    }

    pub fn get_terminal_distance_to_zero_depth(&self) -> (r: u16)
        ensures
            r == self.distance_to_zero_depth,
    {
        self.distance_to_zero_depth
    }
}

impl<InfoNode: Evaluable> Minimax<InfoNode> {
    /// A node for `info` that has not been searched yet.
    pub fn new(info: InfoNode) -> (r: Minimax<InfoNode>)
        ensures
            r.info == info,
            r.value.is_none(),
    {
        Minimax { value: None, info }
    }

    pub fn get_info(&mut self) -> (r: &mut InfoNode)
        ensures
            *r == old(self).info,
            final(self).value == old(self).value,
            final(self).info == *final(r),
    {
        &mut self.info
    }

    pub fn get_positional_estimate(&self) -> (r: Option<i64>)
        ensures
            r == self.value,
    {
        self.value
    }

    /// Searches `new_child` and lets it replace `best_child` when its value
    /// is strictly better for `player`, or equal with a longer line to the
    /// cutoff.
    fn calculate_best_node(
        best_child: &mut Minimax<InfoNode>,
        new_child: Minimax<InfoNode>,
        best_result: &mut MinimaxResult<InfoNode>,
        depth: u16,
        player: &Player,
    )
        requires
            depth >= 1,
            old(best_child).value.is_some(),
            old(best_result).distance_to_terminal_node == depth - 1,
            old(best_result).distance_to_zero_depth == 0,
        ensures
            ({
                let v = minimax_value(new_child.info, (depth - 1) as nat, player.other());
                if player.prefers(v, old(best_child).value.unwrap() as int) {
                    final(best_child).info == new_child.info && final(best_child).has_value(v)
                } else {
                    *final(best_child) == *old(best_child)
                }
            }),
            final(best_result).distance_to_terminal_node == depth - 1,
            final(best_result).distance_to_zero_depth == 0,
        decreases depth, 0nat,
    {
        let mut new_child = new_child;
        let child_minimax_result = new_child.minimax(depth - 1, player.get_other_player());
        let child_value = new_child.value.unwrap();
        let best_value = best_child.value.unwrap();
        let more_or_equal = match player {
            Player::MINIMIZING => child_value <= best_value,
            Player::MAXIMIZING => child_value >= best_value,
        };
        if more_or_equal && (child_value == best_value
            && child_minimax_result.get_distance_to_terminal_node()
            > best_result.get_distance_to_terminal_node() || child_value != best_value) {
            *best_result = child_minimax_result;
            *best_child = new_child;
        }
    }

    fn create_new_result(best_child: Minimax<InfoNode>, best_result: MinimaxResult<InfoNode>) -> (r:
        MinimaxResult<InfoNode>)
        requires
            best_result.distance_to_terminal_node < u16::MAX,
        ensures
            r.node == Some(best_child),
            r.distance_to_terminal_node == best_result.distance_to_terminal_node + 1,
            r.distance_to_zero_depth == best_result.distance_to_zero_depth,
    {
        MinimaxResult::new(
            Some(best_child),
            best_result.get_distance_to_terminal_node() + 1,
            best_result.get_terminal_distance_to_zero_depth(),
        )
    }

    /// Exhaustive minimax search of `depth` plies with `player` to move.
    ///
    /// The node receives its game-theoretic value; the result holds the first
    /// successor that attains it (none at a leaf). The cutoff counter of a
    /// leaf is its residual depth and grows by one per ply upwards, so it
    /// always equals `depth`; the zero-depth counter is always zero.
    pub fn minimax(&mut self, depth: u16, player: Player) -> (r: MinimaxResult<InfoNode>)
        ensures
            final(self).info == old(self).info,
            final(self).has_value(minimax_value(old(self).info, depth as nat, player)),
            r.distance_to_terminal_node == depth,
            r.distance_to_zero_depth == 0,
            is_leaf(old(self).info, depth as nat) ==> r.node.is_none() && final(self).has_value(
                old(self).info.evaluation(),
            ),
            !is_leaf(old(self).info, depth as nat) ==> ({
                let cs = old(self).info.children_spec();
                let d = (depth - 1) as nat;
                &&& r.node.is_some()
                &&& r.node.unwrap().info == cs[best_index(cs, d, player, cs.len()) as int]
                &&& r.node.unwrap().has_value(minimax_value(old(self).info, depth as nat, player))
            }),
        decreases depth, 1nat,
    {
        let mut children = self.info.get_children();
        if children.len() == 0 || depth == 0 || self.info.is_terminal_state() {
            self.value = Some(self.info.evaluate());
            return MinimaxResult::new(None, depth, 0);
        }
        let ghost cs = children@;
        let ghost d = (depth - 1) as nat;
        assert(cs.len() <= usize::MAX);
        let first = children.remove(0);
        let mut best_child = Minimax::new(first);
        let mut best_result = best_child.minimax(depth - 1, player.get_other_player());
        let mut i: usize = 1;
        while children.len() > 0
            invariant
                1 <= i <= cs.len(),
                cs.len() <= usize::MAX,
                cs == self.info.children_spec(),
                depth >= 1,
                d == depth - 1,
                children@ == cs.subrange(i as int, cs.len() as int),
                best_child.info == cs[best_index(cs, d, player, i as nat) as int],
                best_child.has_value(best_value(cs, d, player, i as nat)),
                best_result.distance_to_terminal_node == depth - 1,
                best_result.distance_to_zero_depth == 0,
            decreases children.len(),
        {
            let child = children.remove(0);
            assert(child == cs[i as int]);
            Minimax::calculate_best_node(
                &mut best_child,
                Minimax::new(child),
                &mut best_result,
                depth,
                &player,
            );
            i = i + 1;
        }
        self.value = best_child.value;
        Minimax::create_new_result(best_child, best_result)
    }
}


/// How a value `r` found with the window `(alpha, beta)` relates to the true
/// value `v`: inside the window it is exact, at or below `alpha` it is an
/// upper bound, and at or above `beta` a lower bound.
pub open spec fn within_window(r: int, v: int, alpha: int, beta: int) -> bool {
    &&& r <= alpha ==> v <= r
    &&& alpha < r < beta ==> v == r
    &&& r >= beta ==> v >= r
}

/// Every minimax value lies within the game-wide evaluation bounds.
pub proof fn lemma_minimax_value_bounds<S: Evaluable>(s: S, depth: nat, p: Player)
    ensures
        S::min_evaluation_spec() <= minimax_value(s, depth, p) <= S::max_evaluation_spec(),
    decreases depth, 0nat,
{
    if is_leaf(s, depth) {
        s.lemma_evaluation_bounds();
    } else {
        lemma_best_value_bounds(s.children_spec(), (depth - 1) as nat, p, s.children_spec().len());
    }
}

/// The best value among successors lies within the evaluation bounds.
pub proof fn lemma_best_value_bounds<S: Evaluable>(cs: Seq<S>, depth: nat, p: Player, n: nat)
    ensures
        S::min_evaluation_spec() <= best_value(cs, depth, p, n) <= S::max_evaluation_spec(),
    decreases depth, n + 1,
{
    if n <= 1 {
        lemma_minimax_value_bounds(cs[0], depth, p.other());
    } else {
        lemma_best_value_bounds(cs, depth, p, (n - 1) as nat);
        lemma_minimax_value_bounds(cs[n - 1], depth, p.other());
    }
}

/// Looking at more successors never makes the best value worse for `p`.
pub proof fn lemma_best_value_monotone<S: Evaluable>(
    cs: Seq<S>,
    depth: nat,
    p: Player,
    i: nat,
    n: nat,
)
    requires
        1 <= i <= n,
    ensures
        !p.prefers(best_value(cs, depth, p, i), best_value(cs, depth, p, n)),
    decreases n,
{
    if i < n {
        lemma_best_value_monotone(cs, depth, p, i, (n - 1) as nat);
    }
}

/// The best value among the first `n` successors is as good as each of them
/// and is the value of one of them.
pub proof fn lemma_best_value_attained<S: Evaluable>(cs: Seq<S>, depth: nat, p: Player, n: nat)
    requires
        1 <= n <= cs.len(),
    ensures
        forall|i: int|
            0 <= i < n ==> !p.prefers(
                #[trigger] minimax_value(cs[i], depth, p.other()),
                best_value(cs, depth, p, n),
            ),
        exists|j: int|
            0 <= j < n && best_value(cs, depth, p, n) == #[trigger] minimax_value(
                cs[j],
                depth,
                p.other(),
            ),
    decreases n,
{
    if n > 1 {
        lemma_best_value_attained(cs, depth, p, (n - 1) as nat);
        let j = choose|j: int|
            0 <= j < n - 1 && best_value(cs, depth, p, (n - 1) as nat) == #[trigger] minimax_value(
                cs[j],
                depth,
                p.other(),
            );
        if p.prefers(
            minimax_value(cs[n - 1], depth, p.other()),
            best_value(cs, depth, p, (n - 1) as nat),
        ) {
            assert(best_value(cs, depth, p, n) == minimax_value(cs[n - 1], depth, p.other()));
        } else {
            assert(best_value(cs, depth, p, n) == minimax_value(cs[j], depth, p.other()));
        }
    } else {
        assert(best_value(cs, depth, p, n) == minimax_value(cs[0], depth, p.other()));
    }
}

/// A value found with the full window of evaluation bounds is the exact
/// minimax value.
pub proof fn lemma_full_window_exact<S: Evaluable>(s: S, depth: nat, p: Player, r: int)
    requires
        S::min_evaluation_spec() <= r <= S::max_evaluation_spec(),
        S::min_evaluation_spec() < S::max_evaluation_spec() ==> within_window(
            r,
            minimax_value(s, depth, p),
            S::min_evaluation_spec(),
            S::max_evaluation_spec(),
        ),
    ensures
        r == minimax_value(s, depth, p),
{
    lemma_minimax_value_bounds(s, depth, p);
}

impl<InfoNode: Evaluable> Minimax<InfoNode> {
    /// The worst value for `player`, from which its scan starts.
    fn get_bound(player: &Player) -> (r: i64)
        ensures
            r as int == match player {
                Player::MINIMIZING => InfoNode::max_evaluation_spec(),
                Player::MAXIMIZING => InfoNode::min_evaluation_spec(),
            },
    {
        match player {
            Player::MINIMIZING => InfoNode::get_max_evaluation(),
            Player::MAXIMIZING => InfoNode::get_min_evaluation(),
        }
    }

    /// Alpha-beta search of `depth` plies with `player` to move and the
    /// window `(alpha, beta)`, threaded down to every level.
    ///
    /// The node receives a value within the evaluation bounds that relates to
    /// its minimax value as `within_window` says; the result is the successor
    /// that gave that value (none at a leaf).
    fn alpha_beta_with_arguments(&mut self, depth: u16, alpha: i64, beta: i64, player: Player) -> (r:
        Option<Minimax<InfoNode>>)
        ensures
            final(self).info == old(self).info,
            final(self).value.is_some(),
            InfoNode::min_evaluation_spec() <= final(self).value.unwrap() as int
                <= InfoNode::max_evaluation_spec(),
            alpha < beta ==> within_window(
                final(self).value.unwrap() as int,
                minimax_value(old(self).info, depth as nat, player),
                alpha as int,
                beta as int,
            ),
            is_leaf(old(self).info, depth as nat) <==> r.is_none(),
            is_leaf(old(self).info, depth as nat) ==> final(self).has_value(
                old(self).info.evaluation(),
            ),
            r.is_some() ==> ({
                let cs = old(self).info.children_spec();
                let c = r.unwrap();
                &&& c.value == final(self).value
                &&& exists|j: int|
                    #![trigger cs[j]]
                    0 <= j < cs.len() && c.info == cs[j] && (alpha < beta ==> within_window(
                        final(self).value.unwrap() as int,
                        minimax_value(cs[j], (depth - 1) as nat, player.other()),
                        alpha as int,
                        beta as int,
                    ))
            }),
        decreases depth,
    {
        let mut children = self.info.get_children();
        if children.len() == 0 || depth == 0 || self.info.is_terminal_state() {
            self.value = Some(self.info.evaluate());
            proof {
                self.info.lemma_evaluation_bounds();
            }
            return None;
        }
        let ghost cs = children@;
        let ghost d = (depth - 1) as nat;
        let ghost a0 = alpha as int;
        let ghost b0 = beta as int;
        let ghost info0 = self.info;
        let mut alpha_now = alpha;
        let mut beta_now = beta;
        let mut best_child: Option<Minimax<InfoNode>> = None;
        self.value = Some(Minimax::<InfoNode>::get_bound(&player));
        let ghost mut bj: int = 0;
        let mut i: usize = 0;
        assert(cs.len() <= usize::MAX);
        while children.len() > 0
            invariant
                0 <= i <= cs.len(),
                cs.len() <= usize::MAX,
                children@ == cs.subrange(i as int, cs.len() as int),
                self.info == info0,
                info0 == old(self).info,
                a0 == alpha as int,
                b0 == beta as int,
                !is_leaf(info0, depth as nat),
                minimax_value(info0, depth as nat, player) == best_value(cs, d, player, cs.len()),
                cs == info0.children_spec(),
                depth >= 1,
                d == depth - 1,
                self.value.is_some(),
                (i == 0) == best_child.is_none(),
                i == 0 ==> alpha_now == a0 && beta_now == b0,
                i > 0 ==> ({
                    let b = self.value.unwrap() as int;
                    &&& InfoNode::min_evaluation_spec() <= b <= InfoNode::max_evaluation_spec()
                    &&& 0 <= bj < i
                    &&& best_child.unwrap().info == cs[bj]
                    &&& best_child.unwrap().value == self.value
                    &&& a0 < b0 ==> within_window(
                        b,
                        minimax_value(cs[bj], d, player.other()),
                        a0,
                        b0,
                    )
                    &&& a0 < b0 ==> within_window(b, best_value(cs, d, player, i as nat), a0, b0)
                    &&& alpha_now < beta_now
                    &&& player == Player::MAXIMIZING ==> beta_now == b0 && alpha_now == (if b > a0 {
                        b
                    } else {
                        a0
                    })
                    &&& player == Player::MINIMIZING ==> alpha_now == a0 && beta_now == (if b < b0 {
                        b
                    } else {
                        b0
                    })
                }),
            decreases children.len(),
        {
            let child = children.remove(0);
            assert(child == cs[i as int]);
            let mut new_child = Minimax::new(child);
            new_child.alpha_beta_with_arguments(depth - 1, alpha_now, beta_now, player.get_other_player());
            let child_value = new_child.value.unwrap();
            let current = self.value.unwrap();
            if best_child.is_none() || (player == Player::MINIMIZING && child_value < current) || (
            player == Player::MAXIMIZING && child_value > current) {
                best_child = Some(new_child);
                self.value = Some(child_value);
                proof {
                    bj = i as int;
                }
                match player {
                    Player::MAXIMIZING => {
                        if child_value > alpha_now {
                            alpha_now = child_value;
                        }
                    },
                    Player::MINIMIZING => {
                        if child_value < beta_now {
                            beta_now = child_value;
                        }
                    },
                }
            }
            i = i + 1;
            if alpha_now >= beta_now {
                proof {
                    lemma_best_value_monotone(cs, d, player, i as nat, cs.len());
                    assert(best_child.unwrap().info == cs[bj]);
                }
                return best_child;
            }
        }
        proof {
            assert(best_child.unwrap().info == cs[bj]);
        }
        best_child
    }

    /// Alpha-beta search of `depth` plies with `player` to move, started with
    /// the window of the game's evaluation bounds.
    ///
    /// The node receives its exact minimax value; the result is a successor
    /// whose own minimax value equals it, i.e. an optimal move (none at a
    /// leaf).
    pub fn alpha_beta(&mut self, depth: u16, player: Player) -> (r: Option<Minimax<InfoNode>>)
        ensures
            final(self).info == old(self).info,
            final(self).has_value(minimax_value(old(self).info, depth as nat, player)),
            is_leaf(old(self).info, depth as nat) <==> r.is_none(),
            is_leaf(old(self).info, depth as nat) ==> final(self).has_value(
                old(self).info.evaluation(),
            ),
            r.is_some() ==> ({
                let cs = old(self).info.children_spec();
                let c = r.unwrap();
                &&& c.has_value(minimax_value(old(self).info, depth as nat, player))
                &&& exists|j: int|
                    #![trigger cs[j]]
                    0 <= j < cs.len() && c.info == cs[j] && minimax_value(
                        cs[j],
                        (depth - 1) as nat,
                        player.other(),
                    ) == minimax_value(old(self).info, depth as nat, player)
            }),
    {
        let ghost info0 = self.info;
        let r = self.alpha_beta_with_arguments(
            depth,
            InfoNode::get_min_evaluation(),
            InfoNode::get_max_evaluation(),
            player,
        );
        proof {
            let v = self.value.unwrap() as int;
            lemma_full_window_exact(info0, depth as nat, player, v);
            if r.is_some() {
                let cs = info0.children_spec();
                let j = choose|j: int|
                    #![trigger cs[j]]
                    0 <= j < cs.len() && r.unwrap().info == cs[j] && (
                    InfoNode::min_evaluation_spec() < InfoNode::max_evaluation_spec()
                        ==> within_window(
                        v,
                        minimax_value(cs[j], (depth - 1) as nat, player.other()),
                        InfoNode::min_evaluation_spec(),
                        InfoNode::max_evaluation_spec(),
                    ));
                lemma_full_window_exact(cs[j], (depth - 1) as nat, player.other(), v);
            }
        }
        r
    }
}

} // verus!
