//! The search engine: random playouts, the UCT1 search tree, and an ensemble
//! of independent trees that recommends a move.
use vstd::prelude::*;

verus! {

/// A move of a game: small, copyable, and comparable for equality.
pub trait GameAction: Copy + Sized {
    fn same_as(&self, other: &Self) -> (r: bool)
        ensures
            r == (*self == *other),
    ;
}

/// A state of a single-agent game with perfect information.
pub trait Game<A: GameAction>: Sized {
    /// The legal moves from this state; none marks a terminal state. Every
    /// implementation defines this and the next two; the defaults describe a
    /// state with no move left.
    open spec fn actions(&self) -> Seq<A> {
        Seq::empty()
    }

    /// The payoff associated with this state.
    open spec fn reward_of(&self) -> u32 {
        0
    }

    /// A bound on the moves that can still be made from this state.
    open spec fn progress(&self) -> nat {
        0
    }

    /// `next` is a state that `action` can lead to from this one; the default
    /// allows any.
    open spec fn transition(&self, action: A, next: Self) -> bool {
        true
    }

    fn allowed_actions(&self) -> (r: Vec<A>)
        ensures
            r@ == self.actions(),
            r@.no_duplicates(),
    ;

    /// Applies a legal move; every move brings the game closer to its end.
    fn make_move(&mut self, action: &A)
        requires
            old(self).actions().contains(*action),
        ensures
            final(self).progress() < old(self).progress(),
            old(self).transition(*action, *final(self)),
    ;

    fn reward(&self) -> (r: u32)
        ensures
            r == self.reward_of(),
    ;

    /// A copy of the state, its randomness source included.
    fn duplicate(&self) -> (r: Self)
        ensures
            r == *self,
    ;
}

/// Relies on rand's `thread_rng` and `Rng::gen_range(low, high)`, which
/// returns a value in `low..high` and panics when the range is empty.
#[verifier::external_body]
fn random_index(n: usize) -> (r: usize)
    requires
        n > 0,
    ensures
        r < n,
{
    rand::Rng::gen_range(&mut rand::thread_rng(), 0, n)
}

/// `states` is a play of the game through `moves`: each move is legal in the
/// state before it and leads to the state after it.
pub open spec fn is_run<G: Game<A>, A: GameAction>(states: Seq<G>, moves: Seq<A>) -> bool {
    &&& states.len() == moves.len() + 1
    &&& forall|i: int|
        0 <= i < moves.len() ==> states[i].actions().contains(#[trigger] moves[i])
            && states[i].transition(moves[i], states[i + 1])
}

/// Some play of the game leads from `start` to `end`, where no move is left.
pub open spec fn plays_out<G: Game<A>, A: GameAction>(start: G, end: G) -> bool {
    &&& end.actions().len() == 0
    &&& exists|states: Seq<G>, moves: Seq<A>|
        is_run(states, moves) && states[0] == start && states.last() == end
}

/// Plays uniformly random legal moves on a copy of `initial` until no move
/// is left, and returns that final state.
pub fn playout<G: Game<A>, A: GameAction>(initial: &G) -> (r: G)
    ensures
        r.actions().len() == 0,
        initial.actions().len() == 0 ==> r == *initial,
        plays_out(*initial, r),
{
    let mut game = initial.duplicate();
    let ghost mut states: Seq<G> = seq![game];
    let ghost mut moves: Seq<A> = seq![];
    let mut potential_moves = game.allowed_actions();
    while potential_moves.len() > 0
        invariant
            potential_moves@ == game.actions(),
            initial.actions().len() == 0 ==> game == *initial,
            is_run(states, moves),
            states[0] == *initial,
            states.last() == game,
        decreases game.progress(),
    {
        let pick = random_index(potential_moves.len());
        let action = potential_moves[pick];
        let ghost prev = game;
        game.make_move(&action);
        proof {
            states = states.push(game);
            moves = moves.push(action);
            assert forall|i: int| 0 <= i < moves.len() implies states[i].actions().contains(
                #[trigger] moves[i],
            ) && states[i].transition(moves[i], states[i + 1]) by {
                if i == moves.len() - 1 {
                    assert(prev.actions()[pick as int] == action);
                }
            }
        }
        potential_moves = game.allowed_actions();
    }
    game
}

/// Mean values are given in millionths.
pub const SCALE: u64 = 1_000_000;

pub open spec fn reward_sum(s: Seq<u32>) -> int
    decreases s.len(),
{
    if s.len() == 0 {
        0
    } else {
        reward_sum(s.drop_last()) + s.last()
    }
}

/// The mean of `s` in millionths, rounded down; 0 for no samples.
pub open spec fn mean_micro(s: Seq<u32>) -> int {
    if s.len() == 0 {
        0
    } else {
        reward_sum(s) * SCALE / (s.len() as int)
    }
}

proof fn lemma_reward_sum_bounds(s: Seq<u32>, lo: int, hi: int)
    requires
        forall|i: int| 0 <= i < s.len() ==> lo <= #[trigger] s[i] <= hi,
    ensures
        lo * s.len() <= reward_sum(s) <= hi * s.len(),
    decreases s.len(),
{
    if s.len() > 0 {
        lemma_reward_sum_bounds(s.drop_last(), lo, hi);
        assert(lo * s.len() == lo * (s.len() - 1) + lo) by (nonlinear_arith);
        assert(hi * s.len() == hi * (s.len() - 1) + hi) by (nonlinear_arith);
    }
}

/// The mean of some samples lies between the least and the greatest of them.
pub proof fn lemma_mean_within_bounds(s: Seq<u32>, lo: int, hi: int)
    requires
        s.len() > 0,
        forall|i: int| 0 <= i < s.len() ==> lo <= #[trigger] s[i] <= hi,
    ensures
        lo * SCALE <= mean_micro(s) <= hi * SCALE,
{
    lemma_reward_sum_bounds(s, lo, hi);
    let n = s.len() as int;
    let t = reward_sum(s) * SCALE;
    assert(lo * SCALE * n <= t <= hi * SCALE * n) by (nonlinear_arith)
        requires
            lo * n <= reward_sum(s) <= hi * n,
            t == reward_sum(s) * SCALE,
            n > 0,
    ;
    assert(lo * SCALE <= t / n <= hi * SCALE) by (nonlinear_arith)
        requires
            lo * SCALE * n <= t <= hi * SCALE * n,
            n > 0,
    ;
}

/// The mean of `rewards`, in millionths and rounded down; 0 when empty.
pub fn mean_reward(rewards: &Vec<u32>) -> (r: u64)
    ensures
        r == mean_micro(rewards@),
{
    if rewards.len() == 0 {
        return 0;
    }
    let mut sum: u128 = 0;
    let mut i: usize = 0;
    while i < rewards.len()
        invariant
            0 <= i <= rewards.len(),
            sum == reward_sum(rewards@.take(i as int)),
            sum <= i * 0xFFFF_FFFF,
        decreases rewards.len() - i,
    {
        assert(rewards@.take(i + 1).drop_last() =~= rewards@.take(i as int));
        sum = sum + rewards[i] as u128;
        i = i + 1;
    }
    assert(rewards@.take(i as int) =~= rewards@);
    let n = rewards.len() as u128;
    proof {
        lemma_mean_within_bounds(rewards@, 0, 0xFFFF_FFFF);
        assert(sum * 1_000_000 <= 0xFFFF_FFFF * 0x1_0000_0000_0000_0000 * 1_000_000)
            by (nonlinear_arith)
            requires
                sum <= n * 0xFFFF_FFFF,
                n <= 0x1_0000_0000_0000_0000,
        ;
    }
    ((sum * 1_000_000) / n) as u64
}

/// Estimates the value of `game` by the mean reward, in millionths, of
/// `n_samples` random playouts; 0 for no samples.
pub fn expected_reward<G: Game<A>, A: GameAction>(game: &G, n_samples: usize) -> (r: u64)
    ensures
        exists|s: Seq<u32>|
            s.len() == n_samples && r == mean_micro(s) && forall|i: int|
                0 <= i < s.len() ==> exists|g: G|
                    plays_out(*game, g) && g.reward_of() == #[trigger] s[i],
        game.actions().len() == 0 && n_samples > 0 ==> r == game.reward_of() * SCALE,
{
    let mut rewards: Vec<u32> = Vec::new();
    let mut k: usize = 0;
    while k < n_samples
        invariant
            0 <= k <= n_samples,
            rewards.len() == k,
            forall|i: int|
                0 <= i < rewards@.len() ==> exists|g: G|
                    plays_out(*game, g) && g.reward_of() == #[trigger] rewards@[i],
            game.actions().len() == 0 ==> forall|i: int|
                0 <= i < rewards@.len() ==> #[trigger] rewards@[i] == game.reward_of(),
        decreases n_samples - k,
    {
        let end = playout(game);
        rewards.push(end.reward());
        assert(rewards@[k as int] == end.reward_of());
        k = k + 1;
    }
    proof {
        if game.actions().len() == 0 && n_samples > 0 {
            let v = game.reward_of() as int;
            lemma_mean_within_bounds(rewards@, v, v);
        }
    }
    mean_reward(&rewards)
}

pub open spec fn log2_floor(x: nat) -> nat
    decreases x,
{
    if x <= 1 {
        0
    } else {
        1 + log2_floor(x / 2)
    }
}

/// The binary logarithm in millionths, interpolated linearly between
/// powers of two: `k + (x - 2^k) / 2^k` for `2^k <= x < 2^(k+1)`; 0 for 0.
pub open spec fn log2_micro(x: nat) -> nat {
    if x == 0 {
        0
    } else {
        let p = two_to(log2_floor(x));
        (log2_floor(x) * 1_000_000 + (x - p) * 1_000_000 / (p as int)) as nat
    }
}

/// The natural logarithm in millionths: ln 2 times `log2_micro`.
pub open spec fn ln_micro(x: nat) -> nat {
    log2_micro(x) * 693_147 / 1_000_000
}

pub open spec fn is_root_of(x: nat, r: nat) -> bool {
    r * r <= x < (r + 1) * (r + 1)
}

/// The whole part of the square root.
pub open spec fn isqrt(x: nat) -> nat {
    choose|r: nat| is_root_of(x, r)
}

proof fn lemma_root_unique(x: nat, r: nat, s: nat)
    requires
        is_root_of(x, r),
        is_root_of(x, s),
    ensures
        r == s,
{
    if r < s {
        assert((r + 1) * (r + 1) <= s * s) by (nonlinear_arith)
            requires
                r + 1 <= s,
        ;
    } else if s < r {
        assert((s + 1) * (s + 1) <= r * r) by (nonlinear_arith)
            requires
                s + 1 <= r,
        ;
    }
}

pub open spec fn two_to(k: nat) -> nat
    decreases k,
{
    if k == 0 {
        1
    } else {
        2 * two_to((k - 1) as nat)
    }
}

proof fn lemma_log2_floor_below(x: nat, k: nat)
    requires
        k >= 1,
        x < two_to(k),
    ensures
        log2_floor(x) < k,
    decreases k,
{
    assert(two_to(1) == 2) by {
        reveal_with_fuel(two_to, 2);
    }
    if x > 1 && k > 1 {
        lemma_log2_floor_below(x / 2, (k - 1) as nat);
    }
}

proof fn lemma_log2_floor_bound(x: nat)
    requires
        x <= 0xFFFF_FFFF_FFFF_FFFF,
    ensures
        log2_floor(x) < 64,
{
    reveal_with_fuel(two_to, 65);
    lemma_log2_floor_below(x, 64);
}

proof fn lemma_two_to_brackets(x: nat)
    requires
        x >= 1,
    ensures
        two_to(log2_floor(x)) <= x < 2 * two_to(log2_floor(x)),
    decreases x,
{
    if x >= 2 {
        lemma_two_to_brackets(x / 2);
    }
}

/// The natural logarithm of `x` in millionths, as `ln_micro` gives it.
fn natural_log(x: u64) -> (r: u64)
    ensures
        r == ln_micro(x as nat),
        r <= 45_000_000,
{
    if x == 0 {
        return 0;
    }
    let k = binary_log(x);
    proof {
        lemma_two_to_brackets(x as nat);
    }
    let mut p: u64 = 1;
    let mut i: u64 = 0;
    while i < k
        invariant
            0 <= i <= k,
            k == log2_floor(x as nat),
            p == two_to(i as nat),
            two_to(k as nat) <= x,
        decreases k - i,
    {
        proof {
            lemma_two_to_monotone((i + 1) as nat, k as nat);
        }
        p = p * 2;
        i = i + 1;
    }
    let frac = ((x - p) as u128) * 1_000_000 / (p as u128);
    assert(frac < 1_000_000) by (nonlinear_arith)
        requires
            frac == (x - p) * 1_000_000 / (p as int),
            x - p < p,
            p > 0,
    ;
    let log = (k as u128) * 1_000_000 + frac;
    (log * 693_147 / 1_000_000) as u64
}

proof fn lemma_two_to_monotone(a: nat, b: nat)
    requires
        a <= b,
    ensures
        two_to(a) <= two_to(b),
    decreases b,
{
    if a < b {
        lemma_two_to_monotone(a, (b - 1) as nat);
    }
}

fn binary_log(x: u64) -> (r: u64)
    ensures
        r == log2_floor(x as nat),
        r < 64,
{
    proof {
        lemma_log2_floor_bound(x as nat);
    }
    let mut y = x;
    let mut r: u64 = 0;
    while y > 1
        invariant
            r + log2_floor(y as nat) == log2_floor(x as nat),
            log2_floor(x as nat) < 64,
        decreases y,
    {
        y = y / 2;
        r = r + 1;
    }
    r
}

fn square_root(x: u64) -> (r: u64)
    ensures
        r == isqrt(x as nat),
        r <= 0x1_0000_0000,
{
    let mut lo: u64 = 0;
    let mut hi: u64 = 0x1_0000_0000;
    assert(hi * hi > x) by (nonlinear_arith)
        requires
            hi == 0x1_0000_0000u64,
    ;
    while hi - lo > 1
        invariant
            lo < hi <= 0x1_0000_0000,
            lo * lo <= x,
            x < hi * hi,
        decreases hi - lo,
    {
        let mid = lo + (hi - lo) / 2;
        assert(mid * mid <= 0x1_0000_0000_0000_0000) by (nonlinear_arith)
            requires
                mid <= 0x1_0000_0000,
        ;
        if (mid as u128) * (mid as u128) <= x as u128 {
            lo = mid;
        } else {
            hi = mid;
        }
    }
    proof {
        assert(is_root_of(x as nat, lo as nat));
        lemma_root_unique(x as nat, lo as nat, isqrt(x as nat));
    }
    lo
}

/// The UCT1 exploration term `c * sqrt(2 ln(parent_n) / n)` in millionths,
/// with `c` given in thousandths.
pub open spec fn exploration_micro(parent_n: nat, n: nat, c_milli: nat) -> nat {
    c_milli * isqrt((2 * ln_micro(parent_n) * SCALE / (n as int)) as nat) / 1000
}

/// The UCT1 value of a visited child, `q / n + c * sqrt(2 ln(parent_n) / n)`,
/// in millionths.
pub open spec fn uct_score(q: nat, n: nat, parent_n: nat, c_milli: nat) -> nat {
    (q * SCALE / (n as int) + exploration_micro(parent_n, n, c_milli)) as nat
}

/// The UCT1 value of a visited child, as `uct_score` gives it.
pub fn uct_value(q: u128, n: u64, parent_n: u64, c_milli: u64) -> (r: u128)
    requires
        n > 0,
        q <= n * 0xFFFF_FFFF,
    ensures
        r == uct_score(q as nat, n as nat, parent_n as nat, c_milli as nat),
{
    let ln = natural_log(parent_n);
    let x = 2 * ln * SCALE / n;
    let root = square_root(x);
    proof {
        assert(q * 1_000_000 <= 0xFFFF_FFFF * 0x1_0000_0000_0000_0000 * 1_000_000)
            by (nonlinear_arith)
            requires
                q <= n * 0xFFFF_FFFF,
                n <= 0x1_0000_0000_0000_0000,
        ;
        assert(c_milli * root <= 0x1_0000_0000_0000_0000 * 0x1_0000_0000) by (nonlinear_arith)
            requires
                c_milli <= 0x1_0000_0000_0000_0000,
                root <= 0x1_0000_0000,
        ;
        let qs: int = q * 1_000_000;
        assert(qs / (n as int) <= qs) by (nonlinear_arith)
            requires
                n > 0,
                qs >= 0,
        ;
    }
    let mean = q * 1_000_000 / (n as u128);
    let explore = (c_milli as u128) * (root as u128) / 1000;
    mean + explore
}

/// The largest visit count a node can reach.
pub const MAX_VISITS: u64 = 0xFFFF_FFFF_FFFF_FFFF;

/// Whether `list` holds `a`.
fn holds_action<A: GameAction>(list: &Vec<A>, a: &A) -> (r: bool)
    ensures
        r == list@.contains(*a),
{
    let mut i: usize = 0;
    while i < list.len()
        invariant
            0 <= i <= list.len(),
            forall|j: int| 0 <= j < i ==> list@[j] != *a,
        decreases list.len() - i,
    {
        if list[i].same_as(a) {
            return true;
        }
        i = i + 1;
    }
    false
}

/// The actions of `acts` that `taken` does not hold, in order.
pub open spec fn untried<A>(acts: Seq<A>, taken: Seq<A>) -> Seq<A>
    decreases acts.len(),
{
    if acts.len() == 0 {
        seq![]
    } else {
        let u = untried(acts.drop_last(), taken);
        if taken.contains(acts.last()) {
            u
        } else {
            u.push(acts.last())
        }
    }
}

pub proof fn lemma_untried_members<A>(acts: Seq<A>, taken: Seq<A>)
    ensures
        forall|x: A| #[trigger]
            untried(acts, taken).contains(x) <==> acts.contains(x) && !taken.contains(x),
    decreases acts.len(),
{
    if acts.len() > 0 {
        let init = acts.drop_last();
        lemma_untried_members(init, taken);
        assert(acts =~= init.push(acts.last()));
        assert forall|x: A| acts.contains(x) <==> init.contains(x) || x == acts.last() by {
            if acts.contains(x) {
                let k = choose|k: int| 0 <= k < acts.len() && acts[k] == x;
                if k < init.len() {
                    assert(init[k] == x);
                }
            }
            if init.contains(x) {
                let k = choose|k: int| 0 <= k < init.len() && init[k] == x;
                assert(acts[k] == x);
            }
            if x == acts.last() {
                assert(acts[acts.len() - 1] == x);
            }
        }
        let u = untried(init, taken);
        assert(untried(acts, taken) == (if taken.contains(acts.last()) {
            u
        } else {
            u.push(acts.last())
        }));
        assert forall|x: A| #[trigger]
            untried(acts, taken).contains(x) <==> acts.contains(x) && !taken.contains(x) by {
            assert(u.contains(x) <==> init.contains(x) && !taken.contains(x));
            if !taken.contains(acts.last()) {
                let w = u.push(acts.last());
                if w.contains(x) {
                    let k = choose|k: int| 0 <= k < w.len() && w[k] == x;
                    if k < u.len() {
                        assert(u[k] == x);
                    }
                }
                if u.contains(x) {
                    let k = choose|k: int| 0 <= k < u.len() && u[k] == x;
                    assert(w[k] == x);
                }
                if x == acts.last() {
                    assert(w[u.len() as int] == x);
                }
            }
        }
    }
}

proof fn lemma_untried_unique<A>(acts: Seq<A>, taken: Seq<A>)
    requires
        acts.no_duplicates(),
    ensures
        untried(acts, taken).no_duplicates(),
    decreases acts.len(),
{
    if acts.len() > 0 {
        let init = acts.drop_last();
        assert(init.no_duplicates());
        lemma_untried_unique(init, taken);
        lemma_untried_members(init, taken);
        assert(!init.contains(acts.last())) by {
            if init.contains(acts.last()) {
                let k = choose|k: int| 0 <= k < init.len() && init[k] == acts.last();
                assert(acts[k] == acts[acts.len() - 1]);
            }
        }
        let u = untried(init, taken);
        assert(!u.contains(acts.last()));
        if !taken.contains(acts.last()) {
            let w = u.push(acts.last());
            assert forall|i: int, j: int| 0 <= i < w.len() && 0 <= j < w.len() && i != j implies w[i]
                != w[j] by {
                if i == u.len() {
                    assert(u.contains(w[j]));
                } else if j == u.len() {
                    assert(u.contains(w[i]));
                }
            }
        }
    }
}

/// With distinct legal moves `acts` and distinct explored moves `taken` among
/// them, as many moves are untried as `taken` leaves out.
pub proof fn lemma_untried_len<A>(acts: Seq<A>, taken: Seq<A>)
    requires
        acts.no_duplicates(),
        taken.no_duplicates(),
        forall|i: int| 0 <= i < taken.len() ==> acts.contains(#[trigger] taken[i]),
    ensures
        untried(acts, taken).len() + taken.len() == acts.len(),
{
    broadcast use vstd::set::group_set_axioms, vstd::seq_lib::seq_to_set_is_finite;

    let u = untried(acts, taken);
    lemma_untried_members(acts, taken);
    lemma_untried_unique(acts, taken);
    u.unique_seq_to_set();
    taken.unique_seq_to_set();
    acts.unique_seq_to_set();
    let a = acts.to_set();
    let t = taken.to_set();
    assert(u.to_set() =~= a.difference(t));
    assert forall|x: A| t.contains(x) implies a.contains(x) by {
        let i = choose|i: int| 0 <= i < taken.len() && taken[i] == x;
        assert(acts.contains(taken[i]));
    }
    assert(a.intersect(t) =~= t);
    vstd::set_lib::lemma_set_difference_len(a, t);
}

/// A root and the legal moves `acts` of the state it stands for agree: its
/// children carry distinct legal moves, a terminal node has none, and the
/// node is fully expanded exactly when every legal move has a child.
pub open spec fn consistent<A: GameAction>(node: TreeNode<A>, acts: Seq<A>) -> bool {
    let taken = explored(node.children@);
    &&& taken.no_duplicates()
    &&& forall|i: int| 0 <= i < taken.len() ==> acts.contains(#[trigger] taken[i])
    &&& node.terminal_state ==> acts.len() == 0
    &&& acts.len() == 0 ==> node.children@.len() == 0
    &&& node.fully_expanded && acts.len() > 0 ==> node.children@.len() == acts.len()
    &&& !node.fully_expanded ==> node.children@.len() < acts.len() || acts.len() == 0
}

pub open spec fn lesser(a: int, b: int) -> int {
    if a < b {
        a
    } else {
        b
    }
}

/// A node of the search tree: the action that led to it, the children
/// explored from it, and the visit count `n` and reward sum `q` of the
/// iterations that passed through it.
pub struct TreeNode<A: GameAction> {
    pub action: Option<A>,
    pub children: Vec<TreeNode<A>>,
    pub terminal_state: bool,
    pub fully_expanded: bool,
    pub n: u64,
    pub q: u128,
}

/// A child may be selected when its action is legal in the state at hand.
pub open spec fn is_candidate<A: GameAction>(child: TreeNode<A>, legal: Seq<A>) -> bool {
    child.action is Some && legal.contains(child.action->0)
}

/// `a` is strictly preferred to `b` by UCT1: an unvisited child before any
/// visited one, and among visited ones the higher `uct_score`.
pub open spec fn beats<A: GameAction>(
    a: TreeNode<A>,
    b: TreeNode<A>,
    parent_n: nat,
    c_milli: nat,
) -> bool {
    (a.n == 0 && b.n != 0) || (a.n != 0 && b.n != 0 && uct_score(a.q as nat, a.n as nat, parent_n, c_milli)
        > uct_score(b.q as nat, b.n as nat, parent_n, c_milli))
}

/// The actions of the explored children, in order.
pub open spec fn explored<A: GameAction>(children: Seq<TreeNode<A>>) -> Seq<A> {
    children.map_values(|c: TreeNode<A>| c.action->0)
}

/// Child `i` is the one UCT1 selects among the legal children: the first that
/// no other legal child beats.
pub open spec fn is_pick<A: GameAction>(
    children: Seq<TreeNode<A>>,
    legal: Seq<A>,
    parent_n: nat,
    c_milli: nat,
    i: int,
) -> bool {
    &&& 0 <= i < children.len()
    &&& is_candidate(children[i], legal)
    &&& forall|j: int|
        0 <= j < i && is_candidate(children[j], legal) ==> beats(
            children[i],
            children[j],
            parent_n,
            c_milli,
        )
    &&& forall|j: int|
        0 <= j < children.len() && is_candidate(children[j], legal) ==> !beats(
            children[j],
            children[i],
            parent_n,
            c_milli,
        )
}

pub open spec fn has_candidate<A: GameAction>(children: Seq<TreeNode<A>>, legal: Seq<A>) -> bool {
    exists|j: int| 0 <= j < children.len() && is_candidate(children[j], legal)
}

/// A node as it is made: no statistics, no children.
pub open spec fn is_fresh<A: GameAction>(node: TreeNode<A>, action: Option<A>) -> bool {
    &&& node.action == action
    &&& node.children@.len() == 0
    &&& !node.terminal_state
    &&& !node.fully_expanded
    &&& node.n == 0
    &&& node.q == 0
}

impl<A: GameAction> TreeNode<A> {
    /// Every reward is at most `u32::MAX`, a child is visited at most as often
    /// as its parent, and every child carries its action.
    pub open spec fn wf(&self) -> bool
        decreases self,
    {
        &&& self.q <= self.n * 0xFFFF_FFFF
        &&& forall|i: int|
            0 <= i < self.children@.len() ==> {
                &&& (#[trigger] self.children@[i]).n <= self.n
                &&& self.children@[i].action is Some
                &&& self.children@[i].wf()
            }
    }

    pub fn new(action: Option<A>) -> (r: TreeNode<A>)
        ensures
            is_fresh(r, action),
            r.wf(),
    {
        TreeNode {
            action: action,
            children: Vec::new(),
            terminal_state: false,
            fully_expanded: false,
            n: 0,
            q: 0,
        }
    }

    /// The first child, among those whose action is in `legal`, that no other
    /// such child beats under UCT1 with exploration constant `c_milli`
    /// (in thousandths); `None` when no child is legal.
    pub fn best_child(&self, c_milli: u64, legal: &Vec<A>) -> (r: Option<usize>)
        requires
            self.wf(),
        ensures
            r is None <==> forall|j: int|
                0 <= j < self.children@.len() ==> !is_candidate(self.children@[j], legal@),
            r matches Some(i) ==> is_pick(self.children@, legal@, self.n as nat, c_milli as nat, i as int),
            r matches Some(i) ==> {
                &&& i < self.children@.len()
                &&& is_candidate(self.children@[i as int], legal@)
                &&& forall|j: int|
                    0 <= j < i && is_candidate(self.children@[j], legal@) ==> beats(
                        self.children@[i as int],
                        self.children@[j],
                        self.n as nat,
                        c_milli as nat,
                    )
                &&& forall|j: int|
                    0 <= j < self.children@.len() && is_candidate(self.children@[j], legal@)
                        ==> !beats(self.children@[j], self.children@[i as int], self.n as nat, c_milli as nat)
                &&& (exists|j: int|
                    0 <= j < self.children@.len() && is_candidate(self.children@[j], legal@)
                        && self.children@[j].n == 0) ==> self.children@[i as int].n == 0
            },
    {
        let mut best: Option<usize> = None;
        let mut best_value: u128 = 0;
        let mut i: usize = 0;
        while i < self.children.len()
            invariant
                self.wf(),
                0 <= i <= self.children@.len(),
                best is None <==> forall|j: int|
                    0 <= j < i ==> !is_candidate(self.children@[j], legal@),
                best matches Some(b) ==> {
                    &&& b < i
                    &&& is_candidate(self.children@[b as int], legal@)
                    &&& self.children@[b as int].n != 0 ==> best_value == uct_score(
                        self.children@[b as int].q as nat,
                        self.children@[b as int].n as nat,
                        self.n as nat,
                        c_milli as nat,
                    )
                    &&& forall|j: int|
                        0 <= j < b && is_candidate(self.children@[j], legal@) ==> beats(
                            self.children@[b as int],
                            self.children@[j],
                            self.n as nat,
                            c_milli as nat,
                        )
                    &&& forall|j: int|
                        0 <= j < i && is_candidate(self.children@[j], legal@) ==> !beats(
                            self.children@[j],
                            self.children@[b as int],
                            self.n as nat,
                            c_milli as nat,
                        )
                },
            decreases self.children@.len() - i,
        {
            let child = &self.children[i];
            assert(self.children@[i as int].wf());
            let legal_here = match child.action {
                Some(a) => holds_action(legal, &a),
                None => false,
            };
            if legal_here {
                match best {
                    None => {
                        best = Some(i);
                        if child.n != 0 {
                            best_value = uct_value(child.q, child.n, self.n, c_milli);
                        }
                    },
                    Some(b) => {
                        if self.children[b].n != 0 {
                            if child.n == 0 {
                                best = Some(i);
                            } else {
                                let value = uct_value(child.q, child.n, self.n, c_milli);
                                if value > best_value {
                                    best = Some(i);
                                    best_value = value;
                                }
                            }
                        }
                    },
                }
            }
            i = i + 1;
        }
        best
    }

    /// The legal actions `acts` that no child carries yet, in order.
    fn untried_actions(&self, acts: &Vec<A>) -> (r: Vec<A>)
        requires
            self.wf(),
        ensures
            r@ == untried(acts@, explored(self.children@)),
    {
        let mut taken: Vec<A> = Vec::new();
        let mut i: usize = 0;
        while i < self.children.len()
            invariant
                self.wf(),
                0 <= i <= self.children@.len(),
                taken@ == explored(self.children@.take(i as int)),
            decreases self.children@.len() - i,
        {
            assert(explored(self.children@.take(i + 1)) =~= explored(
                self.children@.take(i as int),
            ).push(self.children@[i as int].action->0));
            match self.children[i].action {
                Some(a) => taken.push(a),
                None => {},
            }
            i = i + 1;
        }
        assert(self.children@.take(i as int) =~= self.children@);
        let mut candidates: Vec<A> = Vec::new();
        let mut j: usize = 0;
        while j < acts.len()
            invariant
                0 <= j <= acts@.len(),
                candidates@ == untried(acts@.take(j as int), taken@),
            decreases acts@.len() - j,
        {
            assert(acts@.take(j + 1).drop_last() =~= acts@.take(j as int));
            if !holds_action(&taken, &acts[j]) {
                candidates.push(acts[j]);
            }
            j = j + 1;
        }
        assert(acts@.take(j as int) =~= acts@);
        candidates
    }

    /// Adds a child for an action of `game` that no child has yet, picked
    /// uniformly at random, and returns its index; the node is marked fully
    /// expanded when that action was the last untried one. When `game` has no
    /// legal action the node is marked terminal and nothing is added. Calling
    /// it when every legal action already has a child is a caller error.
    pub fn expand<G: Game<A>>(&mut self, game: &G) -> (r: Option<usize>)
        requires
            old(self).wf(),
            game.actions().len() == 0 || untried(game.actions(), explored(old(self).children@)).len()
                > 0,
        ensures
            final(self).wf(),
            final(self).n == old(self).n,
            final(self).q == old(self).q,
            final(self).action == old(self).action,
            game.actions().len() == 0 ==> {
                &&& r is None
                &&& final(self).terminal_state
                &&& final(self).fully_expanded
                &&& final(self).children@ == old(self).children@
            },
            game.actions().len() > 0 ==> final(self).terminal_state == old(self).terminal_state,
            ({
                let u = untried(game.actions(), explored(old(self).children@));
                game.actions().len() > 0 && u.len() > 0 ==> {
                    &&& r == Some(old(self).children@.len() as usize)
                    &&& final(self).children@.len() == old(self).children@.len() + 1
                    &&& final(self).children@.drop_last() == old(self).children@
                    &&& exists|k: int|
                        0 <= k < u.len() && is_fresh(final(self).children@.last(), Some(u[k]))
                    &&& final(self).fully_expanded == (old(self).fully_expanded || u.len() == 1)
                }
            }),
    {
        let acts = game.allowed_actions();
        if acts.len() == 0 {
            self.fully_expanded = true;
            self.terminal_state = true;
            return None;
        }
        let candidates = self.untried_actions(&acts);
        if candidates.len() == 1 {
            self.fully_expanded = true;
        }
        let k = random_index(candidates.len());
        let action = candidates[k];
        let ghost before = self.children@;
        self.children.push(TreeNode::new(Some(action)));
        assert(self.children@.drop_last() =~= before);
        assert(is_fresh(self.children@.last(), Some(candidates@[k as int])));
        Some(self.children.len() - 1)
    }

    /// Runs one search iteration from this node on `game`, which holds the
    /// state of this node and is played forward: select by UCT1 among the
    /// children whose action is legal once the node is fully expanded, expand
    /// one untried action otherwise and play it out at random, and add the
    /// reward obtained to the statistics of every node on the path. Returns that
    /// reward.
    pub fn iteration<G: Game<A>>(&mut self, game: &mut G, c_milli: u64) -> (r: u32)
        requires
            old(self).wf(),
            old(self).n < MAX_VISITS,
        ensures
            final(self).wf(),
            final(self).n == old(self).n + 1,
            final(self).q == old(self).q + r,
            final(self).action == old(self).action,
            old(self).terminal_state ==> {
                &&& r == old(game).reward_of()
                &&& *final(game) == *old(game)
                &&& final(self).children@ == old(self).children@
                &&& final(self).terminal_state
            },
            !old(self).terminal_state && old(game).actions().len() == 0 ==> {
                &&& r == old(game).reward_of()
                &&& *final(game) == *old(game)
                &&& final(self).children@ == old(self).children@
                &&& final(self).terminal_state
                &&& final(self).fully_expanded
            },
            !old(self).terminal_state && old(game).actions().len() > 0 && old(self).fully_expanded
                && has_candidate(old(self).children@, old(game).actions()) ==> exists|i: int|
                {
                    &&& is_pick(
                        old(self).children@,
                        old(game).actions(),
                        old(self).n as nat,
                        c_milli as nat,
                        i,
                    )
                    &&& final(self).children@ == old(self).children@.update(
                        i,
                        final(self).children@[i],
                    )
                    &&& final(self).children@[i].n == old(self).children@[i].n + 1
                    &&& final(self).children@[i].q == old(self).children@[i].q + r
                    &&& final(self).children@[i].action == old(self).children@[i].action
                },
            ({
                let u = untried(old(game).actions(), explored(old(self).children@));
                !old(self).terminal_state && old(game).actions().len() > 0 && !(
                old(self).fully_expanded && has_candidate(old(self).children@, old(game).actions()))
                    ==> if u.len() > 0 {
                    &&& final(self).children@.len() == old(self).children@.len() + 1
                    &&& final(self).children@.drop_last() == old(self).children@
                    &&& exists|k: int|
                        0 <= k < u.len() && final(self).children@.last().action == Some(u[k])
                    &&& final(self).children@.last().n == 1
                    &&& final(self).children@.last().q == r
                    &&& final(self).children@.last().children@.len() == 0
                    &&& final(self).fully_expanded == (old(self).fully_expanded || u.len() == 1)
                    &&& old(game).transition(final(self).children@.last().action->0, *final(game))
                    &&& exists|g: G| plays_out(*final(game), g) && g.reward_of() == r
                } else {
                    &&& final(self).children@ == old(self).children@
                    &&& r == old(game).reward_of()
                    &&& *final(game) == *old(game)
                    &&& final(self).fully_expanded
                }
            }),
            consistent(*old(self), old(game).actions()) ==> {
                &&& consistent(*final(self), old(game).actions())
                &&& final(self).children@.len() == lesser(
                    old(self).children@.len() + 1 as int,
                    old(game).actions().len() as int,
                )
            },
        decreases *old(self),
    {
        if self.terminal_state {
            let delta = game.reward();
            self.n = self.n + 1;
            self.q = self.q + delta as u128;
            return delta;
        }
        let acts = game.allowed_actions();
        if acts.len() == 0 {
            self.terminal_state = true;
            self.fully_expanded = true;
            let delta = game.reward();
            self.n = self.n + 1;
            self.q = self.q + delta as u128;
            return delta;
        }
        let ghost start = self.children@;
        proof {
            if consistent(*self, acts@) && self.fully_expanded {
                let x = explored(start)[0];
                assert(acts@.contains(x));
                assert(is_candidate(start[0], acts@));
            }
        }
        let choice = if self.fully_expanded {
            self.best_child(c_milli, &acts)
        } else {
            None
        };
        let delta: u32;
        match choice {
            Some(i) => {
                let ghost before = self.children@;
                let mut child = self.children.remove(i);
                assert(child == before[i as int]);
                assert(child.wf());
                let action = match child.action {
                    Some(a) => a,
                    None => {
                        assert(false);
                        acts[0]
                    },
                };
                game.make_move(&action);
                delta = child.iteration(game, c_milli);
                self.children.insert(i, child);
                assert(self.children@ =~= before.update(i as int, child));
                assert(explored(self.children@) =~= explored(before));
            },
            None => {
                proof {
                    if consistent(*self, acts@) {
                        lemma_untried_len(acts@, explored(start));
                    }
                }
                let fresh = self.untried_actions(&acts);
                let expanded = if fresh.len() == 0 {
                    self.fully_expanded = true;
                    None
                } else {
                    self.expand(game)
                };
                match expanded {
                    Some(_) => {
                        let ghost before = self.children@;
                        let mut child = self.children.pop().unwrap();
                        let ghost k = choose|k: int|
                            0 <= k < untried(acts@, explored(before.drop_last())).len()
                                && is_fresh(before.last(), Some(untried(acts@, explored(before.drop_last()))[k]));
                        proof {
                            lemma_untried_members(acts@, explored(before.drop_last()));
                            assert(untried(acts@, explored(before.drop_last())).contains(
                                untried(acts@, explored(before.drop_last()))[k],
                            ));
                        }
                        let action = match child.action {
                            Some(a) => a,
                            None => {
                                assert(false);
                                acts[0]
                            },
                        };
                        game.make_move(&action);
                        let end = playout(game);
                        delta = end.reward();
                        child.n = 1;
                        child.q = delta as u128;
                        assert(child.wf());
                        self.children.push(child);
                        assert(self.children@ =~= before.drop_last().push(child));
                        proof {
                            let u = untried(acts@, explored(before.drop_last()));
                            assert(explored(self.children@) =~= explored(before.drop_last()).push(
                                u[k],
                            ));
                            if consistent(*old(self), acts@) {
                                lemma_untried_members(acts@, explored(before.drop_last()));
                                assert(u.contains(u[k]));
                            }
                        }
                    },
                    None => {
                        delta = game.reward();
                    },
                }
            },
        }
        let ghost mid = self.children@;
        assert(forall|j: int| 0 <= j < mid.len() ==> (#[trigger] mid[j]).n <= self.n + 1 && mid[j].action is Some && mid[j].wf());
        self.n = self.n + 1;
        self.q = self.q + delta as u128;
        delta
    }
}

/// Why the ensemble refused a request.
#[derive(Debug, Clone, Copy, PartialEq, Eq, Structural)]
pub enum SearchError {
    /// An ensemble needs at least one tree.
    EmptyEnsemble,
    /// A search needs at least one iteration per tree.
    NoSamples,
}

/// `a` is preferred to `b` as a recommendation: an unvisited child first,
/// then the higher mean reward.
pub open spec fn preferred<A: GameAction>(a: TreeNode<A>, b: TreeNode<A>) -> bool {
    beats(a, b, 0, 0)
}

proof fn lemma_preferred_order<A: GameAction>(a: TreeNode<A>, b: TreeNode<A>, c: TreeNode<A>)
    ensures
        preferred(a, b) && preferred(b, c) ==> preferred(a, c),
        preferred(a, b) && !preferred(c, b) ==> preferred(a, c),
        !preferred(a, a),
{
}

/// The lexicographic order of (tree, child) positions.
pub open spec fn before(t: int, i: int, u: int, j: int) -> bool {
    t < u || (t == u && i < j)
}

/// Child `i` of tree `t` is the first most preferred root child among those
/// before position (`t_end`, `i_end`).
pub open spec fn leads<A: GameAction>(
    roots: Seq<TreeNode<A>>,
    t: int,
    i: int,
    t_end: int,
    i_end: int,
) -> bool {
    &&& 0 <= t < roots.len()
    &&& 0 <= i < roots[t].children@.len()
    &&& before(t, i, t_end, i_end)
    &&& forall|u: int, j: int|
        0 <= u < roots.len() && 0 <= j < roots[u].children@.len() && before(u, j, t_end, i_end)
            ==> !preferred(roots[u].children@[j], roots[t].children@[i])
    &&& forall|u: int, j: int|
        0 <= u < roots.len() && 0 <= j < roots[u].children@.len() && before(u, j, t, i)
            ==> preferred(roots[t].children@[i], roots[u].children@[j])
}

/// The positions before the end of a tree are those before the first child
/// of the next one.
proof fn lemma_leads_within_tree<A: GameAction>(roots: Seq<TreeNode<A>>, t: int, i: int, e: int)
    requires
        0 <= e < roots.len(),
    ensures
        leads(roots, t, i, e, roots[e].children@.len() as int) ==> leads(roots, t, i, e + 1, 0),
{
    if leads(roots, t, i, e, roots[e].children@.len() as int) {
        assert forall|u: int, j: int|
            0 <= u < roots.len() && 0 <= j < roots[u].children@.len() && before(u, j, e + 1, 0)
                implies !preferred(roots[u].children@[j], roots[t].children@[i]) by {
            assert(before(u, j, e, roots[e].children@.len() as int));
        }
    }
}

/// An ensemble of independent search trees, all grown from copies of one
/// game state.
pub struct MCTS<G: Game<A>, A: GameAction> {
    game: G,
    roots: Vec<TreeNode<A>>,
}

impl<G: Game<A>, A: GameAction> MCTS<G, A> {
    /// The roots of the trees, in order.
    pub closed spec fn trees(&self) -> Seq<TreeNode<A>> {
        self.roots@
    }

    /// The game state that every tree is grown from.
    pub closed spec fn state(&self) -> G {
        self.game
    }

    /// Every tree is well formed and agrees with the legal moves of the state.
    pub open spec fn wf(&self) -> bool {
        forall|t: int|
            0 <= t < self.trees().len() ==> (#[trigger] self.trees()[t]).wf() && consistent(
                self.trees()[t],
                self.state().actions(),
            )
    }

    /// No tree has explored any move yet.
    pub open spec fn untouched(&self) -> bool {
        forall|t: int| 0 <= t < self.trees().len() ==> is_fresh(#[trigger] self.trees()[t], None)
    }

    fn fresh_roots(ensemble_size: usize) -> (r: Vec<TreeNode<A>>)
        ensures
            r@.len() == ensemble_size,
            forall|t: int| 0 <= t < r@.len() ==> is_fresh(#[trigger] r@[t], None) && r@[t].wf(),
            forall|t: int, acts: Seq<A>| 0 <= t < r@.len() ==> #[trigger] consistent(r@[t], acts),
    {
        let mut roots: Vec<TreeNode<A>> = Vec::new();
        while roots.len() < ensemble_size
            invariant
                roots@.len() <= ensemble_size,
                forall|t: int|
                    0 <= t < roots@.len() ==> is_fresh(#[trigger] roots@[t], None) && roots@[t].wf(),
                forall|t: int, acts: Seq<A>|
                    0 <= t < roots@.len() ==> #[trigger] consistent(roots@[t], acts),
            decreases ensemble_size - roots@.len(),
        {
            let node = TreeNode::new(None);
            assert(explored(node.children@) =~= Seq::<A>::empty());
            roots.push(node);
        }
        roots
    }

    /// An ensemble of `ensemble_size` empty trees over a copy of `game`;
    /// refused when `ensemble_size` is 0.
    pub fn new(game: &G, ensemble_size: usize) -> (r: Result<MCTS<G, A>, SearchError>)
        ensures
            ensemble_size == 0 <==> r == Err::<MCTS<G, A>, SearchError>(SearchError::EmptyEnsemble),
            ensemble_size > 0 ==> r is Ok,
            r matches Ok(m) ==> {
                &&& m.wf()
                &&& m.untouched()
                &&& m.trees().len() == ensemble_size
                &&& m.state() == *game
            },
    {
        if ensemble_size == 0 {
            return Err(SearchError::EmptyEnsemble);
        }
        let roots = Self::fresh_roots(ensemble_size);
        let m = MCTS { game: game.duplicate(), roots: roots };
        assert(m.trees() == roots@);
        Ok(m)
    }

    /// Runs `n_samples` iterations on every tree, each on its own copy of the
    /// game state, with exploration constant `c_milli` (in thousandths). A
    /// tree stops early once its root reaches `MAX_VISITS` visits. Refused
    /// when `n_samples` is 0.
    pub fn search(&mut self, n_samples: usize, c_milli: u64) -> (r: Result<(), SearchError>)
        requires
            old(self).wf(),
        ensures
            final(self).wf(),
            final(self).state() == old(self).state(),
            final(self).trees().len() == old(self).trees().len(),
            n_samples == 0 <==> r == Err::<(), SearchError>(SearchError::NoSamples),
            n_samples > 0 ==> r == Ok::<(), SearchError>(()),
            r is Err ==> final(self).trees() == old(self).trees(),
            r is Ok ==> forall|t: int|
                0 <= t < final(self).trees().len() ==> (#[trigger] final(self).trees()[t]).children@.len()
                    == lesser(
                    old(self).trees()[t].children@.len() + final(self).trees()[t].n - old(
                        self,
                    ).trees()[t].n,
                    final(self).state().actions().len() as int,
                ),
            r is Ok ==> forall|t: int|
                0 <= t < final(self).trees().len() ==> (#[trigger] final(self).trees()[t]).n == if old(
                    self,
                ).trees()[t].n + n_samples > MAX_VISITS {
                    MAX_VISITS as int
                } else {
                    old(self).trees()[t].n + n_samples
                },
    {
        if n_samples == 0 {
            return Err(SearchError::NoSamples);
        }
        let ghost start = self.roots@;
        assert(forall|u: int|
            0 <= u < start.len() ==> consistent(#[trigger] start[u], self.game.actions())) by {
            assert(self.trees() == self.roots@);
        }
        let mut t: usize = 0;
        while t < self.roots.len()
            invariant
                0 <= t <= self.roots@.len(),
                self.roots@.len() == start.len(),
                self.game == old(self).game,
                start == old(self).roots@,
                forall|u: int| 0 <= u < self.roots@.len() ==> (#[trigger] self.roots@[u]).wf(),
                forall|u: int|
                    0 <= u < self.roots@.len() ==> consistent(
                        #[trigger] self.roots@[u],
                        self.game.actions(),
                    ),
                forall|u: int|
                    0 <= u < t ==> (#[trigger] self.roots@[u]).children@.len() == lesser(
                        start[u].children@.len() + self.roots@[u].n - start[u].n,
                        self.game.actions().len() as int,
                    ),
                forall|u: int| t <= u < self.roots@.len() ==> #[trigger] self.roots@[u] == start[u],
                forall|u: int|
                    0 <= u < t ==> (#[trigger] self.roots@[u]).n == if start[u].n + n_samples
                        > MAX_VISITS {
                        MAX_VISITS as int
                    } else {
                        start[u].n + n_samples
                    },
            decreases self.roots@.len() - t,
        {
            let ghost mid = self.roots@;
            let mut root = self.roots.remove(t);
            assert(root == mid[t as int]);
            assert(root == start[t as int]);
            let mut k: usize = 0;
            while k < n_samples && root.n < MAX_VISITS
                invariant
                    root.wf(),
                    0 <= k <= n_samples,
                    root.n == start[t as int].n + k,
                    consistent(root, self.game.actions()),
                    root.children@.len() == lesser(
                        start[t as int].children@.len() + k,
                        self.game.actions().len() as int,
                    ),
                decreases n_samples - k,
            {
                let mut game = self.game.duplicate();
                root.iteration(&mut game, c_milli);
                k = k + 1;
            }
            self.roots.insert(t, root);
            assert(self.roots@ =~= mid.update(t as int, root));
            t = t + 1;
        }
        Ok(())
    }

    /// The action of the most preferred root child over all trees (an
    /// unvisited child first, then the highest mean reward; ties go to the
    /// earlier tree, then the earlier child); `None` when no tree has a child.
    pub fn best_action(&self) -> (r: Option<A>)
        requires
            self.wf(),
        ensures
            r is None <==> forall|t: int|
                0 <= t < self.trees().len() ==> (#[trigger] self.trees()[t]).children@.len() == 0,
            r matches Some(a) ==> exists|t: int, i: int|
                {
                    &&& 0 <= t < self.trees().len()
                    &&& 0 <= i < self.trees()[t].children@.len()
                    &&& self.trees()[t].children@[i].action == Some(a)
                    &&& forall|u: int, j: int|
                        0 <= u < self.trees().len() && 0 <= j < self.trees()[u].children@.len()
                            ==> !preferred(
                            self.trees()[u].children@[j],
                            self.trees()[t].children@[i],
                        )
                    &&& forall|u: int, j: int|
                        0 <= u < self.trees().len() && 0 <= j < self.trees()[u].children@.len()
                            && before(u, j, t, i) ==> preferred(
                            self.trees()[t].children@[i],
                            self.trees()[u].children@[j],
                        )
                },
    {
        let mut best: Option<(usize, usize)> = None;
        let mut best_value: u128 = 0;
        let mut t: usize = 0;
        while t < self.roots.len()
            invariant
                self.wf(),
                self.trees() == self.roots@,
                0 <= t <= self.roots@.len(),
                best is None <==> forall|u: int|
                    0 <= u < t ==> (#[trigger] self.roots@[u]).children@.len() == 0,
                best matches Some(p) ==> leads(self.roots@, p.0 as int, p.1 as int, t as int, 0),
                best matches Some(p) ==> self.roots@[p.0 as int].children@[p.1 as int].n != 0
                    ==> best_value == uct_score(
                    self.roots@[p.0 as int].children@[p.1 as int].q as nat,
                    self.roots@[p.0 as int].children@[p.1 as int].n as nat,
                    0,
                    0,
                ),
            decreases self.roots@.len() - t,
        {
            let root = &self.roots[t];
            assert(self.trees()[t as int].wf());
            let mut i: usize = 0;
            while i < root.children.len()
                invariant
                    self.wf(),
                    0 <= t < self.roots@.len(),
                    *root == self.roots@[t as int],
                    root.wf(),
                    0 <= i <= root.children@.len(),
                    best is None <==> (forall|u: int|
                        0 <= u < t ==> (#[trigger] self.roots@[u]).children@.len() == 0) && i == 0,
                    best matches Some(p) ==> leads(self.roots@, p.0 as int, p.1 as int, t as int, i as int),
                    best matches Some(p) ==> self.roots@[p.0 as int].children@[p.1 as int].n != 0
                        ==> best_value == uct_score(
                        self.roots@[p.0 as int].children@[p.1 as int].q as nat,
                        self.roots@[p.0 as int].children@[p.1 as int].n as nat,
                        0,
                        0,
                    ),
                decreases root.children@.len() - i,
            {
                let child = &root.children[i];
                assert(child.wf());
                let ghost prev = best;
                let ghost cur = self.roots@[t as int].children@[i as int];
                match best {
                    None => {
                        best = Some((t, i));
                        if child.n != 0 {
                            best_value = uct_value(child.q, child.n, 0, 0);
                        }
                        proof {
                            lemma_preferred_order(cur, cur, cur);
                            assert forall|u: int, j: int|
                                0 <= u < self.roots@.len() && 0 <= j < self.roots@[u].children@.len()
                                    && #[trigger] before(u, j, t as int, i + 1) implies u == t && j
                                    == i by {
                                if u < t {
                                    assert(self.roots@[u].children@.len() == 0);
                                }
                            }
                        }
                    },
                    Some(p) => {
                        let ghost ob = self.roots@[p.0 as int].children@[p.1 as int];
                        if self.roots[p.0].children[p.1].n != 0 {
                            if child.n == 0 {
                                best = Some((t, i));
                            } else {
                                let value = uct_value(child.q, child.n, 0, 0);
                                if value > best_value {
                                    best = Some((t, i));
                                    best_value = value;
                                }
                            }
                        }
                        proof {
                            if best != prev {
                                assert(preferred(cur, ob));
                                assert forall|u: int, j: int|
                                    0 <= u < self.roots@.len() && 0 <= j < self.roots@[u].children@.len()
                                        && before(u, j, t as int, i + 1) implies !preferred(
                                    self.roots@[u].children@[j],
                                    cur,
                                ) by {
                                    lemma_preferred_order(self.roots@[u].children@[j], cur, ob);
                                    lemma_preferred_order(cur, cur, cur);
                                    if before(u, j, t as int, i as int) {
                                        assert(!preferred(self.roots@[u].children@[j], ob));
                                    }
                                }
                                assert forall|u: int, j: int|
                                    0 <= u < self.roots@.len() && 0 <= j < self.roots@[u].children@.len()
                                        && before(u, j, t as int, i as int) implies preferred(
                                    cur,
                                    self.roots@[u].children@[j],
                                ) by {
                                    let y = self.roots@[u].children@[j];
                                    lemma_preferred_order(cur, ob, y);
                                    assert(!preferred(y, ob));
                                    if before(u, j, p.0 as int, p.1 as int) {
                                        assert(preferred(ob, y));
                                    }
                                }
                            } else {
                                assert(!preferred(cur, ob));
                                assert forall|u: int, j: int|
                                    0 <= u < self.roots@.len() && 0 <= j < self.roots@[u].children@.len()
                                        && before(u, j, t as int, i + 1) implies !preferred(
                                    self.roots@[u].children@[j],
                                    ob,
                                ) by {
                                    if before(u, j, t as int, i as int) {
                                        assert(!preferred(self.roots@[u].children@[j], ob));
                                    }
                                }
                            }
                        }
                    },
                }
                i = i + 1;
            }
            proof {
                if let Some(p) = best {
                    lemma_leads_within_tree(self.roots@, p.0 as int, p.1 as int, t as int);
                }
            }
            t = t + 1;
        }
        match best {
            Some(p) => {
                let action = self.roots[p.0].children[p.1].action;
                proof {
                    assert(self.trees()[p.0 as int].wf());
                    let (pt, pi) = (p.0 as int, p.1 as int);
                    assert forall|u: int, j: int|
                        0 <= u < self.trees().len() && 0 <= j < self.trees()[u].children@.len()
                            implies !preferred(
                        #[trigger] self.trees()[u].children@[j],
                        self.trees()[pt].children@[pi],
                    ) by {
                        assert(before(u, j, t as int, 0));
                    }
                    assert(self.trees()[pt].children@[pi].action == action);
                }
                action
            },
            None => None,
        }
    }

    /// An ensemble in which no tree has explored a move offers no
    /// recommendation: this holds right after `new` and after `advance_game`.
    pub proof fn lemma_untouched_recommends_nothing(&self)
        requires
            self.untouched(),
        ensures
            forall|t: int|
                0 <= t < self.trees().len() ==> (#[trigger] self.trees()[t]).children@.len() == 0,
    {
        assert forall|t: int| 0 <= t < self.trees().len() implies (
        #[trigger] self.trees()[t]).children@.len() == 0 by {
            assert(is_fresh(self.trees()[t], None));
        }
    }

    /// Forgets every tree and starts the same number of empty trees over a
    /// copy of `game`, the state after a real move.
    pub fn advance_game(&mut self, game: &G)
        ensures
            final(self).wf(),
            final(self).untouched(),
            final(self).trees().len() == old(self).trees().len(),
            final(self).state() == *game,
    {
        let size = self.roots.len();
        self.roots = Self::fresh_roots(size);
        self.game = game.duplicate();
        assert(self.trees() == self.roots@);
    }
}

} // verus!
