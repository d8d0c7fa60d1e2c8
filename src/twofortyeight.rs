//! The 2048 tile game: a 4 by 4 board of powers of two that slide and merge.
use vstd::prelude::*;
use crate::mcts::{Game, GameAction};

verus! {

/// Two equal tiles merge, unless their sum would not fit in a tile.
pub open spec fn can_merge(a: u16, b: u16) -> bool {
    a == b && a < 0x8000
}

/// The tiles of a row without its empty cells, in order.
pub open spec fn nonzero(s: Seq<u16>) -> Seq<u16>
    decreases s.len(),
{
    if s.len() == 0 {
        seq![]
    } else if s[0] == 0 {
        nonzero(s.skip(1))
    } else {
        seq![s[0]] + nonzero(s.skip(1))
    }
}

/// Merges neighbouring equal tiles, from the front, each tile at most once.
pub open spec fn combine(s: Seq<u16>) -> Seq<u16>
    decreases s.len(),
{
    if s.len() < 2 {
        s
    } else if can_merge(s[0], s[1]) {
        seq![(2 * s[0]) as u16] + combine(s.skip(2))
    } else {
        seq![s[0]] + combine(s.skip(1))
    }
}

/// The points scored by `combine`: the value of every tile that a merge makes.
pub open spec fn combine_points(s: Seq<u16>) -> nat
    decreases s.len(),
{
    if s.len() < 2 {
        0
    } else if can_merge(s[0], s[1]) {
        (2 * s[0] + combine_points(s.skip(2))) as nat
    } else {
        combine_points(s.skip(1))
    }
}

pub open spec fn zeros(n: nat) -> Seq<u16> {
    Seq::new(n, |i: int| 0u16)
}

/// A row after sliding all tiles to the front and merging: as long as the row.
pub open spec fn merged_row(s: Seq<u16>) -> Seq<u16> {
    let c = combine(nonzero(s));
    c + zeros((s.len() - c.len()) as nat)
}

pub open spec fn row_points(s: Seq<u16>) -> nat {
    combine_points(nonzero(s))
}

/// After the slide the row has at least one empty cell.
pub open spec fn row_has_room(s: Seq<u16>) -> bool {
    combine(nonzero(s)).len() < s.len()
}

pub open spec fn pending(next: u16) -> Seq<u16> {
    if next == 0 {
        seq![]
    } else {
        seq![next]
    }
}

pub proof fn lemma_nonzero_len(s: Seq<u16>)
    ensures
        nonzero(s).len() <= s.len(),
        forall|i: int| 0 <= i < nonzero(s).len() ==> nonzero(s)[i] != 0,
    decreases s.len(),
{
    if s.len() > 0 {
        lemma_nonzero_len(s.skip(1));
    }
}

pub proof fn lemma_combine_len(s: Seq<u16>)
    ensures
        combine(s).len() <= s.len(),
        combine_points(s) <= 0x10000 * s.len(),
    decreases s.len(),
{
    if s.len() >= 2 {
        lemma_combine_len(s.skip(1));
        lemma_combine_len(s.skip(2));
    }
}

proof fn lemma_nonzero_step(s: Seq<u16>, i: int)
    requires
        0 <= i < s.len(),
    ensures
        nonzero(s.skip(i)) == (if s[i] == 0 {
            nonzero(s.skip(i + 1))
        } else {
            seq![s[i]] + nonzero(s.skip(i + 1))
        }),
{
    assert(s.skip(i).skip(1) =~= s.skip(i + 1));
}

/// Slides the tiles of `row` to the front, merging equal neighbours once.
/// Returns the new row (as long as `row`), the points the merges score, and
/// whether the new row has an empty cell.
pub fn merge_vec(row: &Vec<u16>) -> (r: (Vec<u16>, u64, bool))
    requires
        row.len() <= 0xFFFF_FFFF,
    ensures
        r.0@ == merged_row(row@),
        r.1 == row_points(row@),
        r.2 == row_has_room(row@),
{
    let ghost all = nonzero(row@);
    proof {
        lemma_nonzero_len(row@);
        lemma_combine_len(all);
        assert(row@.skip(0) =~= row@);
    }
    let mut merged: Vec<u16> = Vec::new();
    let mut points: u64 = 0;
    let mut next: u16 = 0;
    let mut i: usize = 0;
    while i < row.len()
        invariant
            0 <= i <= row.len(),
            row.len() <= 0xFFFF_FFFF,
            all == nonzero(row@),
            combine_points(all) <= 0x10000 * row.len(),
            merged@ + combine(pending(next) + nonzero(row@.skip(i as int))) == combine(all),
            points + combine_points(pending(next) + nonzero(row@.skip(i as int))) == combine_points(all),
        decreases row.len() - i,
    {
        let t = row[i];
        let ghost rest = nonzero(row@.skip(i + 1));
        proof {
            lemma_nonzero_step(row@, i as int);
            lemma_nonzero_len(row@.skip(i + 1));
        }
        let ghost before = merged@;
        if t != 0 {
            let ghost s = pending(next) + (seq![t] + rest);
            if next != 0 && t == next && t < 0x8000 {
                assert(s.skip(2) =~= rest);
                assert(s[0] == next && s[1] == t);
                merged.push(2 * t);
                points = points + 2 * (t as u64);
                next = 0;
                assert(pending(next) + rest =~= rest);
                assert(merged@ + combine(rest) =~= before + combine(s)) by {
                    assert(combine(s) == seq![(2 * t) as u16] + combine(rest));
                }
            } else if next != 0 {
                assert(s.skip(1) =~= seq![t] + rest);
                assert(combine(s) == seq![next] + combine(seq![t] + rest)) by {
                    assert(s[0] == next && s[1] == t);
                }
                assert(combine_points(s) == combine_points(seq![t] + rest)) by {
                    assert(s[0] == next && s[1] == t);
                }
                merged.push(next);
                next = t;
                assert(pending(next) + rest =~= seq![t] + rest);
                assert(merged@ + combine(seq![t] + rest) =~= before + combine(s));
            } else {
                next = t;
                assert(pending(next) + rest =~= s);
            }
        }
        i = i + 1;
    }
    assert(row@.skip(i as int) =~= seq![]);
    assert(pending(next) + seq![] =~= pending(next));
    if next != 0 {
        merged.push(next);
        assert(merged@ =~= combine(all));
    } else {
        assert(merged@ =~= combine(all));
    }
    proof {
        lemma_combine_len(all);
    }
    let room = merged.len() < row.len();
    let ghost front = merged@;
    while merged.len() < row.len()
        invariant
            merged.len() <= row.len(),
            front.len() <= merged.len(),
            merged@ =~= front + zeros((merged.len() - front.len()) as nat),
        decreases row.len() - merged.len(),
    {
        merged.push(0);
        assert(merged@ =~= front + zeros((merged.len() - front.len()) as nat));
    }
    (merged, points, room)
}

pub const WIDTH: usize = 4;
pub const HEIGHT: usize = 4;

/// The sum of the tiles of a row.
pub open spec fn total(s: Seq<u16>) -> int
    decreases s.len(),
{
    if s.len() == 0 {
        0
    } else {
        s[0] + total(s.skip(1))
    }
}

proof fn lemma_total_concat(a: Seq<u16>, b: Seq<u16>)
    ensures
        total(a + b) == total(a) + total(b),
    decreases a.len(),
{
    if a.len() > 0 {
        assert((a + b).skip(1) =~= a.skip(1) + b);
        lemma_total_concat(a.skip(1), b);
    } else {
        assert(a + b =~= b);
    }
}

proof fn lemma_total_zeros(n: nat)
    ensures
        total(zeros(n)) == 0,
    decreases n,
{
    if n > 0 {
        assert(zeros(n).skip(1) =~= zeros((n - 1) as nat));
        lemma_total_zeros((n - 1) as nat);
    }
}

proof fn lemma_total_nonzero(s: Seq<u16>)
    ensures
        total(nonzero(s)) == total(s),
    decreases s.len(),
{
    if s.len() > 0 {
        lemma_total_nonzero(s.skip(1));
        let h: Seq<u16> = seq![s[0]];
        lemma_total_concat(h, nonzero(s.skip(1)));
        assert(h.skip(1) =~= Seq::<u16>::empty());
        assert(total(h.skip(1)) == 0);
        assert(total(h) == s[0]);
    }
}

proof fn lemma_total_combine(s: Seq<u16>)
    ensures
        total(combine(s)) == total(s),
    decreases s.len(),
{
    if s.len() >= 2 {
        lemma_total_combine(s.skip(1));
        lemma_total_combine(s.skip(2));
        assert(s.skip(1).skip(1) =~= s.skip(2));
        assert(total(s) == s[0] + s[1] + total(s.skip(2)));
        if can_merge(s[0], s[1]) {
            let h: Seq<u16> = seq![(2 * s[0]) as u16];
            lemma_total_concat(h, combine(s.skip(2)));
            assert(h.skip(1) =~= Seq::<u16>::empty());
            assert(total(h.skip(1)) == 0);
            assert(total(h) == h[0]);
        } else {
            let h: Seq<u16> = seq![s[0]];
            lemma_total_concat(h, combine(s.skip(1)));
            assert(h.skip(1) =~= Seq::<u16>::empty());
            assert(total(h.skip(1)) == 0);
            assert(total(h) == h[0]);
        }
    }
}

/// Sliding and merging keeps the sum of a row's tiles.
pub proof fn lemma_merge_keeps_total(s: Seq<u16>)
    ensures
        total(merged_row(s)) == total(s),
{
    let c = combine(nonzero(s));
    lemma_total_nonzero(s);
    lemma_total_combine(nonzero(s));
    lemma_total_concat(c, zeros((s.len() - c.len()) as nat));
    lemma_total_zeros((s.len() - c.len()) as nat);
}

/// The sum of a row of four tiles, term by term.
proof fn lemma_total_four(s: Seq<u16>)
    requires
        s.len() == 4,
    ensures
        total(s) == s[0] + s[1] + s[2] + s[3],
{
    assert(s.skip(1).skip(1).skip(1).skip(1) =~= Seq::<u16>::empty());
    assert(total(s.skip(1).skip(1).skip(1)) == s[3] + total(s.skip(1).skip(1).skip(1).skip(1)));
    assert(total(s.skip(1).skip(1)) == s[2] + total(s.skip(1).skip(1).skip(1)));
    assert(total(s.skip(1)) == s[1] + total(s.skip(1).skip(1)));
}

#[derive(Debug, Clone, Copy, PartialEq, Eq, Structural, Hash)]
/// A move of the 2048 game: all tiles slide towards one side.
pub enum Action {
    Up,
    Down,
    Left,
    Right,
}

impl GameAction for Action {
    fn same_as(&self, other: &Self) -> (r: bool) {
        *self == *other
    }
}

/// The board cell of tile `inner` of line `outer` when tiles slide towards
/// `action`: tile 0 of each line is the one at the side it slides to.
pub open spec fn cell(action: Action, outer: int, inner: int) -> int {
    match action {
        Action::Up => outer + 4 * inner,
        Action::Down => 12 + outer - 4 * inner,
        Action::Left => 4 * outer + inner,
        Action::Right => 15 - 4 * outer - inner,
    }
}

pub open spec fn line(board: Seq<u16>, action: Action, outer: int) -> Seq<u16> {
    Seq::new(4, |inner: int| board[cell(action, outer, inner)])
}

/// The line and the position in it of board cell `k`, inverse to `cell`.
pub open spec fn outer_of(action: Action, k: int) -> int {
    match action {
        Action::Up => k % 4,
        Action::Down => k % 4,
        Action::Left => k / 4,
        Action::Right => 3 - k / 4,
    }
}

pub open spec fn inner_of(action: Action, k: int) -> int {
    match action {
        Action::Up => k / 4,
        Action::Down => 3 - k / 4,
        Action::Left => k % 4,
        Action::Right => 3 - k % 4,
    }
}

/// The board after every line slid towards `action`.
pub open spec fn shifted(board: Seq<u16>, action: Action) -> Seq<u16> {
    Seq::new(
        16,
        |k: int| merged_row(line(board, action, outer_of(action, k)))[inner_of(action, k)],
    )
}

pub open spec fn shift_points(board: Seq<u16>, action: Action) -> nat {
    row_points(line(board, action, 0)) + row_points(line(board, action, 1)) + row_points(
        line(board, action, 2),
    ) + row_points(line(board, action, 3))
}

/// A move is legal when, after it, some line has an empty cell.
pub open spec fn legal(board: Seq<u16>, action: Action) -> bool {
    row_has_room(line(board, action, 0)) || row_has_room(line(board, action, 1))
        || row_has_room(line(board, action, 2)) || row_has_room(line(board, action, 3))
}

pub open spec fn board_total(b: Seq<u16>) -> int {
    b[0] + b[1] + b[2] + b[3] + b[4] + b[5] + b[6] + b[7] + b[8] + b[9] + b[10] + b[11] + b[12]
        + b[13] + b[14] + b[15]
}

pub open spec fn is_full(b: Seq<u16>) -> bool {
    forall|k: int| 0 <= k < 16 ==> b[k] != 0
}

/// The legal moves, in the order up, down, left, right.
pub open spec fn legal_actions(b: Seq<u16>) -> Seq<Action> {
    (if legal(b, Action::Up) { seq![Action::Up] } else { seq![] })
        + (if legal(b, Action::Down) { seq![Action::Down] } else { seq![] })
        + (if legal(b, Action::Left) { seq![Action::Left] } else { seq![] })
        + (if legal(b, Action::Right) { seq![Action::Right] } else { seq![] })
}

fn cell_index(action: &Action, outer: usize, inner: usize) -> (r: usize)
    requires
        outer < 4,
        inner < 4,
    ensures
        r == cell(*action, outer as int, inner as int),
        r < 16,
{
    match action {
        Action::Up => outer + 4 * inner,
        Action::Down => 12 + outer - 4 * inner,
        Action::Left => 4 * outer + inner,
        Action::Right => 15 - 4 * outer - inner,
    }
}

/// Slides every line of `board` towards `action`. Returns the new board and,
/// when the move is legal, the points it scores.
pub fn shift_and_merge(board: [u16; 16], action: &Action) -> (r: ([u16; 16], Option<u64>))
    ensures
        forall|o: int, i: int|
            0 <= o < 4 && 0 <= i < 4 ==> r.0@[cell(*action, o, i)] == merged_row(
                line(board@, *action, o),
            )[i],
        r.0@ == shifted(board@, *action),
        r.1 == (if legal(board@, *action) {
            Some(shift_points(board@, *action) as u64)
        } else {
            None
        }),
{
    let mut new_board: [u16; 16] = [0; 16];
    let mut all_points: u64 = 0;
    let mut any_room = false;
    let mut outer: usize = 0;
    while outer < HEIGHT
        invariant
            0 <= outer <= 4,
            new_board@.len() == 16,
            forall|o: int, i: int|
                0 <= o < outer && 0 <= i < 4 ==> new_board@[cell(*action, o, i)] == merged_row(
                    line(board@, *action, o),
                )[i],
            all_points == (if outer == 0 { 0 } else if outer == 1 {
                row_points(line(board@, *action, 0))
            } else if outer == 2 {
                row_points(line(board@, *action, 0)) + row_points(line(board@, *action, 1))
            } else if outer == 3 {
                row_points(line(board@, *action, 0)) + row_points(line(board@, *action, 1))
                    + row_points(line(board@, *action, 2))
            } else {
                shift_points(board@, *action)
            }),
            any_room == exists|o: int| 0 <= o < outer && row_has_room(line(board@, *action, o)),
            all_points <= outer * 0x40000,
        decreases 4 - outer,
    {
        let mut vec: Vec<u16> = Vec::with_capacity(HEIGHT);
        let mut inner: usize = 0;
        while inner < HEIGHT
            invariant
                0 <= outer < 4,
                0 <= inner <= 4,
                vec@ == line(board@, *action, outer as int).take(inner as int),
            decreases 4 - inner,
        {
            vec.push(board[cell_index(action, outer, inner)]);
            inner = inner + 1;
            assert(vec@ =~= line(board@, *action, outer as int).take(inner as int));
        }
        assert(vec@ =~= line(board@, *action, outer as int));
        let (merged_vec, points, room) = merge_vec(&vec);
        proof {
            lemma_combine_len(nonzero(vec@));
            lemma_nonzero_len(vec@);
        }
        all_points = all_points + points;
        any_room = any_room || room;
        let mut inner: usize = 0;
        while inner < HEIGHT
            invariant
                0 <= outer < 4,
                0 <= inner <= 4,
                new_board@.len() == 16,
                merged_vec@ == merged_row(line(board@, *action, outer as int)),
                merged_vec@.len() == 4,
                forall|o: int, i: int|
                    0 <= o < outer && 0 <= i < 4 ==> new_board@[cell(*action, o, i)] == merged_row(
                        line(board@, *action, o),
                    )[i],
                forall|i: int|
                    0 <= i < inner ==> new_board@[cell(*action, outer as int, i)] == merged_row(
                        line(board@, *action, outer as int),
                    )[i],
            decreases 4 - inner,
        {
            let idx = cell_index(action, outer, inner);
            new_board[idx] = merged_vec[inner];
            inner = inner + 1;
        }
        outer = outer + 1;
    }
    assert forall|k: int| 0 <= k < 16 implies new_board@[k] == shifted(board@, *action)[k] by {
        let o = outer_of(*action, k);
        let i = inner_of(*action, k);
        assert(cell(*action, o, i) == k);
    }
    assert(new_board@ =~= shifted(board@, *action));
    if any_room {
        (new_board, Some(all_points))
    } else {
        (new_board, None)
    }
}

proof fn lemma_line_total(b: Seq<u16>, r: Seq<u16>, action: Action, o: int)
    requires
        b.len() == 16,
        r.len() == 16,
        0 <= o < 4,
        forall|i: int| 0 <= i < 4 ==> r[cell(action, o, i)] == merged_row(line(b, action, o))[i],
    ensures
        r[cell(action, o, 0)] + r[cell(action, o, 1)] + r[cell(action, o, 2)] + r[cell(action, o, 3)]
            == b[cell(action, o, 0)] + b[cell(action, o, 1)] + b[cell(action, o, 2)] + b[cell(
            action,
            o,
            3,
        )],
{
    let l = line(b, action, o);
    lemma_nonzero_len(l);
    lemma_combine_len(nonzero(l));
    lemma_merge_keeps_total(l);
    lemma_total_four(l);
    lemma_total_four(merged_row(l));
}

/// Sliding a whole board keeps the sum of its tiles.
pub proof fn lemma_shift_keeps_total(b: Seq<u16>, r: Seq<u16>, action: Action)
    requires
        b.len() == 16,
        r.len() == 16,
        forall|o: int, i: int|
            0 <= o < 4 && 0 <= i < 4 ==> r[cell(action, o, i)] == merged_row(line(b, action, o))[i],
    ensures
        board_total(r) == board_total(b),
{
    lemma_line_total(b, r, action, 0);
    lemma_line_total(b, r, action, 1);
    lemma_line_total(b, r, action, 2);
    lemma_line_total(b, r, action, 3);
}

/// After a legal move some cell of the slid board is empty.
proof fn lemma_legal_leaves_room(b: Seq<u16>, r: Seq<u16>, action: Action)
    requires
        b.len() == 16,
        r.len() == 16,
        legal(b, action),
        forall|o: int, i: int|
            0 <= o < 4 && 0 <= i < 4 ==> r[cell(action, o, i)] == merged_row(line(b, action, o))[i],
    ensures
        !is_full(r),
{
    let o: int = if row_has_room(line(b, action, 0)) {
        0
    } else if row_has_room(line(b, action, 1)) {
        1
    } else if row_has_room(line(b, action, 2)) {
        2
    } else {
        3
    };
    let l = line(b, action, o);
    lemma_nonzero_len(l);
    lemma_combine_len(nonzero(l));
    assert(merged_row(l)[3] == 0);
    assert(r[cell(action, o, 3)] == 0);
}

proof fn lemma_update_total(b: Seq<u16>, k: int)
    requires
        b.len() == 16,
        0 <= k < 16,
        b[k] == 0,
    ensures
        board_total(b.update(k, 2)) == board_total(b) + 2,
{
    let u = b.update(k, 2);
    assert(forall|j: int| 0 <= j < 16 && j != k ==> u[j] == b[j]);
    assert(u[k] == 2);
}

/// The number of empty cells among the first `k` cells of the board.
pub open spec fn empty_before(b: Seq<u16>, k: int) -> int
    decreases k,
{
    if k <= 0 {
        0
    } else {
        empty_before(b, k - 1) + if b[k - 1] == 0 {
            1int
        } else {
            0int
        }
    }
}

proof fn lemma_empty_before_bounds(b: Seq<u16>, k: int)
    requires
        0 <= k <= 16,
    ensures
        0 <= empty_before(b, k) <= k,
        (forall|j: int| 0 <= j < k ==> b[j] != 0) <==> empty_before(b, k) == 0,
    decreases k,
{
    if k > 0 {
        lemma_empty_before_bounds(b, k - 1);
    }
}

/// Puts a 2 on the empty cell that `draw` picks: counting the empty cells
/// from cell 0, the one numbered `draw` modulo their count.
pub fn spawn_at(board: [u16; 16], draw: usize) -> (r: [u16; 16])
    requires
        !is_full(board@),
    ensures
        exists|k: int|
            0 <= k < 16 && board@[k] == 0 && empty_before(board@, k) == draw as int % empty_before(
                board@,
                16,
            ) && r@ == board@.update(k, 2),
{
    let mut empty: usize = 0;
    let mut k: usize = 0;
    while k < 16
        invariant
            0 <= k <= 16,
            empty == empty_before(board@, k as int),
        decreases 16 - k,
    {
        proof {
            lemma_empty_before_bounds(board@, k as int);
        }
        if board[k] == 0 {
            empty = empty + 1;
        }
        k = k + 1;
    }
    proof {
        lemma_empty_before_bounds(board@, 16);
    }
    let pick = draw % empty;
    let mut seen: usize = 0;
    let mut k: usize = 0;
    while k < 16
        invariant
            0 <= k <= 16,
            seen == empty_before(board@, k as int),
            seen <= pick,
            pick < empty,
            empty == empty_before(board@, 16),
            pick == draw as int % empty as int,
        decreases 16 - k,
    {
        if board[k] == 0 {
            if seen == pick {
                let mut r = board;
                r[k] = 2;
                assert(r@ =~= board@.update(k as int, 2));
                return r;
            }
            seen = seen + 1;
        }
        k = k + 1;
    }
    board
}

#[verifier::external_type_specification]
#[verifier::external_body]
pub struct ExXorShiftRng(rand::XorShiftRng);

/// The generator that a seed gives.
pub uninterp spec fn seeded_rng(seed: Seq<u32>) -> rand::XorShiftRng;

/// Relies on rand's `SeedableRng::from_seed` for `XorShiftRng`, which panics
/// when all four words of the seed are zero and otherwise builds the
/// generator from the seed alone.
#[verifier::external_body]
fn rng_from_seed(seed: [u32; 4]) -> (r: rand::XorShiftRng)
    requires
        seed[0] != 0 || seed[1] != 0 || seed[2] != 0 || seed[3] != 0,
    ensures
        r == seeded_rng(seed@),
{
    <rand::XorShiftRng as rand::SeedableRng<[u32; 4]>>::from_seed(seed)
}

/// Relies on rand's `Rng::gen::<usize>` on `XorShiftRng`: any value may come
/// back, and the generator moves on.
#[verifier::external_body]
fn rng_draw(rng: &mut rand::XorShiftRng) -> usize {
    rand::Rng::gen::<usize>(rng)
}

/// Relies on the derived `Clone` of `XorShiftRng`, which copies its four
/// state words.
pub assume_specification[ <rand::XorShiftRng as Clone>::clone ](rng: &rand::XorShiftRng) -> (r:
    rand::XorShiftRng)
    ensures
        r == *rng,
;

/// The 2048 game. It owns its random number generator, so that a copy of a
/// state plays on exactly as the state itself would.
#[derive(Clone)]
pub struct TwoFortyEight {
    /// The generator that places new tiles.
    pub rng: rand::XorShiftRng,
    pub board: [u16; 16],
    pub score: u64,
    pub moves: usize,
}

impl TwoFortyEight {
    /// An empty board, with no score and no moves.
    pub fn new_empty() -> (r: TwoFortyEight)
        ensures
            forall|k: int| 0 <= k < 16 ==> r.board@[k] == 0,
            r.score == 0,
            r.moves == 0,
            r.rng == seeded_rng(seq![1u32, 2, 3, 4]),
    {
        let seed: [u32; 4] = [1, 2, 3, 4];
        assert(seed@ =~= seq![1u32, 2, 3, 4]);
        TwoFortyEight { rng: rng_from_seed(seed), score: 0, moves: 0, board: [0;16] }
    }

    /// A board with two tiles of 2 in it.
    pub fn new() -> (r: TwoFortyEight)
        ensures
            board_total(r.board@) == 4,
            forall|k: int| 0 <= k < 16 ==> r.board@[k] == 0 || r.board@[k] == 2,
            r.score == 0,
            r.moves == 0,
    {
        let mut game = TwoFortyEight::new_empty();
        assert(board_total(game.board@) == 0);
        game.random_spawn();
        game.random_spawn();
        game
    }

    pub fn get_tile(&self, row: usize, col: usize) -> (r: u16)
        requires
            row < HEIGHT,
            col < WIDTH,
        ensures
            r == self.board@[4 * row + col],
    {
        self.board[row * WIDTH + col]
    }

    pub fn set_tile(&mut self, row: usize, col: usize, num: u16)
        requires
            row < HEIGHT,
            col < WIDTH,
        ensures
            final(self).board@ == old(self).board@.update(4 * row + col, num),
            final(self).score == old(self).score,
            final(self).moves == old(self).moves,
            final(self).rng == old(self).rng,
    {
        self.board[row * WIDTH + col] = num;
    }

    /// Whether no cell of the board is empty.
    pub fn board_full(&self) -> (r: bool)
        ensures
            r == is_full(self.board@),
    {
        let mut k: usize = 0;
        while k < 16
            invariant
                0 <= k <= 16,
                forall|j: int| 0 <= j < k ==> self.board@[j] != 0,
            decreases 16 - k,
        {
            if self.board[k] == 0 {
                return false;
            }
            k = k + 1;
        }
        true
    }

    /// Places a 2 into an empty cell picked by the game's own generator.
    pub fn random_spawn(&mut self)
        requires
            !is_full(old(self).board@),
        ensures
            exists|k: int|
                0 <= k < 16 && old(self).board@[k] == 0 && final(self).board@ == old(
                    self,
                ).board@.update(k, 2),
            board_total(final(self).board@) == board_total(old(self).board@) + 2,
            final(self).score == old(self).score,
            final(self).moves == old(self).moves,
    {
        let draw = rng_draw(&mut self.rng);
        let ghost before = self.board@;
        self.board = spawn_at(self.board, draw);
        proof {
            let k = choose|k: int|
                0 <= k < 16 && before[k] == 0 && empty_before(before, k) == draw as int
                    % empty_before(before, 16) && self.board@ == before.update(k, 2);
            lemma_update_total(before, k);
        }
    }

    /// Makes the game's generator start from `seed`.
    pub fn set_rng_seed(&mut self, seed: u32)
        ensures
            final(self).rng == seeded_rng(
                seq![seed, seed.wrapping_add(1), seed.wrapping_add(2), seed.wrapping_add(3)],
            ),
            final(self).board == old(self).board,
            final(self).score == old(self).score,
            final(self).moves == old(self).moves,
    {
        let words = [seed, seed.wrapping_add(1), seed.wrapping_add(2), seed.wrapping_add(3)];
        assert(words@ =~= seq![seed, seed.wrapping_add(1), seed.wrapping_add(2), seed.wrapping_add(3)]);
        self.rng = rng_from_seed(words);
    }
}

proof fn lemma_listed_moves_are_legal(b: Seq<u16>)
    ensures
        forall|i: int|
            0 <= i < legal_actions(b).len() ==> legal(b, #[trigger] legal_actions(b)[i]),
        legal_actions(b).no_duplicates(),
{
    let s = legal_actions(b);
    assert forall|i: int, j: int| 0 <= i < s.len() && 0 <= j < s.len() && i != j implies s[i]
        != s[j] by {
        let (u, d, l, r) = (
            legal(b, Action::Up),
            legal(b, Action::Down),
            legal(b, Action::Left),
            legal(b, Action::Right),
        );
        if u {
        }
        if d {
        }
        if l {
        }
        if r {
        }
    }
}

/// The largest reward, given for every score that reaches it.
pub const MAX_REWARD: u64 = 0xFFFF_FFFF;

impl Game<Action> for TwoFortyEight {
    open spec fn actions(&self) -> Seq<Action> {
        legal_actions(self.board@)
    }

    open spec fn reward_of(&self) -> u32 {
        if self.score > MAX_REWARD {
            0xFFFF_FFFFu32
        } else {
            self.score as u32
        }
    }

    /// Every move adds a tile of 2 and keeps the sum of the others.
    open spec fn progress(&self) -> nat {
        (16 * 0xFFFF - board_total(self.board@)) as nat
    }

    /// The tiles slide, a 2 appears on an empty cell of the slid board, the
    /// points are added to the score (which stops at its largest value) and
    /// the move is counted.
    open spec fn transition(&self, action: Action, next: Self) -> bool {
        &&& exists|k: int|
            0 <= k < 16 && shifted(self.board@, action)[k] == 0 && next.board@ == shifted(
                self.board@,
                action,
            ).update(k, 2)
        &&& next.score == if self.score + shift_points(self.board@, action) > u64::MAX {
            u64::MAX as int
        } else {
            self.score + shift_points(self.board@, action)
        }
        &&& next.moves == self.moves.wrapping_add(1)
    }

    fn allowed_actions(&self) -> (r: Vec<Action>) {
        let mut actions: Vec<Action> = Vec::new();
        let ghost b = self.board@;
        if shift_and_merge(self.board, &Action::Up).1.is_some() {
            actions.push(Action::Up);
        }
        if shift_and_merge(self.board, &Action::Down).1.is_some() {
            actions.push(Action::Down);
        }
        if shift_and_merge(self.board, &Action::Left).1.is_some() {
            actions.push(Action::Left);
        }
        if shift_and_merge(self.board, &Action::Right).1.is_some() {
            actions.push(Action::Right);
        }
        proof {
            lemma_listed_moves_are_legal(b);
            assert(actions@ =~= legal_actions(b));
        }
        actions
    }

    /// Slides the tiles, adds the points to the score (which stops at its
    /// largest value), counts the move and places a new tile.
    fn make_move(&mut self, action: &Action) {
        proof {
            lemma_listed_moves_are_legal(self.board@);
            let b = self.board@;
            lemma_nonzero_len(line(b, *action, 0));
            lemma_nonzero_len(line(b, *action, 1));
            lemma_nonzero_len(line(b, *action, 2));
            lemma_nonzero_len(line(b, *action, 3));
            lemma_combine_len(nonzero(line(b, *action, 0)));
            lemma_combine_len(nonzero(line(b, *action, 1)));
            lemma_combine_len(nonzero(line(b, *action, 2)));
            lemma_combine_len(nonzero(line(b, *action, 3)));
        }
        let (new_board, points) = shift_and_merge(self.board, action);
        proof {
            lemma_shift_keeps_total(self.board@, new_board@, *action);
            lemma_legal_leaves_room(self.board@, new_board@, *action);
        }
        if let Some(p) = points {
            self.score = self.score.saturating_add(p);
        }
        self.moves = self.moves.wrapping_add(1);
        self.board = new_board;
        self.random_spawn();
    }

    fn reward(&self) -> (r: u32) {
        if self.score > MAX_REWARD {
            0xFFFF_FFFF
        } else {
            self.score as u32
        }
    }

    fn duplicate(&self) -> (r: Self) {
        TwoFortyEight {
            rng: self.rng.clone(),
            board: self.board,
            score: self.score,
            moves: self.moves,
        }
    }
}

} // verus!
