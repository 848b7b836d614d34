use vstd::prelude::*;

use crate::pieces::{abs, contains_point, on_board, step, Pieces, PieceColor, Point, Type};
use crate::squares::Squares;

verus! {

/// The phase of the game. `Paused` exists but no transition enters it.
#[derive(Debug, Clone, Copy, PartialEq, Eq, Structural)]
pub enum State {
    Paused,
    Play,
    Check,
}

pub open spec fn is_king_of(pieces: &Pieces, i: int, c: PieceColor) -> bool {
    pieces.types@[i] == Type::King && pieces.colors@[i] == c
}

pub open spec fn has_king(pieces: &Pieces, c: PieceColor) -> bool {
    exists|i: int| 0 <= i < pieces.count() && #[trigger] is_king_of(pieces, i, c)
}

/// The first slot that holds the king of color `c`.
pub open spec fn king_index(pieces: &Pieces, c: PieceColor) -> int {
    choose|i: int|
        0 <= i < pieces.count() && #[trigger] is_king_of(pieces, i, c) && forall|j: int|
            0 <= j < i ==> !#[trigger] is_king_of(pieces, j, c)
}

/// The piece in slot `j` can capture on the cell of the piece in slot `k`.
pub open spec fn attacks(pieces: &Pieces, j: int, k: int) -> bool {
    pieces.capture_dest(j, pieces.locations@[k])
}

pub open spec fn attacks_a_king(pieces: &Pieces, j: int) -> bool {
    attacks(pieces, j, king_index(pieces, PieceColor::Black)) || attacks(
        pieces,
        j,
        king_index(pieces, PieceColor::White),
    )
}

/// The slots below `n` whose piece attacks a king, in increasing order.
pub open spec fn attackers(pieces: &Pieces, n: int) -> Seq<usize>
    decreases n,
{
    if n <= 0 {
        seq![]
    } else if attacks_a_king(pieces, n - 1) {
        attackers(pieces, n - 1).push((n - 1) as usize)
    } else {
        attackers(pieces, n - 1)
    }
}

/// The king that the piece in slot `j` attacks.
pub open spec fn prey_of(pieces: &Pieces, j: int) -> int {
    if attacks(pieces, j, king_index(pieces, PieceColor::White)) {
        king_index(pieces, PieceColor::White)
    } else {
        king_index(pieces, PieceColor::Black)
    }
}

/// The king attacked by the last attacker below `n`, or `usize::MAX` when there is none.
pub open spec fn last_prey(pieces: &Pieces, n: int) -> int
    decreases n,
{
    if n <= 0 {
        usize::MAX as int
    } else if attacks_a_king(pieces, n - 1) {
        prey_of(pieces, n - 1)
    } else {
        last_prey(pieces, n - 1)
    }
}

/// The slot of the first king of color `c`.
pub fn find_king(pieces: &Pieces, c: PieceColor) -> (r: usize)
    requires
        pieces.wf(),
        has_king(pieces, c),
    ensures
        r == king_index(pieces, c),
        r < pieces.count(),
        is_king_of(pieces, r as int, c),
{
    let mut i: usize = 0;
    while i < pieces.types.len()
        invariant
            pieces.wf(),
            has_king(pieces, c),
            0 <= i <= pieces.count(),
            forall|j: int| 0 <= j < i ==> !#[trigger] is_king_of(pieces, j, c),
        decreases pieces.count() - i,
    {
        if pieces.types[i] == Type::King && pieces.colors[i] == c {
            proof {
                let k = king_index(pieces, c);
                assert(is_king_of(pieces, i as int, c));
                if k < i {
                    assert(!is_king_of(pieces, k, c));
                }
                if k > i {
                    assert(!is_king_of(pieces, i as int, c));
                }
            }
            return i;
        }
        i += 1;
    }
    proof {
        let k = choose|k: int| 0 <= k < pieces.count() && #[trigger] is_king_of(pieces, k, c);
        assert(!is_king_of(pieces, k, c));
    }
    0
}

/// No piece attacks both kings: each attacks only pieces of the other color.
#[verifier::spinoff_prover]
#[verifier::rlimit(30)]
pub proof fn lemma_one_prey(pieces: &Pieces, j: int)
    requires
        pieces.wf(),
        0 <= j < pieces.count(),
        has_king(pieces, PieceColor::Black),
        has_king(pieces, PieceColor::White),
    ensures
        !(attacks(pieces, j, king_index(pieces, PieceColor::Black)) && attacks(
            pieces,
            j,
            king_index(pieces, PieceColor::White),
        )),
{
    let b = king_index(pieces, PieceColor::Black);
    let w = king_index(pieces, PieceColor::White);
    let kb = choose|i: int| 0 <= i < pieces.count() && #[trigger] is_king_of(pieces, i, PieceColor::Black);
    let kw = choose|i: int| 0 <= i < pieces.count() && #[trigger] is_king_of(pieces, i, PieceColor::White);
    lemma_king_index(pieces, PieceColor::Black, kb);
    lemma_king_index(pieces, PieceColor::White, kw);
    let pb = pieces.locations@[b];
    let pw = pieces.locations@[w];
    pieces.lemma_dest_sound(j, pb);
    pieces.lemma_dest_sound(j, pw);
    pieces.lemma_unique_at(b, pb.x as int, pb.y as int);
    pieces.lemma_unique_at(w, pw.x as int, pw.y as int);
}

/// `king_index` names a king of that color, below any other.
pub proof fn lemma_king_index(pieces: &Pieces, c: PieceColor, k: int)
    requires
        0 <= k < pieces.count(),
        is_king_of(pieces, k, c),
    ensures
        0 <= king_index(pieces, c) < pieces.count(),
        is_king_of(pieces, king_index(pieces, c), c),
        king_index(pieces, c) <= k,
    decreases k,
{
    if exists|j: int| 0 <= j < k && #[trigger] is_king_of(pieces, j, c) {
        let j = choose|j: int| 0 <= j < k && #[trigger] is_king_of(pieces, j, c);
        lemma_king_index(pieces, c, j);
    } else {
        assert(0 <= k < pieces.count() && is_king_of(pieces, k, c) && forall|j: int|
            0 <= j < k ==> !#[trigger] is_king_of(pieces, j, c));
        let f = king_index(pieces, c);
        if k < f {
            assert(!is_king_of(pieces, k, c));
        }
    }
}

/// Scans every piece's captures for either king's cell. Records each attacker's slot, and
/// returns whether there was any, with the slot of the king that the last one attacks
/// (`usize::MAX` when none).
#[verifier::spinoff_prover]
#[verifier::rlimit(30)]
pub fn is_king_endangered(squares: &Squares, pieces: &mut Pieces, pred_index: &mut Vec<usize>) -> (r: (
    bool,
    usize,
))
    requires
        old(pieces).wf(),
        has_king(old(pieces), PieceColor::Black),
        has_king(old(pieces), PieceColor::White),
    ensures
        *final(pieces) == *old(pieces),
        final(pred_index)@ == old(pred_index)@ + attackers(old(pieces), old(pieces).count()),
        r.0 == (attackers(old(pieces), old(pieces).count()).len() > 0),
        r.1 == last_prey(old(pieces), old(pieces).count()),
{
    let num_of_pieces: usize = pieces.locations.len();
    let black_king_index = find_king(pieces, PieceColor::Black);
    let white_king_index = find_king(pieces, PieceColor::White);
    let black_king = pieces.locations[black_king_index];
    let white_king = pieces.locations[white_king_index];
    let ghost start = pred_index@;
    let mut pred_exists: bool = false;
    let mut prey_index: usize = usize::MAX;
    let mut index: usize = 0;
    while index < num_of_pieces
        invariant
            pieces.wf(),
            has_king(pieces, PieceColor::Black),
            has_king(pieces, PieceColor::White),
            num_of_pieces == pieces.count(),
            black_king_index == king_index(pieces, PieceColor::Black),
            white_king_index == king_index(pieces, PieceColor::White),
            black_king == pieces.locations@[black_king_index as int],
            white_king == pieces.locations@[white_king_index as int],
            0 <= index <= num_of_pieces,
            pred_index@ == start + attackers(pieces, index as int),
            pred_exists == (attackers(pieces, index as int).len() > 0),
            prey_index == last_prey(pieces, index as int),
        decreases num_of_pieces - index,
    {
        let (_, valid_kills) = pieces.possible_moves(squares, index);
        proof {
            lemma_one_prey(pieces, index as int);
        }
        if contains_point(&valid_kills, &black_king) {
            pred_index.push(index);
            pred_exists = true;
            prey_index = black_king_index;
        }
        if contains_point(&valid_kills, &white_king) {
            pred_index.push(index);
            pred_exists = true;
            prey_index = white_king_index;
        }
        proof {
            assert(pred_index@ =~= start + attackers(pieces, index + 1));
        }
        index += 1;
    }
    (pred_exists, prey_index)
}

impl State {
    /// Scans every piece's captures for either king's cell and records each attacker's slot.
    /// Returns `Check`, recording the slot of the king that the last attacker threatens, when a
    /// king is attacked; returns `Play`, leaving the king's slot as it was, otherwise.
    pub fn is_king_endangered(
        &mut self,
        squares: &Squares,
        pieces: &mut Pieces,
        pred_index: &mut Vec<usize>,
        prey_index: &mut usize,
    ) -> (r: State)
        requires
            old(pieces).wf(),
            has_king(old(pieces), PieceColor::Black),
            has_king(old(pieces), PieceColor::White),
        ensures
            *final(self) == *old(self),
            *final(pieces) == *old(pieces),
            final(pred_index)@ == old(pred_index)@ + attackers(old(pieces), old(pieces).count()),
            ({
                let a = attackers(old(pieces), old(pieces).count());
                if a.len() > 0 {
                    &&& r == State::Check
                    &&& *final(prey_index) == last_prey(old(pieces), old(pieces).count())
                } else {
                    &&& r == State::Play
                    &&& *final(prey_index) == *old(prey_index)
                }
            }),
    {
        let (found, prey) = is_king_endangered(squares, pieces, pred_index);
        if found {
            *prey_index = prey;
            State::Check
        } else {
            State::Play
        }
    }
}

pub open spec fn sign(a: int) -> int {
    if a > 0 {
        1
    } else if a < 0 {
        -1
    } else {
        0
    }
}

/// `k` lies on a rank, file or diagonal through `a`, and is not `a`.
pub open spec fn aligned(a: Point, k: Point) -> bool {
    &&& a != k
    &&& a.x == k.x || a.y == k.y || abs(k.x - a.x) == abs(k.y - a.y)
}

pub open spec fn is_line_piece(t: Type) -> bool {
    t == Type::Rook || t == Type::Bishop || t == Type::Queen
}

pub open spec fn zone_len(a: Point, k: Point) -> int {
    let dx = abs(k.x - a.x);
    let dy = abs(k.y - a.y);
    if dx < dy {
        dy
    } else {
        dx
    }
}

/// The cells a defender must occupy to stop an attacker of kind `t` on `a` that threatens the
/// king on `k`: for a rook, bishop or queen the line from `a` (included) towards `k` (excluded);
/// for a pawn or a knight the attacker's own cell.
pub open spec fn zone(a: Point, k: Point, t: Type) -> Seq<Point> {
    if is_line_piece(t) {
        Seq::new(
            zone_len(a, k) as nat,
            |m: int|
                Point {
                    x: step(a.x as int, sign(k.x - a.x), m) as u32,
                    y: step(a.y as int, sign(k.y - a.y), m) as u32,
                },
        )
    } else {
        seq![a]
    }
}

/// Appends the danger zone of the attacker in slot `index` against the king on `king_loc`.
pub fn get_danger_zone(pieces: &Pieces, danger_zone: &mut Vec<Point>, king_loc: &Point, index: &usize)
    requires
        pieces.wf(),
        *index < pieces.count(),
        pieces.types@[*index as int] != Type::King,
        on_board(king_loc.x as int, king_loc.y as int),
        is_line_piece(pieces.types@[*index as int]) ==> aligned(
            pieces.locations@[*index as int],
            *king_loc,
        ),
    ensures
        final(danger_zone)@ == old(danger_zone)@ + zone(
            pieces.locations@[*index as int],
            *king_loc,
            pieces.types@[*index as int],
        ),
{
    let a = pieces.locations[*index];
    assert(on_board(a.x as int, a.y as int));
    match pieces.types[*index] {
        Type::Pawn | Type::Knight | Type::King => {
            danger_zone.push(a);
            assert(danger_zone@ =~= old(danger_zone)@ + zone(a, *king_loc, pieces.types@[*index as int]));
        },
        _ => {
            let ghost t = pieces.types@[*index as int];
            let ghost z = zone(a, *king_loc, t);
            let ghost start = danger_zone@;
            let dx: i64 = king_loc.x as i64 - a.x as i64;
            let dy: i64 = king_loc.y as i64 - a.y as i64;
            let sx: i64 = if dx > 0 {
                1
            } else if dx < 0 {
                -1
            } else {
                0
            };
            let sy: i64 = if dy > 0 {
                1
            } else if dy < 0 {
                -1
            } else {
                0
            };
            let ax: i64 = if dx < 0 {
                -dx
            } else {
                dx
            };
            let ay: i64 = if dy < 0 {
                -dy
            } else {
                dy
            };
            let n: i64 = if ax < ay {
                ay
            } else {
                ax
            };
            let mut x: i64 = a.x as i64;
            let mut y: i64 = a.y as i64;
            let mut m: i64 = 0;
            while m < n
                invariant
                    is_line_piece(t),
                    z == zone(a, *king_loc, t),
                    aligned(a, *king_loc),
                    on_board(a.x as int, a.y as int),
                    on_board(king_loc.x as int, king_loc.y as int),
                    dx == king_loc.x - a.x,
                    dy == king_loc.y - a.y,
                    sx == sign(dx as int),
                    sy == sign(dy as int),
                    n == zone_len(a, *king_loc),
                    0 <= m <= n,
                    x == step(a.x as int, sx as int, m as int),
                    y == step(a.y as int, sy as int, m as int),
                    danger_zone@ == start + z.take(m as int),
                decreases n - m,
            {
                assert(0 <= x < 8 && 0 <= y < 8);
                danger_zone.push(Point { x: x as u32, y: y as u32 });
                assert(danger_zone@ =~= start + z.take(m + 1));
                x = x + sx;
                y = y + sy;
                m = m + 1;
            }
            assert(z.take(m as int) =~= z);
        },
    }
}

} // verus!
