use vstd::prelude::*;

use crate::pieces::{
    contains_point, filtered, forward, lemma_filter_done, lemma_filter_start, lemma_filter_step,
    move_outcome, on_board, start_color, start_point,
    start_type, Pieces, PieceColor, Point, Type,
};
use crate::rays::lemma_line_capture_aligned;
use crate::squares::Squares;
use crate::state::{
    attackers, attacks, get_danger_zone, has_king, is_king_endangered, is_king_of, is_line_piece,
    last_prey, lemma_king_index, zone, State,
};

verus! {

/// `p` is the cell of one of the attackers `preds`.
pub open spec fn attacker_cell(pieces: &Pieces, preds: Seq<usize>, p: Point) -> bool {
    exists|k: int| 0 <= k < preds.len() && #[trigger] pieces.locations@[preds[k] as int] == p
}

/// A quiet move of the piece in slot `i` that answers a check on the king in slot `prey`: for
/// the king, a cell outside the danger zone; for any other piece, a cell of the zone other than
/// the king's, and only when a single piece gives check.
pub open spec fn check_quiet(
    pieces: &Pieces,
    i: int,
    preds: Seq<usize>,
    prey: int,
    zone: Seq<Point>,
    p: Point,
) -> bool {
    &&& pieces.quiet_dest(i, p)
    &&& if i == prey {
        !zone.contains(p)
    } else {
        preds.len() == 1 && zone.contains(p) && p != pieces.locations@[prey]
    }
}

/// A capture that answers a check: taking an attacker, by the king, or by any piece when a
/// single piece gives check.
pub open spec fn check_capture(pieces: &Pieces, i: int, preds: Seq<usize>, prey: int, p: Point) -> bool {
    &&& pieces.capture_dest(i, p)
    &&& attacker_cell(pieces, preds, p)
    &&& i == prey || preds.len() == 1
}

/// The slots below `n` whose piece attacks the piece in slot `k`, in increasing order.
pub open spec fn king_attackers(pieces: &Pieces, k: int, n: int) -> Seq<usize>
    decreases n,
{
    if n <= 0 {
        seq![]
    } else if attacks(pieces, n - 1, k) {
        king_attackers(pieces, k, n - 1).push((n - 1) as usize)
    } else {
        king_attackers(pieces, k, n - 1)
    }
}

/// The danger zones of the attackers `preds` against the king on `k`, one after another.
pub open spec fn zones(pieces: &Pieces, preds: Seq<usize>, k: Point) -> Seq<Point>
    decreases preds.len(),
{
    if preds.len() == 0 {
        seq![]
    } else {
        let a = preds.last() as int;
        zones(pieces, preds.drop_last(), k) + zone(pieces.locations@[a], k, pieces.types@[a])
    }
}

/// Whether `p` is the cell of one of the attackers `preds`.
pub fn is_attacker_cell(pieces: &Pieces, preds: &Vec<usize>, p: &Point) -> (r: bool)
    requires
        forall|k: int| 0 <= k < preds@.len() ==> #[trigger] preds@[k] < pieces.count(),
    ensures
        r == attacker_cell(pieces, preds@, *p),
{
    let mut k: usize = 0;
    while k < preds.len()
        invariant
            forall|k: int| 0 <= k < preds@.len() ==> #[trigger] preds@[k] < pieces.count(),
            0 <= k <= preds@.len(),
            forall|j: int| 0 <= j < k ==> #[trigger] pieces.locations@[preds@[j] as int] != *p,
        decreases preds@.len() - k,
    {
        if pieces.locations[preds[k]] == *p {
            assert(pieces.locations@[preds@[k as int] as int] == *p);
            return true;
        }
        k += 1;
    }
    false
}

/// The moves that the piece in slot `i` may make while the king in slot `prey` is in check from
/// the pieces in slots `preds`, whose danger zone is `zone`: its quiet moves and its captures.
pub fn check_moves(
    pieces: &Pieces,
    squares: &Squares,
    i: usize,
    preds: &Vec<usize>,
    prey: usize,
    zone: &Vec<Point>,
) -> (r: (Vec<Point>, Vec<Point>))
    requires
        pieces.wf(),
        i < pieces.count(),
        prey < pieces.count(),
        forall|k: int| 0 <= k < preds@.len() ==> #[trigger] preds@[k] < pieces.count(),
    ensures
        forall|p: Point|
            #[trigger] r.0@.contains(p) <==> check_quiet(
                pieces,
                i as int,
                preds@,
                prey as int,
                zone@,
                p,
            ),
        forall|p: Point|
            #[trigger] r.1@.contains(p) <==> check_capture(pieces, i as int, preds@, prey as int, p),
        r.0@.no_duplicates(),
        r.1@.no_duplicates(),
{
    let (quiet, kills) = pieces.possible_moves(squares, i);
    let king_cell = pieces.locations[prey];
    let mut moves: Vec<Point> = Vec::new();
    let mut captures: Vec<Point> = Vec::new();
    if i != prey && preds.len() != 1 {
        return (moves, captures);
    }
    let is_prey = i == prey;
    let ghost keep_move = |p: Point|
        if is_prey {
            !zone@.contains(p)
        } else {
            zone@.contains(p) && p != king_cell
        };
    proof {
        lemma_filter_start(quiet@, keep_move);
    }
    let mut k: usize = 0;
    while k < quiet.len()
        invariant
            0 <= k <= quiet@.len(),
            quiet@.no_duplicates(),
            forall|p: Point| #[trigger]
                keep_move(p) == if is_prey {
                    !zone@.contains(p)
                } else {
                    zone@.contains(p) && p != king_cell
                },
            filtered(quiet@, k as int, keep_move, moves@),
        decreases quiet@.len() - k,
    {
        let p = quiet[k];
        let ghost m0 = moves@;
        let in_zone = contains_point(zone, &p);
        let keep = if is_prey {
            !in_zone
        } else {
            in_zone && p != king_cell
        };
        if keep {
            moves.push(p);
        }
        proof {
            assert(keep_move(quiet@[k as int]) == keep);
            lemma_filter_step(quiet@, k as int, keep_move, m0, moves@);
        }
        k += 1;
    }
    let ghost keep_capture = |p: Point| attacker_cell(pieces, preds@, p);
    proof {
        lemma_filter_done(quiet@, keep_move, moves@);
        lemma_filter_start(kills@, keep_capture);
    }
    let mut k: usize = 0;
    while k < kills.len()
        invariant
            0 <= k <= kills@.len(),
            kills@.no_duplicates(),
            forall|k: int| 0 <= k < preds@.len() ==> #[trigger] preds@[k] < pieces.count(),
            forall|p: Point| #[trigger] keep_capture(p) == attacker_cell(pieces, preds@, p),
            filtered(kills@, k as int, keep_capture, captures@),
        decreases kills@.len() - k,
    {
        let p = kills[k];
        let ghost c0 = captures@;
        let keep = is_attacker_cell(pieces, preds, &p);
        if keep {
            captures.push(p);
        }
        proof {
            assert(keep_capture(kills@[k as int]) == keep);
            lemma_filter_step(kills@, k as int, keep_capture, c0, captures@);
        }
        k += 1;
    }
    proof {
        lemma_filter_done(kills@, keep_capture, captures@);
    }
    (moves, captures)
}

/// Against two or more attackers no piece but the endangered king has a move that answers the
/// check.
pub proof fn lemma_double_check_king_only(
    pieces: &Pieces,
    i: int,
    preds: Seq<usize>,
    prey: int,
    zone: Seq<Point>,
    p: Point,
)
    requires
        preds.len() >= 2,
        i != prey,
    ensures
        !check_quiet(pieces, i, preds, prey, zone, p),
        !check_capture(pieces, i, preds, prey, p),
{
}

/// Everything a turn carries between clicks: the pieces, the phase, the selection with its
/// pending quiet moves and captures, and while in check the attackers, the endangered king and
/// the danger zone.
pub struct Game {
    pub pieces: Pieces,
    pub state: State,
    pub selected: Option<Point>,
    pub moves: Vec<Point>,
    pub kills: Vec<Point>,
    pub predators: Vec<usize>,
    pub prey: usize,
    pub danger_zone: Vec<Point>,
}

/// The phase after a move: `Paused` when a king is gone or a king is among the attackers (the
/// board is corrupt), `Check` with the attackers of the endangered king and their danger zone
/// when a king is attacked, `Play` otherwise.
pub open spec fn settled(g: &Game) -> bool {
    let p = &g.pieces;
    if !(has_king(p, PieceColor::Black) && has_king(p, PieceColor::White)) {
        g.state == State::Paused
    } else if attackers(p, p.count()).len() == 0 {
        &&& g.state == State::Play
        &&& g.predators@.len() == 0
        &&& g.danger_zone@.len() == 0
    } else {
        let prey = last_prey(p, p.count());
        &&& g.prey == prey
        &&& g.predators@ == king_attackers(p, prey, p.count())
        &&& if exists|k: int|
            0 <= k < g.predators@.len() && #[trigger] p.types@[g.predators@[k] as int] == Type::King {
            g.state == State::Paused
        } else {
            &&& g.state == State::Check
            &&& g.danger_zone@ == zones(p, g.predators@, p.locations@[prey])
        }
    }
}

/// Whether the pieces hold a king of color `c`.
pub fn king_present(pieces: &Pieces, c: PieceColor) -> (r: bool)
    requires
        pieces.wf(),
    ensures
        r == has_king(pieces, c),
{
    let mut i: usize = 0;
    while i < pieces.types.len()
        invariant
            pieces.wf(),
            0 <= i <= pieces.count(),
            forall|j: int| 0 <= j < i ==> !#[trigger] is_king_of(pieces, j, c),
        decreases pieces.count() - i,
    {
        if pieces.types[i] == Type::King && pieces.colors[i] == c {
            assert(is_king_of(pieces, i as int, c));
            return true;
        }
        i += 1;
    }
    false
}

/// The slots of the pieces that attack the piece in slot `k`, in increasing order.
pub fn collect_attackers(pieces: &Pieces, squares: &Squares, k: usize) -> (r: Vec<usize>)
    requires
        pieces.wf(),
        k < pieces.count(),
    ensures
        r@ == king_attackers(pieces, k as int, pieces.count()),
        forall|j: int|
            0 <= j < r@.len() ==> #[trigger] r@[j] < pieces.count() && attacks(pieces, r@[j] as int, k as int),
{
    let target = pieces.locations[k];
    let mut found: Vec<usize> = Vec::new();
    let mut index: usize = 0;
    while index < pieces.locations.len()
        invariant
            pieces.wf(),
            k < pieces.count(),
            target == pieces.locations@[k as int],
            0 <= index <= pieces.count(),
            found@ == king_attackers(pieces, k as int, index as int),
            forall|j: int|
                0 <= j < found@.len() ==> #[trigger] found@[j] < pieces.count() && attacks(
                    pieces,
                    found@[j] as int,
                    k as int,
                ),
        decreases pieces.count() - index,
    {
        let (_, kills) = pieces.possible_moves(squares, index);
        if contains_point(&kills, &target) {
            found.push(index);
        }
        index += 1;
    }
    found
}

/// After a move that leaves a king attacked, the recorded king is one of the two kings.
pub proof fn lemma_last_prey_king(pieces: &Pieces, n: int)
    requires
        pieces.wf(),
        has_king(pieces, PieceColor::Black),
        has_king(pieces, PieceColor::White),
        attackers(pieces, n).len() > 0,
    ensures
        0 <= last_prey(pieces, n) < pieces.count(),
    decreases n,
{
    let kb = choose|i: int| 0 <= i < pieces.count() && #[trigger] is_king_of(pieces, i, PieceColor::Black);
    let kw = choose|i: int| 0 <= i < pieces.count() && #[trigger] is_king_of(pieces, i, PieceColor::White);
    lemma_king_index(pieces, PieceColor::Black, kb);
    lemma_king_index(pieces, PieceColor::White, kw);
    if n > 0 && !crate::state::attacks_a_king(pieces, n - 1) {
        lemma_last_prey_king(pieces, n - 1);
    }
}

/// The piece in slot `j` threatens the empty cell `q`: a pawn on the cells it captures on, any
/// other piece on its quiet moves.
pub open spec fn threatens(pieces: &Pieces, j: int, q: Point) -> bool {
    let a = pieces.locations@[j];
    if pieces.types@[j] == Type::Pawn {
        &&& q.x == a.x - 1 || q.x == a.x + 1
        &&& q.y == a.y + forward(pieces.colors@[j])
    } else {
        pieces.quiet_dest(j, q)
    }
}

/// Some piece of the other color than `c` threatens `q`.
pub open spec fn guarded(pieces: &Pieces, c: PieceColor, q: Point) -> bool {
    exists|j: int| 0 <= j < pieces.count() && pieces.colors@[j] != c && #[trigger] threatens(pieces, j, q)
}

/// A quiet move offered in play: any quiet move, except that a king does not step onto a cell
/// that the other side threatens.
pub open spec fn play_quiet(pieces: &Pieces, i: int, q: Point) -> bool {
    &&& pieces.quiet_dest(i, q)
    &&& pieces.types@[i] == Type::King ==> !guarded(pieces, pieces.colors@[i], q)
}

/// Whether a piece of the other color than `c` threatens `q`.
pub fn is_guarded(pieces: &Pieces, squares: &Squares, c: PieceColor, q: &Point) -> (r: bool)
    requires
        pieces.wf(),
    ensures
        r == guarded(pieces, c, *q),
{
    let mut j: usize = 0;
    while j < pieces.locations.len()
        invariant
            pieces.wf(),
            0 <= j <= pieces.count(),
            forall|k: int| 0 <= k < j ==> !(pieces.colors@[k] != c && #[trigger] threatens(pieces, k, *q)),
        decreases pieces.count() - j,
    {
        if pieces.colors[j] != c {
            let a = pieces.locations[j];
            let hit = if pieces.types[j] == Type::Pawn {
                let f: i64 = match pieces.colors[j] {
                    PieceColor::White => 1,
                    PieceColor::Black => -1,
                };
                (q.x as i64 == a.x as i64 - 1 || q.x as i64 == a.x as i64 + 1) && q.y as i64 == a.y as i64 + f
            } else {
                let (quiet, _) = pieces.possible_moves(squares, j);
                contains_point(&quiet, q)
            };
            if hit {
                assert(threatens(pieces, j as int, *q));
                return true;
            }
        }
        j += 1;
    }
    false
}

/// The quiet moves of the piece in slot `i` that `play_quiet` admits.
pub fn play_moves(pieces: &Pieces, squares: &Squares, i: usize) -> (r: (Vec<Point>, Vec<Point>))
    requires
        pieces.wf(),
        i < pieces.count(),
    ensures
        forall|q: Point| #[trigger] r.0@.contains(q) <==> play_quiet(pieces, i as int, q),
        forall|q: Point| #[trigger] r.1@.contains(q) <==> pieces.capture_dest(i as int, q),
        r.0@.no_duplicates(),
        r.1@.no_duplicates(),
{
    let (quiet, kills) = pieces.possible_moves(squares, i);
    if pieces.types[i] != Type::King {
        return (quiet, kills);
    }
    let c = pieces.colors[i];
    let ghost keep = |q: Point| !guarded(pieces, c, q);
    let mut safe: Vec<Point> = Vec::new();
    proof {
        lemma_filter_start(quiet@, keep);
    }
    let mut k: usize = 0;
    while k < quiet.len()
        invariant
            pieces.wf(),
            0 <= k <= quiet@.len(),
            quiet@.no_duplicates(),
            forall|q: Point| #[trigger] keep(q) == !guarded(pieces, c, q),
            filtered(quiet@, k as int, keep, safe@),
        decreases quiet@.len() - k,
    {
        let q = quiet[k];
        let ghost s0 = safe@;
        let threatened = is_guarded(pieces, squares, c, &q);
        if !threatened {
            safe.push(q);
        }
        proof {
            assert(keep(quiet@[k as int]) == !threatened);
            lemma_filter_step(quiet@, k as int, keep, s0, safe@);
        }
        k += 1;
    }
    proof {
        lemma_filter_done(quiet@, keep, safe@);
    }
    (safe, kills)
}

/// A selection made by a first click on `cell`: any piece in play, only a piece of the
/// endangered king's color in check.
pub open spec fn selectable(g: &Game, cell: Point) -> bool {
    let p = &g.pieces;
    &&& p.occupied(cell.x as int, cell.y as int)
    &&& g.state == State::Play || (g.state == State::Check && p.colors@[p.index_at(
        cell.x as int,
        cell.y as int,
    )] == p.colors@[g.prey as int])
}

impl Game {
    pub open spec fn inv(&self) -> bool {
        let p = &self.pieces;
        &&& p.wf()
        &&& self.state == State::Check ==> {
            &&& self.prey < p.count()
            &&& forall|k: int| 0 <= k < self.predators@.len() ==> #[trigger] self.predators@[k] < p.count()
        }
        &&& match self.selected {
            None => self.moves@.len() == 0 && self.kills@.len() == 0,
            Some(c) => {
                let i = p.index_at(c.x as int, c.y as int);
                &&& p.occupied(c.x as int, c.y as int)
                &&& forall|q: Point| #[trigger]
                    self.moves@.contains(q) ==> on_board(q.x as int, q.y as int) && !p.occupied(
                        q.x as int,
                        q.y as int,
                    )
                &&& forall|q: Point| #[trigger]
                    self.kills@.contains(q) ==> p.occupied(q.x as int, q.y as int)
                &&& if self.state == State::Check {
                    &&& forall|q: Point| #[trigger]
                        self.moves@.contains(q) <==> check_quiet(
                            p,
                            i,
                            self.predators@,
                            self.prey as int,
                            self.danger_zone@,
                            q,
                        )
                    &&& forall|q: Point| #[trigger]
                        self.kills@.contains(q) <==> check_capture(
                            p,
                            i,
                            self.predators@,
                            self.prey as int,
                            q,
                        )
                } else {
                    &&& forall|q: Point| #[trigger] self.moves@.contains(q) <==> play_quiet(p, i, q)
                    &&& forall|q: Point| #[trigger] self.kills@.contains(q) <==> p.capture_dest(i, q)
                }
            },
        }
    }

    /// A game at the starting position, White and Black to play, nothing selected.
    pub fn new() -> (g: Game)
        ensures
            g.inv(),
            g.state == State::Play,
            g.selected is None,
            g.pieces.locations@ == Seq::new(32, |k: int| start_point(k)),
            g.pieces.colors@ == Seq::new(32, |k: int| start_color(k)),
            g.pieces.types@ == Seq::new(32, |k: int| start_type(k)),
            g.pieces.first_move@ == Seq::new(32, |k: int| true),
    {
        let empty = Pieces {
            locations: Vec::new(),
            colors: Vec::new(),
            types: Vec::new(),
            first_move: Vec::new(),
        };
        let pieces = match empty.create() {
            Ok(p) => p,
            Err(_) => Pieces {
                locations: Vec::new(),
                colors: Vec::new(),
                types: Vec::new(),
                first_move: Vec::new(),
            },
        };
        proof {
            assert(pieces.locations@ =~= Seq::new(32, |k: int| start_point(k)));
            assert(pieces.colors@ =~= Seq::new(32, |k: int| start_color(k)));
            assert(pieces.types@ =~= Seq::new(32, |k: int| start_type(k)));
            assert(pieces.first_move@ =~= Seq::new(32, |k: int| true));
            assert forall|a: int, b: int|
                0 <= a < pieces.count() && 0 <= b < pieces.count() && a != b implies #[trigger] pieces.locations@[a]
                    != #[trigger] pieces.locations@[b] by {
                assert(start_point(a) != start_point(b));
            }
        }
        Game {
            pieces,
            state: State::Play,
            selected: None,
            moves: Vec::new(),
            kills: Vec::new(),
            predators: Vec::new(),
            prey: usize::MAX,
            danger_zone: Vec::new(),
        }
    }

    /// Records the phase that follows a committed move; see `settled`.
    #[verifier::rlimit(40)]
    fn settle(&mut self, squares: &Squares)
        requires
            old(self).pieces.wf(),
            old(self).selected is None,
            old(self).moves@.len() == 0,
            old(self).kills@.len() == 0,
        ensures
            final(self).pieces == old(self).pieces,
            final(self).selected is None,
            final(self).inv(),
            settled(final(self)),
    {
        if !king_present(&self.pieces, PieceColor::Black) || !king_present(
            &self.pieces,
            PieceColor::White,
        ) {
            self.state = State::Paused;
            return ;
        }
        let mut preds: Vec<usize> = Vec::new();
        let (found, prey) = is_king_endangered(squares, &mut self.pieces, &mut preds);
        if !found {
            self.state = State::Play;
            self.predators = Vec::new();
            self.danger_zone = Vec::new();
            return ;
        }
        proof {
            lemma_last_prey_king(&self.pieces, self.pieces.count());
        }
        let attackers_of = collect_attackers(&self.pieces, squares, prey);
        let king_loc = self.pieces.locations[prey];
        let ghost p = self.pieces;
        let mut zone_cells: Vec<Point> = Vec::new();
        let mut k: usize = 0;
        while k < attackers_of.len()
            invariant
                self.pieces == p,
                p == old(self).pieces,
                has_king(&p, PieceColor::Black),
                has_king(&p, PieceColor::White),
                attackers(&p, p.count()).len() > 0,
                prey == last_prey(&p, p.count()),
                attackers_of@ == king_attackers(&p, prey as int, p.count()),
                self.selected is None,
                self.moves@.len() == 0,
                self.kills@.len() == 0,
                p.wf(),
                prey < p.count(),
                king_loc == p.locations@[prey as int],
                forall|j: int|
                    0 <= j < attackers_of@.len() ==> #[trigger] attackers_of@[j] < p.count() && attacks(
                        &p,
                        attackers_of@[j] as int,
                        prey as int,
                    ),
                0 <= k <= attackers_of@.len(),
                zone_cells@ == zones(&p, attackers_of@.take(k as int), king_loc),
                forall|j: int| 0 <= j < k ==> #[trigger] p.types@[attackers_of@[j] as int] != Type::King,
            decreases attackers_of@.len() - k,
        {
            let a = attackers_of[k];
            if self.pieces.types[a] == Type::King {
                self.state = State::Paused;
                self.prey = prey;
                self.predators = attackers_of;
                self.danger_zone = Vec::new();
                assert(self.pieces.types@[self.predators@[k as int] as int] == Type::King);
                return ;
            }
            proof {
                assert(attacks(&p, a as int, prey as int));
                assert(on_board(king_loc.x as int, king_loc.y as int));
                if is_line_piece(p.types@[a as int]) {
                    lemma_line_capture_aligned(&p, a as int, king_loc);
                }
            }
            get_danger_zone(&self.pieces, &mut zone_cells, &king_loc, &a);
            proof {
                assert(attackers_of@.take(k + 1).drop_last() =~= attackers_of@.take(k as int));
                assert(attackers_of@.take(k + 1).last() == a);
            }
            k += 1;
        }
        proof {
            assert(attackers_of@.take(k as int) =~= attackers_of@);
        }
        self.state = State::Check;
        self.prey = prey;
        self.predators = attackers_of;
        self.danger_zone = zone_cells;
    }

    /// One click on `cell`. With nothing selected, selects the piece there if it may move (see
    /// `selectable`) and computes its moves: in play all its moves, but for a king none onto a
    /// threatened cell (see `play_quiet`); in check only those that answer the check. With a piece selected, commits it to `cell` when that is one of the pending
    /// moves, then settles the phase; the selection is cleared either way. Returns whether a
    /// piece moved.
    pub fn click(&mut self, squares: &Squares, cell: Point) -> (r: bool)
        requires
            old(self).inv(),
        ensures
            final(self).inv(),
            match old(self).selected {
                None => {
                    &&& !r
                    &&& final(self).pieces == old(self).pieces
                    &&& final(self).state == old(self).state
                    &&& final(self).predators@ == old(self).predators@
                    &&& final(self).prey == old(self).prey
                    &&& final(self).danger_zone@ == old(self).danger_zone@
                    &&& final(self).selected == if selectable(old(self), cell) {
                        Some(cell)
                    } else {
                        None
                    }
                },
                Some(from) => {
                    &&& r == (cell != from && (old(self).moves@.contains(cell)
                        || old(self).kills@.contains(cell)))
                    &&& move_outcome(
                        &old(self).pieces,
                        &final(self).pieces,
                        old(self).moves@,
                        old(self).kills@,
                        from,
                        cell,
                    )
                    &&& final(self).selected is None
                    &&& r ==> settled(final(self))
                    &&& !r ==> {
                        &&& final(self).state == old(self).state
                        &&& final(self).predators@ == old(self).predators@
                        &&& final(self).prey == old(self).prey
                        &&& final(self).danger_zone@ == old(self).danger_zone@
                    }
                },
            },
    {
        match self.selected {
            None => {
                let found = self.pieces.check_by_point(cell.y, cell.x);
                if let Some(i) = found {
                    proof {
                        self.pieces.lemma_unique_at(i as int, cell.x as int, cell.y as int);
                    }
                    match self.state {
                        State::Play => {
                            let (m, k) = play_moves(&self.pieces, squares, i);
                            proof {
                                assert forall|q: Point| #[trigger] m@.contains(q) implies on_board(
                                    q.x as int,
                                    q.y as int,
                                ) && !self.pieces.occupied(q.x as int, q.y as int) by {
                                    self.pieces.lemma_dest_sound(i as int, q);
                                }
                                assert forall|q: Point| #[trigger] k@.contains(q) implies self.pieces.occupied(
                                    q.x as int,
                                    q.y as int,
                                ) by {
                                    self.pieces.lemma_dest_sound(i as int, q);
                                }
                            }
                            self.moves = m;
                            self.kills = k;
                            self.selected = Some(cell);
                        },
                        State::Check => {
                            if self.pieces.colors[i] == self.pieces.colors[self.prey] {
                                let (m, k) = check_moves(
                                    &self.pieces,
                                    squares,
                                    i,
                                    &self.predators,
                                    self.prey,
                                    &self.danger_zone,
                                );
                                proof {
                                    assert forall|q: Point| #[trigger] m@.contains(q) implies on_board(
                                        q.x as int,
                                        q.y as int,
                                    ) && !self.pieces.occupied(q.x as int, q.y as int) by {
                                        self.pieces.lemma_dest_sound(i as int, q);
                                    }
                                    assert forall|q: Point| #[trigger] k@.contains(q) implies self.pieces.occupied(
                                        q.x as int,
                                        q.y as int,
                                    ) by {
                                        self.pieces.lemma_dest_sound(i as int, q);
                                    }
                                }
                                self.moves = m;
                                self.kills = k;
                                self.selected = Some(cell);
                            }
                        },
                        State::Paused => {},
                    }
                }
                false
            },
            Some(from) => {
                let moved = match self.pieces.move_piece(&self.moves, &self.kills, &from, &cell) {
                    Ok(b) => b,
                    Err(_) => false,
                };
                self.selected = None;
                self.moves = Vec::new();
                self.kills = Vec::new();
                if moved {
                    self.settle(squares);
                }
                moved
            },
        }
    }
}

/// In check from two or more pieces, a selected piece other than the endangered king has no
/// pending move, so committing it changes nothing.
pub proof fn lemma_double_check_no_move(g: &Game)
    requires
        g.inv(),
        g.state == State::Check,
        g.predators@.len() >= 2,
        g.selected matches Some(c) && g.pieces.index_at(c.x as int, c.y as int) != g.prey,
    ensures
        g.moves@.len() == 0,
        g.kills@.len() == 0,
{
    let c = g.selected->Some_0;
    let i = g.pieces.index_at(c.x as int, c.y as int);
    if g.moves@.len() > 0 {
        assert(g.moves@.contains(g.moves@[0]));
        lemma_double_check_king_only(&g.pieces, i, g.predators@, g.prey as int, g.danger_zone@, g.moves@[0]);
    }
    if g.kills@.len() > 0 {
        assert(g.kills@.contains(g.kills@[0]));
        lemma_double_check_king_only(&g.pieces, i, g.predators@, g.prey as int, g.danger_zone@, g.kills@[0]);
    }
}

} // verus!
