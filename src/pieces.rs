use vstd::prelude::*;

use crate::rays::{direction, lemma_rays_disjoint};
use crate::squares::Squares;

verus! {

/// A board cell: `x` is the file and `y` the rank, both in `0..8`.
#[derive(Debug, Clone, Copy, PartialEq, Eq, Structural)]
pub struct Point {
    pub x: u32,
    pub y: u32,
}

#[derive(Debug, Clone, Copy, PartialEq, Eq, Structural)]
pub enum PieceColor {
    Black,
    White,
}

#[derive(Debug, Clone, Copy, PartialEq, Eq, Structural)]
pub enum Type {
    Pawn,
    Rook,
    Bishop,
    Queen,
    Knight,
    King,
}

/// The live pieces, one slot per piece across the four parallel vectors.
pub struct Pieces {
    pub locations: Vec<Point>,
    pub colors: Vec<PieceColor>,
    pub types: Vec<Type>,
    pub first_move: Vec<bool>,
}

pub open spec fn on_board(x: int, y: int) -> bool {
    0 <= x < 8 && 0 <= y < 8
}

pub open spec fn is_cell(p: Point, x: int, y: int) -> bool {
    p.x == x && p.y == y
}

/// The coordinate reached after `k` steps of `d` (with `d` in `-1..=1`) from `x`.
pub open spec fn step(x: int, d: int, k: int) -> int {
    if d == 0 {
        x
    } else if d > 0 {
        x + k
    } else {
        x - k
    }
}

pub open spec fn unit(d: int) -> bool {
    -1 <= d <= 1
}

/// White advances towards higher ranks, Black towards lower ones.
pub open spec fn forward(c: PieceColor) -> int {
    match c {
        PieceColor::White => 1,
        PieceColor::Black => -1,
    }
}

pub open spec fn abs(a: int) -> int {
    if a < 0 {
        -a
    } else {
        a
    }
}

pub open spec fn knight_offset(dx: int, dy: int) -> bool {
    (abs(dx) == 1 && abs(dy) == 2) || (abs(dx) == 2 && abs(dy) == 1)
}

pub open spec fn king_offset(dx: int, dy: int) -> bool {
    abs(dx) <= 1 && abs(dy) <= 1 && !(dx == 0 && dy == 0)
}

/// The back-rank piece on file `j`.
pub open spec fn back_rank(j: int) -> Type {
    if j == 0 || j == 7 {
        Type::Rook
    } else if j == 1 || j == 6 {
        Type::Knight
    } else if j == 2 || j == 5 {
        Type::Bishop
    } else if j == 3 {
        Type::King
    } else {
        Type::Queen
    }
}

/// Slot `k` of the starting position: White's back rank and pawns, then Black's pawns and back
/// rank, each rank from file 0 to file 7.
pub open spec fn start_point(k: int) -> Point {
    let row = k / 8;
    Point {
        x: (k % 8) as u32,
        y: if row == 0 {
            0
        } else if row == 1 {
            1
        } else if row == 2 {
            6
        } else {
            7
        },
    }
}

pub open spec fn start_color(k: int) -> PieceColor {
    if k < 16 {
        PieceColor::White
    } else {
        PieceColor::Black
    }
}

pub open spec fn start_type(k: int) -> Type {
    let row = k / 8;
    if row == 0 || row == 3 {
        back_rank(k % 8)
    } else {
        Type::Pawn
    }
}

/// Whether `v` holds `p`.
pub fn contains_point(v: &Vec<Point>, p: &Point) -> (r: bool)
    ensures
        r == v@.contains(*p),
{
    let mut i: usize = 0;
    while i < v.len()
        invariant
            0 <= i <= v@.len(),
            forall|j: int| 0 <= j < i ==> v@[j] != *p,
        decreases v@.len() - i,
    {
        if v[i] == *p {
            assert(v@[i as int] == *p);
            return true;
        }
        i += 1;
    }
    false
}

/// `new` is `old` with the piece in slot `i` moved to the empty cell `p`.
pub open spec fn quiet_result(old: &Pieces, new: &Pieces, i: int, p: Point) -> bool {
    &&& new.locations@ == old.locations@.update(i, p)
    &&& new.first_move@ == old.first_move@.update(i, false)
    &&& new.colors@ == old.colors@
    &&& new.types@ == old.types@
}

/// `new` is `old` with the piece in slot `d` removed and the piece in slot `i` moved to its cell
/// `p`; slots after `d` shift down by one.
pub open spec fn capture_result(old: &Pieces, new: &Pieces, i: int, d: int, p: Point) -> bool {
    let j = if i < d {
        i
    } else {
        i - 1
    };
    &&& new.locations@ == old.locations@.remove(d).update(j, p)
    &&& new.first_move@ == old.first_move@.remove(d).update(j, false)
    &&& new.colors@ == old.colors@.remove(d)
    &&& new.types@ == old.types@.remove(d)
}

pub open spec fn unchanged(old: &Pieces, new: &Pieces) -> bool {
    &&& new.locations@ == old.locations@
    &&& new.first_move@ == old.first_move@
    &&& new.colors@ == old.colors@
    &&& new.types@ == old.types@
}

/// What committing `from -> to` against the quiet moves `moves` and the captures `kills` makes of
/// `old`: nothing when `to == from` or `to` is in neither set, a quiet move when `to` is in
/// `moves`, and otherwise a capture.
pub open spec fn move_outcome(
    old: &Pieces,
    new: &Pieces,
    moves: Seq<Point>,
    kills: Seq<Point>,
    from: Point,
    to: Point,
) -> bool {
    let i = old.index_at(from.x as int, from.y as int);
    let d = old.index_at(to.x as int, to.y as int);
    if to == from || !(moves.contains(to) || kills.contains(to)) {
        unchanged(old, new)
    } else if moves.contains(to) {
        quiet_result(old, new, i, to)
    } else {
        capture_result(old, new, i, d, to)
    }
}

impl Pieces {
    pub open spec fn count(&self) -> int {
        self.locations@.len() as int
    }

    pub open spec fn at(&self, i: int, x: int, y: int) -> bool {
        is_cell(self.locations@[i], x, y)
    }

    /// Same length in all four vectors, every piece on the board, no two on one cell.
    pub open spec fn wf(&self) -> bool {
        &&& self.colors@.len() == self.count()
        &&& self.types@.len() == self.count()
        &&& self.first_move@.len() == self.count()
        &&& forall|i: int|
            0 <= i < self.count() ==> on_board(
                #[trigger] self.locations@[i].x as int,
                self.locations@[i].y as int,
            )
        &&& forall|i: int, j: int|
            0 <= i < self.count() && 0 <= j < self.count() && i != j ==> #[trigger] self.locations@[i]
                != #[trigger] self.locations@[j]
    }

    pub open spec fn occupied(&self, x: int, y: int) -> bool {
        exists|i: int| 0 <= i < self.count() && #[trigger] self.at(i, x, y)
    }

    pub open spec fn enemy_at(&self, c: PieceColor, x: int, y: int) -> bool {
        exists|i: int| 0 <= i < self.count() && #[trigger] self.at(i, x, y) && self.colors@[i] != c
    }

    pub open spec fn friend_at(&self, c: PieceColor, x: int, y: int) -> bool {
        exists|i: int| 0 <= i < self.count() && #[trigger] self.at(i, x, y) && self.colors@[i] == c
    }

    /// The slot of the piece on cell `(x, y)`.
    pub open spec fn index_at(&self, x: int, y: int) -> int {
        choose|i: int| 0 <= i < self.count() && #[trigger] self.at(i, x, y)
    }

    /// Empty cells reached walking from `(x, y)` in direction `(dx, dy)`, at most `n` steps.
    pub open spec fn ray_quiet(&self, x: int, y: int, dx: int, dy: int, n: nat, p: Point) -> bool
        decreases n,
    {
        if n == 0 {
            false
        } else if !on_board(x + dx, y + dy) || self.occupied(x + dx, y + dy) {
            false
        } else {
            is_cell(p, x + dx, y + dy) || self.ray_quiet(x + dx, y + dy, dx, dy, (n - 1) as nat, p)
        }
    }

    /// The enemy piece, if any, that ends the same walk.
    pub open spec fn ray_capture(
        &self,
        c: PieceColor,
        x: int,
        y: int,
        dx: int,
        dy: int,
        n: nat,
        p: Point,
    ) -> bool
        decreases n,
    {
        if n == 0 {
            false
        } else if !on_board(x + dx, y + dy) {
            false
        } else if self.occupied(x + dx, y + dy) {
            is_cell(p, x + dx, y + dy) && self.enemy_at(c, x + dx, y + dy)
        } else {
            self.ray_capture(c, x + dx, y + dy, dx, dy, (n - 1) as nat, p)
        }
    }

    pub open spec fn rook_quiet(&self, x: int, y: int, p: Point) -> bool {
        ||| self.ray_quiet(x, y, 0, -1, 7, p)
        ||| self.ray_quiet(x, y, 0, 1, 7, p)
        ||| self.ray_quiet(x, y, 1, 0, 7, p)
        ||| self.ray_quiet(x, y, -1, 0, 7, p)
    }

    pub open spec fn rook_capture(&self, c: PieceColor, x: int, y: int, p: Point) -> bool {
        ||| self.ray_capture(c, x, y, 0, -1, 7, p)
        ||| self.ray_capture(c, x, y, 0, 1, 7, p)
        ||| self.ray_capture(c, x, y, 1, 0, 7, p)
        ||| self.ray_capture(c, x, y, -1, 0, 7, p)
    }

    pub open spec fn bishop_quiet(&self, x: int, y: int, p: Point) -> bool {
        ||| self.ray_quiet(x, y, -1, -1, 7, p)
        ||| self.ray_quiet(x, y, 1, -1, 7, p)
        ||| self.ray_quiet(x, y, 1, 1, 7, p)
        ||| self.ray_quiet(x, y, -1, 1, 7, p)
    }

    pub open spec fn bishop_capture(&self, c: PieceColor, x: int, y: int, p: Point) -> bool {
        ||| self.ray_capture(c, x, y, -1, -1, 7, p)
        ||| self.ray_capture(c, x, y, 1, -1, 7, p)
        ||| self.ray_capture(c, x, y, 1, 1, 7, p)
        ||| self.ray_capture(c, x, y, -1, 1, 7, p)
    }

    /// An empty cell one knight's jump (or, with `king`, one king's step) away.
    pub open spec fn leap_quiet(&self, king: bool, x: int, y: int, p: Point) -> bool {
        &&& on_board(p.x as int, p.y as int)
        &&& !self.occupied(p.x as int, p.y as int)
        &&& if king {
            king_offset(p.x - x, p.y - y)
        } else {
            knight_offset(p.x - x, p.y - y)
        }
    }

    pub open spec fn leap_capture(&self, c: PieceColor, king: bool, x: int, y: int, p: Point) -> bool {
        &&& on_board(p.x as int, p.y as int)
        &&& self.enemy_at(c, p.x as int, p.y as int)
        &&& if king {
            king_offset(p.x - x, p.y - y)
        } else {
            knight_offset(p.x - x, p.y - y)
        }
    }

    /// One step forward onto an empty cell; two from a pawn's first move when both cells are empty.
    pub open spec fn pawn_quiet(&self, c: PieceColor, first: bool, x: int, y: int, p: Point) -> bool {
        let f = forward(c);
        ||| on_board(x, y + f) && !self.occupied(x, y + f) && is_cell(p, x, y + f)
        ||| first && on_board(x, y + 2 * f) && !self.occupied(x, y + f) && !self.occupied(
            x,
            y + 2 * f,
        ) && is_cell(p, x, y + 2 * f)
    }

    /// One step diagonally forward onto an enemy piece.
    pub open spec fn pawn_capture(&self, c: PieceColor, x: int, y: int, p: Point) -> bool {
        let f = forward(c);
        &&& p.x == x - 1 || p.x == x + 1
        &&& p.y == y + f
        &&& on_board(p.x as int, p.y as int)
        &&& self.enemy_at(c, p.x as int, p.y as int)
    }

    /// `p` is a quiet move of the piece in slot `i`.
    #[verifier::opaque]
    pub open spec fn quiet_dest(&self, i: int, p: Point) -> bool {
        let x = self.locations@[i].x as int;
        let y = self.locations@[i].y as int;
        match self.types@[i] {
            Type::Pawn => self.pawn_quiet(self.colors@[i], self.first_move@[i], x, y, p),
            Type::Rook => self.rook_quiet(x, y, p),
            Type::Bishop => self.bishop_quiet(x, y, p),
            Type::Queen => self.rook_quiet(x, y, p) || self.bishop_quiet(x, y, p),
            Type::Knight => self.leap_quiet(false, x, y, p),
            Type::King => self.leap_quiet(true, x, y, p),
        }
    }

    /// `p` is a capture of the piece in slot `i`.
    #[verifier::opaque]
    pub open spec fn capture_dest(&self, i: int, p: Point) -> bool {
        let x = self.locations@[i].x as int;
        let y = self.locations@[i].y as int;
        let c = self.colors@[i];
        match self.types@[i] {
            Type::Pawn => self.pawn_capture(c, x, y, p),
            Type::Rook => self.rook_capture(c, x, y, p),
            Type::Bishop => self.bishop_capture(c, x, y, p),
            Type::Queen => self.rook_capture(c, x, y, p) || self.bishop_capture(c, x, y, p),
            Type::Knight => self.leap_capture(c, false, x, y, p),
            Type::King => self.leap_capture(c, true, x, y, p),
        }
    }

    /// The slot of the piece on the given cell, if any (the first such slot).
    pub fn check_by_point(&self, point_y: u32, point_x: u32) -> (r: Option<usize>)
        ensures
            match r {
                Some(i) => {
                    &&& i < self.count()
                    &&& self.at(i as int, point_x as int, point_y as int)
                    &&& forall|j: int| 0 <= j < i ==> !#[trigger] self.at(j, point_x as int, point_y as int)
                },
                None => !self.occupied(point_x as int, point_y as int),
            },
    {
        let mut i: usize = 0;
        while i < self.locations.len()
            invariant
                0 <= i <= self.count(),
                forall|j: int| 0 <= j < i ==> !#[trigger] self.at(j, point_x as int, point_y as int),
            decreases self.count() - i,
        {
            let p = self.locations[i];
            if p.x == point_x && p.y == point_y {
                return Some(i);
            }
            i += 1;
        }
        None
    }

    /// Classifies cell `(x, y)` for a piece of `color`: an empty cell is a quiet move, an enemy's
    /// cell a capture. Returns whether the cell is occupied, which ends a ray walk.
    pub fn valid_moves(
        &self,
        color: &PieceColor,
        pos_loc: &mut Vec<Point>,
        pos_kills: &mut Vec<Point>,
        y: u32,
        x: u32,
    ) -> (r: bool)
        requires
            self.wf(),
        ensures
            r == self.occupied(x as int, y as int),
            final(pos_loc)@ == if r {
                old(pos_loc)@
            } else {
                old(pos_loc)@.push(Point { x, y })
            },
            final(pos_kills)@ == if self.enemy_at(*color, x as int, y as int) {
                old(pos_kills)@.push(Point { x, y })
            } else {
                old(pos_kills)@
            },
    {
        match self.check_by_point(y, x) {
            Some(loc) => {
                proof {
                    self.lemma_unique_at(loc as int, x as int, y as int);
                }
                if self.colors[loc] != *color {
                    pos_kills.push(Point { y, x });
                }
                true
            },
            None => {
                pos_loc.push(Point { y, x });
                false
            },
        }
    }

    /// Appends the 32 pieces of the starting position, none of them moved yet.
    pub fn create(self) -> (r: Result<Self, String>)
        ensures
            r matches Ok(p) && {
                &&& p.locations@ == self.locations@ + Seq::new(32, |k: int| start_point(k))
                &&& p.colors@ == self.colors@ + Seq::new(32, |k: int| start_color(k))
                &&& p.types@ == self.types@ + Seq::new(32, |k: int| start_type(k))
                &&& p.first_move@ == self.first_move@ + Seq::new(32, |k: int| true)
            },
    {
        let mut pieces = self;
        let ghost l0 = pieces.locations@;
        let ghost c0 = pieces.colors@;
        let ghost t0 = pieces.types@;
        let ghost f0 = pieces.first_move@;
        let mut k: u32 = 0;
        while k < 32
            invariant
                k <= 32,
                pieces.locations@ == l0 + Seq::new(k as nat, |k: int| start_point(k)),
                pieces.colors@ == c0 + Seq::new(k as nat, |k: int| start_color(k)),
                pieces.types@ == t0 + Seq::new(k as nat, |k: int| start_type(k)),
                pieces.first_move@ == f0 + Seq::new(k as nat, |k: int| true),
            decreases 32 - k,
        {
            let row = k / 8;
            let file = k % 8;
            let rank: u32 = if row == 0 {
                0
            } else if row == 1 {
                1
            } else if row == 2 {
                6
            } else {
                7
            };
            let kind = if row == 1 || row == 2 {
                Type::Pawn
            } else if file == 0 || file == 7 {
                Type::Rook
            } else if file == 1 || file == 6 {
                Type::Knight
            } else if file == 2 || file == 5 {
                Type::Bishop
            } else if file == 3 {
                Type::King
            } else {
                Type::Queen
            };
            let color = if row < 2 {
                PieceColor::White
            } else {
                PieceColor::Black
            };
            pieces.locations.push(Point { x: file, y: rank });
            pieces.colors.push(color);
            pieces.types.push(kind);
            pieces.first_move.push(true);
            assert(pieces.locations@ =~= l0 + Seq::new((k + 1) as nat, |k: int| start_point(k)));
            assert(pieces.colors@ =~= c0 + Seq::new((k + 1) as nat, |k: int| start_color(k)));
            assert(pieces.types@ =~= t0 + Seq::new((k + 1) as nat, |k: int| start_type(k)));
            assert(pieces.first_move@ =~= f0 + Seq::new((k + 1) as nat, |k: int| true));
            k += 1;
        }
        Ok(pieces)
    }

    /// Moves the piece on `current_piece` to `point` when `point` is one of its quiet moves or,
    /// failing that, one of its captures, whose occupant is then removed. Returns whether it moved;
    /// clicking the piece's own cell, or a cell in neither set, changes nothing.
    pub fn move_piece(
        &mut self,
        valid_moves: &Vec<Point>,
        valid_kills: &Vec<Point>,
        current_piece: &Point,
        point: &Point,
    ) -> (r: Result<bool, String>)
        requires
            old(self).wf(),
            old(self).occupied(current_piece.x as int, current_piece.y as int),
            forall|p: Point| #[trigger]
                valid_moves@.contains(p) ==> on_board(p.x as int, p.y as int) && !old(self).occupied(
                    p.x as int,
                    p.y as int,
                ),
            forall|p: Point| #[trigger]
                valid_kills@.contains(p) ==> old(self).occupied(p.x as int, p.y as int),
        ensures
            final(self).wf(),
            r matches Ok(moved) && moved == (*point != *current_piece && (valid_moves@.contains(
                *point,
            ) || valid_kills@.contains(*point))),
            move_outcome(
                old(self),
                final(self),
                valid_moves@,
                valid_kills@,
                *current_piece,
                *point,
            ),
            final(self).count() == old(self).count() - if *point != *current_piece
                && !valid_moves@.contains(*point) && valid_kills@.contains(*point) {
                1int
            } else {
                0
            },
    {
        let ghost pre = *self;
        let i = match self.check_by_point(current_piece.y, current_piece.x) {
            Some(i) => i,
            None => {
                return Ok(false);
            },
        };
        proof {
            self.lemma_unique_at(i as int, current_piece.x as int, current_piece.y as int);
        }
        if *point == *current_piece {
            return Ok(false);
        }
        if contains_point(valid_moves, point) {
            self.locations[i] = *point;
            self.first_move[i] = false;
            proof {
                assert forall|a: int, b: int|
                    0 <= a < self.count() && 0 <= b < self.count() && a != b implies #[trigger] self.locations@[a]
                        != #[trigger] self.locations@[b] by {
                    if a == i {
                        assert(!pre.at(b, point.x as int, point.y as int));
                    } else if b == i {
                        assert(!pre.at(a, point.x as int, point.y as int));
                    } else {
                        assert(pre.locations@[a] != pre.locations@[b]);
                    }
                }
            }
            Ok(true)
        } else if contains_point(valid_kills, point) {
            let d = match self.check_by_point(point.y, point.x) {
                Some(d) => d,
                None => {
                    return Ok(false);
                },
            };
            proof {
                self.lemma_unique_at(d as int, point.x as int, point.y as int);
            }
            self.locations.remove(d);
            self.colors.remove(d);
            self.types.remove(d);
            self.first_move.remove(d);
            let j = if i < d {
                i
            } else {
                i - 1
            };
            self.locations[j] = *point;
            self.first_move[j] = false;
            proof {
                let mid = pre.locations@.remove(d as int);
                assert forall|a: int| 0 <= a < mid.len() implies #[trigger] mid[a] == pre.locations@[
                    if a < d {
                        a
                    } else {
                        a + 1
                    }
                ] by {}
                assert forall|a: int, b: int|
                    0 <= a < self.count() && 0 <= b < self.count() && a != b implies #[trigger] self.locations@[a]
                        != #[trigger] self.locations@[b] by {
                    let oa = if a < d {
                        a
                    } else {
                        a + 1
                    };
                    let ob = if b < d {
                        b
                    } else {
                        b + 1
                    };
                    if a == j {
                        assert(pre.locations@[ob] != pre.locations@[d as int]);
                    } else if b == j {
                        assert(pre.locations@[oa] != pre.locations@[d as int]);
                    } else {
                        assert(pre.locations@[oa] != pre.locations@[ob]);
                    }
                }
                assert forall|a: int| 0 <= a < self.count() implies on_board(
                    #[trigger] self.locations@[a].x as int,
                    self.locations@[a].y as int,
                ) by {
                    if a != j {
                        let oa = if a < d {
                            a
                        } else {
                            a + 1
                        };
                        assert(on_board(pre.locations@[oa].x as int, pre.locations@[oa].y as int));
                    }
                }
            }
            Ok(true)
        } else {
            Ok(false)
        }
    }

    /// The quiet moves of the piece in slot `piece_index` that answer a check given by the pieces
    /// in slots `predators`, whose danger zone is `danger_locations`: for a king, those outside
    /// the zone; for another piece, those inside it, and none when two or more pieces give check.
    pub fn possible_check_moves(
        &mut self,
        squares: &Squares,
        piece_index: usize,
        danger_locations: &Vec<Point>,
        predators: &Vec<usize>,
    ) -> (r: Vec<Point>)
        requires
            old(self).wf(),
            piece_index < old(self).count(),
        ensures
            *final(self) == *old(self),
            r@.no_duplicates(),
            forall|p: Point| #[trigger]
                r@.contains(p) <==> old(self).quiet_dest(piece_index as int, p) && if old(
                    self,
                ).types@[piece_index as int] == Type::King {
                    !danger_locations@.contains(p)
                } else {
                    predators@.len() == 1 && danger_locations@.contains(p)
                },
    {
        let king = self.types[piece_index] == Type::King;
        if !king && predators.len() != 1 {
            return Vec::new();
        }
        let (possible_moves, _possible_kills) = self.possible_moves(squares, piece_index);
        let ghost keep = |p: Point|
            if king {
                !danger_locations@.contains(p)
            } else {
                danger_locations@.contains(p)
            };
        let mut ret: Vec<Point> = Vec::new();
        proof {
            lemma_filter_start(possible_moves@, keep);
        }
        let mut k: usize = 0;
        while k < possible_moves.len()
            invariant
                0 <= k <= possible_moves@.len(),
                possible_moves@.no_duplicates(),
                forall|p: Point| #[trigger] keep(p) == (danger_locations@.contains(p) != king),
                filtered(possible_moves@, k as int, keep, ret@),
            decreases possible_moves@.len() - k,
        {
            let pnt = possible_moves[k];
            let ghost r0 = ret@;
            let inside = contains_point(danger_locations, &pnt);
            if inside != king {
                ret.push(pnt);
            }
            proof {
                assert(keep(possible_moves@[k as int]) == (inside != king));
                lemma_filter_step(possible_moves@, k as int, keep, r0, ret@);
            }
            k += 1;
        }
        proof {
            lemma_filter_done(possible_moves@, keep, ret@);
        }
        ret
    }

    /// Whether cell `(x, y)` holds a piece of the other color than `color`.
    fn is_enemy_at(&self, color: &PieceColor, y: u32, x: u32) -> (r: bool)
        requires
            self.wf(),
        ensures
            r == self.enemy_at(*color, x as int, y as int),
    {
        match self.check_by_point(y, x) {
            Some(loc) => {
                proof {
                    self.lemma_unique_at(loc as int, x as int, y as int);
                }
                self.colors[loc] != *color
            },
            None => false,
        }
    }

    /// Walks from `(x, y)` in direction `(dx, dy)` for at most `n` steps, adding each empty cell
    /// as a quiet move, and stopping at the first occupied cell, a capture if it holds an enemy.
    fn walk_ray(
        &self,
        color: &PieceColor,
        quiet: &mut Vec<Point>,
        kills: &mut Vec<Point>,
        x: u32,
        y: u32,
        dx: i32,
        dy: i32,
        n: u32,
    )
        requires
            self.wf(),
            on_board(x as int, y as int),
            direction(dx as int, dy as int),
            old(quiet)@.no_duplicates(),
            old(kills)@.no_duplicates(),
            forall|p: Point| #[trigger]
                old(quiet)@.contains(p) ==> !self.ray_quiet(
                    x as int,
                    y as int,
                    dx as int,
                    dy as int,
                    n as nat,
                    p,
                ),
            forall|p: Point| #[trigger]
                old(kills)@.contains(p) ==> !self.ray_capture(
                    *color,
                    x as int,
                    y as int,
                    dx as int,
                    dy as int,
                    n as nat,
                    p,
                ),
        ensures
            final(quiet)@.no_duplicates(),
            final(kills)@.no_duplicates(),
            forall|p: Point|
                #[trigger] final(quiet)@.contains(p) <==> (old(quiet)@.contains(p) || self.ray_quiet(
                    x as int,
                    y as int,
                    dx as int,
                    dy as int,
                    n as nat,
                    p,
                )),
            forall|p: Point|
                #[trigger] final(kills)@.contains(p) <==> (old(kills)@.contains(p)
                    || self.ray_capture(*color, x as int, y as int, dx as int, dy as int, n as nat, p)),
        decreases n,
    {
        if n == 0 {
            return ;
        }
        let nx: i64 = x as i64 + dx as i64;
        let ny: i64 = y as i64 + dy as i64;
        if nx < 0 || nx > 7 || ny < 0 || ny > 7 {
            return ;
        }
        let ghost q0 = quiet@;
        let ghost k0 = kills@;
        let blocked = self.valid_moves(color, quiet, kills, ny as u32, nx as u32);
        let ghost next = Point { x: nx as u32, y: ny as u32 };
        proof {
            lemma_push_contains(q0, next);
            lemma_push_contains(k0, next);
            if !blocked {
                assert(self.ray_quiet(x as int, y as int, dx as int, dy as int, n as nat, next));
                lemma_push_no_dup(q0, next);
                self.lemma_ray_quiet_iff(nx as int, ny as int, dx as int, dy as int, (n - 1) as nat, next);
            }
            if self.enemy_at(*color, nx as int, ny as int) {
                assert(self.ray_capture(*color, x as int, y as int, dx as int, dy as int, n as nat, next));
                lemma_push_no_dup(k0, next);
            }
        }
        if !blocked {
            self.walk_ray(color, quiet, kills, nx as u32, ny as u32, dx, dy, n - 1);
        }
    }

    /// The four rook rays, or with `diagonal` the four bishop rays, from `(x, y)`.
    fn ray_moves(
        &self,
        color: &PieceColor,
        quiet: &mut Vec<Point>,
        kills: &mut Vec<Point>,
        x: u32,
        y: u32,
        diagonal: bool,
    )
        requires
            self.wf(),
            on_board(x as int, y as int),
            old(quiet)@.no_duplicates(),
            old(kills)@.no_duplicates(),
            forall|p: Point| #[trigger]
                old(quiet)@.contains(p) ==> !(if diagonal {
                    self.bishop_quiet(x as int, y as int, p)
                } else {
                    self.rook_quiet(x as int, y as int, p)
                }),
            forall|p: Point| #[trigger]
                old(kills)@.contains(p) ==> !(if diagonal {
                    self.bishop_capture(*color, x as int, y as int, p)
                } else {
                    self.rook_capture(*color, x as int, y as int, p)
                }),
        ensures
            final(quiet)@.no_duplicates(),
            final(kills)@.no_duplicates(),
            forall|p: Point|
                #[trigger] final(quiet)@.contains(p) <==> (old(quiet)@.contains(p) || if diagonal {
                    self.bishop_quiet(x as int, y as int, p)
                } else {
                    self.rook_quiet(x as int, y as int, p)
                }),
            forall|p: Point|
                #[trigger] final(kills)@.contains(p) <==> (old(kills)@.contains(p) || if diagonal {
                    self.bishop_capture(*color, x as int, y as int, p)
                } else {
                    self.rook_capture(*color, x as int, y as int, p)
                }),
    {
        proof {
            lemma_rays_disjoint(self, *color, x as int, y as int);
        }
        if diagonal {
            self.walk_ray(color, quiet, kills, x, y, -1, -1, 7);
            self.walk_ray(color, quiet, kills, x, y, 1, -1, 7);
            self.walk_ray(color, quiet, kills, x, y, 1, 1, 7);
            self.walk_ray(color, quiet, kills, x, y, -1, 1, 7);
        } else {
            self.walk_ray(color, quiet, kills, x, y, 0, -1, 7);
            self.walk_ray(color, quiet, kills, x, y, 0, 1, 7);
            self.walk_ray(color, quiet, kills, x, y, 1, 0, 7);
            self.walk_ray(color, quiet, kills, x, y, -1, 0, 7);
        }
    }

    /// Classifies the single cell `(x + dx, y + dy)` if it is on the board.
    fn leap(
        &self,
        color: &PieceColor,
        quiet: &mut Vec<Point>,
        kills: &mut Vec<Point>,
        x: u32,
        y: u32,
        dx: i32,
        dy: i32,
    )
        requires
            self.wf(),
            x < 8,
            y < 8,
            -2 <= dx <= 2,
            -2 <= dy <= 2,
            old(quiet)@.no_duplicates(),
            old(kills)@.no_duplicates(),
            forall|p: Point| #[trigger]
                old(quiet)@.contains(p) ==> !(on_board(x + dx, y + dy) && !self.occupied(
                    x + dx,
                    y + dy,
                ) && is_cell(p, x + dx, y + dy)),
            forall|p: Point| #[trigger]
                old(kills)@.contains(p) ==> !(on_board(x + dx, y + dy) && self.enemy_at(
                    *color,
                    x + dx,
                    y + dy,
                ) && is_cell(p, x + dx, y + dy)),
        ensures
            final(quiet)@.no_duplicates(),
            final(kills)@.no_duplicates(),
            forall|p: Point|
                #[trigger] final(quiet)@.contains(p) <==> (old(quiet)@.contains(p) || (on_board(
                    x + dx,
                    y + dy,
                ) && !self.occupied(x + dx, y + dy) && is_cell(p, x + dx, y + dy))),
            forall|p: Point|
                #[trigger] final(kills)@.contains(p) <==> (old(kills)@.contains(p) || (on_board(
                    x + dx,
                    y + dy,
                ) && self.enemy_at(*color, x + dx, y + dy) && is_cell(p, x + dx, y + dy))),
    {
        let nx: i32 = x as i32 + dx;
        let ny: i32 = y as i32 + dy;
        if nx < 0 || nx > 7 || ny < 0 || ny > 7 {
            return ;
        }
        let ghost q0 = quiet@;
        let ghost k0 = kills@;
        let blocked = self.valid_moves(color, quiet, kills, ny as u32, nx as u32);
        let ghost next = Point { x: nx as u32, y: ny as u32 };
        proof {
            lemma_push_contains(q0, next);
            lemma_push_contains(k0, next);
            if !blocked {
                lemma_push_no_dup(q0, next);
            }
            if self.enemy_at(*color, nx as int, ny as int) {
                lemma_push_no_dup(k0, next);
            }
        }
    }

    /// The knight's eight jumps, or with `king` the king's eight steps, from `(x, y)`.
    fn leap_moves(
        &self,
        color: &PieceColor,
        quiet: &mut Vec<Point>,
        kills: &mut Vec<Point>,
        x: u32,
        y: u32,
        king: bool,
    )
        requires
            self.wf(),
            x < 8,
            y < 8,
            old(quiet)@.len() == 0,
            old(kills)@.len() == 0,
        ensures
            final(quiet)@.no_duplicates(),
            final(kills)@.no_duplicates(),
            forall|p: Point|
                #[trigger] final(quiet)@.contains(p) <==> (old(quiet)@.contains(p)
                    || self.leap_quiet(king, x as int, y as int, p)),
            forall|p: Point|
                #[trigger] final(kills)@.contains(p) <==> (old(kills)@.contains(p)
                    || self.leap_capture(*color, king, x as int, y as int, p)),
    {
        if king {
            self.leap(color, quiet, kills, x, y, -1, 0);
            self.leap(color, quiet, kills, x, y, 1, 0);
            self.leap(color, quiet, kills, x, y, 0, -1);
            self.leap(color, quiet, kills, x, y, -1, -1);
            self.leap(color, quiet, kills, x, y, 1, -1);
            self.leap(color, quiet, kills, x, y, 0, 1);
            self.leap(color, quiet, kills, x, y, -1, 1);
            self.leap(color, quiet, kills, x, y, 1, 1);
        } else {
            self.leap(color, quiet, kills, x, y, -1, -2);
            self.leap(color, quiet, kills, x, y, 1, -2);
            self.leap(color, quiet, kills, x, y, -1, 2);
            self.leap(color, quiet, kills, x, y, 1, 2);
            self.leap(color, quiet, kills, x, y, -2, -1);
            self.leap(color, quiet, kills, x, y, -2, 1);
            self.leap(color, quiet, kills, x, y, 2, -1);
            self.leap(color, quiet, kills, x, y, 2, 1);
        }
    }

    /// A pawn's forward steps and diagonal captures.
    fn pawn_moves(
        &self,
        color: &PieceColor,
        first: bool,
        quiet: &mut Vec<Point>,
        kills: &mut Vec<Point>,
        x: u32,
        y: u32,
    )
        requires
            self.wf(),
            x < 8,
            y < 8,
            old(quiet)@.len() == 0,
            old(kills)@.len() == 0,
        ensures
            final(quiet)@.no_duplicates(),
            final(kills)@.no_duplicates(),
            forall|p: Point|
                #[trigger] final(quiet)@.contains(p) <==> (old(quiet)@.contains(p)
                    || self.pawn_quiet(*color, first, x as int, y as int, p)),
            forall|p: Point|
                #[trigger] final(kills)@.contains(p) <==> (old(kills)@.contains(p)
                    || self.pawn_capture(*color, x as int, y as int, p)),
    {
        let f: i64 = match color {
            PieceColor::White => 1,
            PieceColor::Black => -1,
        };
        let y1: i64 = y as i64 + f;
        if y1 < 0 || y1 > 7 {
            return ;
        }
        let ghost q0 = quiet@;
        let ghost k0 = kills@;
        let one = Point { x, y: y1 as u32 };
        if self.check_by_point(y1 as u32, x).is_none() {
            quiet.push(one);
            proof {
                lemma_push_contains(q0, one);
            }
            let y2: i64 = y1 + f;
            if first && 0 <= y2 && y2 <= 7 && self.check_by_point(y2 as u32, x).is_none() {
                let ghost q1 = quiet@;
                quiet.push(Point { x, y: y2 as u32 });
                proof {
                    lemma_push_contains(q1, Point { x, y: y2 as u32 });
                }
            }
        }
        // Left capture
        if x != 0 && self.is_enemy_at(color, y1 as u32, x - 1) {
            kills.push(Point { x: x - 1, y: y1 as u32 });
            proof {
                lemma_push_contains(k0, Point { x: (x - 1) as u32, y: y1 as u32 });
            }
        }
        // Right capture
        if x != 7 && self.is_enemy_at(color, y1 as u32, x + 1) {
            let ghost k1 = kills@;
            kills.push(Point { x: x + 1, y: y1 as u32 });
            proof {
                lemma_push_contains(k1, Point { x: (x + 1) as u32, y: y1 as u32 });
            }
        }
    }

    /// The quiet moves and the captures of the piece in slot `piece_loc`, by the rules of its
    /// kind (see `quiet_dest` and `capture_dest`). A king's moves are where it can physically go:
    /// threatened cells are left out by the turn state machine (`game::play_quiet`), not here.
    pub fn possible_moves(&self, _squares: &Squares, piece_loc: usize) -> (r: (Vec<Point>, Vec<Point>))
        requires
            self.wf(),
            piece_loc < self.count(),
        ensures
            forall|p: Point| #[trigger] r.0@.contains(p) <==> self.quiet_dest(piece_loc as int, p),
            forall|p: Point| #[trigger] r.1@.contains(p) <==> self.capture_dest(piece_loc as int, p),
            r.0@.no_duplicates(),
            r.1@.no_duplicates(),
    {
        let mut possible_locations: Vec<Point> = Vec::new();
        let mut possible_kills: Vec<Point> = Vec::new();
        let piece_point = self.locations[piece_loc];
        let piece_color = self.colors[piece_loc];
        let x = piece_point.x;
        let y = piece_point.y;
        assert(on_board(x as int, y as int));
        reveal(Pieces::quiet_dest);
        reveal(Pieces::capture_dest);
        match self.types[piece_loc] {
            Type::Pawn => {
                let first = self.first_move[piece_loc];
                self.pawn_moves(&piece_color, first, &mut possible_locations, &mut possible_kills, x, y);
            },
            Type::Rook => {
                self.ray_moves(&piece_color, &mut possible_locations, &mut possible_kills, x, y, false);
            },
            Type::Bishop => {
                self.ray_moves(&piece_color, &mut possible_locations, &mut possible_kills, x, y, true);
            },
            Type::Queen => {
                proof {
                    lemma_rays_disjoint(self, piece_color, x as int, y as int);
                }
                self.ray_moves(&piece_color, &mut possible_locations, &mut possible_kills, x, y, true);
                self.ray_moves(&piece_color, &mut possible_locations, &mut possible_kills, x, y, false);
            },
            Type::Knight => {
                self.leap_moves(&piece_color, &mut possible_locations, &mut possible_kills, x, y, false);
            },
            Type::King => {
                self.leap_moves(&piece_color, &mut possible_locations, &mut possible_kills, x, y, true);
            },
        }
        (possible_locations, possible_kills)
    }

    /// On a well-formed board the piece on a cell is the only one there.
    pub proof fn lemma_unique_at(&self, i: int, x: int, y: int)
        requires
            self.wf(),
            0 <= i < self.count(),
            self.at(i, x, y),
        ensures
            forall|j: int| 0 <= j < self.count() && #[trigger] self.at(j, x, y) ==> j == i,
            self.occupied(x, y),
            self.index_at(x, y) == i,
            self.enemy_at(self.colors@[i], x, y) == false,
            self.friend_at(self.colors@[i], x, y),
            forall|c: PieceColor| #[trigger] self.enemy_at(c, x, y) <==> self.colors@[i] != c,
            forall|c: PieceColor| #[trigger] self.friend_at(c, x, y) <==> self.colors@[i] == c,
    {
        assert forall|j: int| 0 <= j < self.count() && #[trigger] self.at(j, x, y) implies j == i by {
            if j != i {
                assert(self.locations@[i] != self.locations@[j]);
            }
        }
        assert(self.at(i, x, y));
    }
}

impl Pieces {
    /// A ray's quiet moves are empty cells on the board.
    pub proof fn lemma_ray_quiet_sound(&self, x: int, y: int, dx: int, dy: int, n: nat, p: Point)
        requires
            self.ray_quiet(x, y, dx, dy, n, p),
        ensures
            on_board(p.x as int, p.y as int),
            !self.occupied(p.x as int, p.y as int),
        decreases n,
    {
        if !is_cell(p, x + dx, y + dy) {
            self.lemma_ray_quiet_sound(x + dx, y + dy, dx, dy, (n - 1) as nat, p);
        }
    }

    /// A ray's capture is an enemy's cell on the board.
    pub proof fn lemma_ray_capture_sound(
        &self,
        c: PieceColor,
        x: int,
        y: int,
        dx: int,
        dy: int,
        n: nat,
        p: Point,
    )
        requires
            self.ray_capture(c, x, y, dx, dy, n, p),
        ensures
            on_board(p.x as int, p.y as int),
            self.enemy_at(c, p.x as int, p.y as int),
        decreases n,
    {
        if !self.occupied(x + dx, y + dy) {
            self.lemma_ray_capture_sound(c, x + dx, y + dy, dx, dy, (n - 1) as nat, p);
        }
    }

    /// Every quiet move is an empty cell on the board, every capture an enemy's cell on the board.
    pub proof fn lemma_dest_sound(&self, i: int, p: Point)
        requires
            self.wf(),
            0 <= i < self.count(),
        ensures
            self.quiet_dest(i, p) ==> on_board(p.x as int, p.y as int) && !self.occupied(
                p.x as int,
                p.y as int,
            ),
            self.capture_dest(i, p) ==> on_board(p.x as int, p.y as int) && self.enemy_at(
                self.colors@[i],
                p.x as int,
                p.y as int,
            ),
    {
        let x = self.locations@[i].x as int;
        let y = self.locations@[i].y as int;
        let c = self.colors@[i];
        reveal(Pieces::quiet_dest);
        reveal(Pieces::capture_dest);
        if self.quiet_dest(i, p) {
            match self.types@[i] {
                Type::Rook | Type::Bishop | Type::Queen => {
                    let ds = seq![(0int, -1int), (0, 1), (1, 0), (-1, 0), (-1, -1), (1, -1), (1, 1), (-1, 1)];
                    assert(exists|k: int| 0 <= k < 8 && self.ray_quiet(x, y, ds[k].0, ds[k].1, 7, p));
                    let k = choose|k: int| 0 <= k < 8 && self.ray_quiet(x, y, ds[k].0, ds[k].1, 7, p);
                    self.lemma_ray_quiet_sound(x, y, ds[k].0, ds[k].1, 7, p);
                },
                _ => {},
            }
        }
        if self.capture_dest(i, p) {
            match self.types@[i] {
                Type::Rook | Type::Bishop | Type::Queen => {
                    let ds = seq![(0int, -1int), (0, 1), (1, 0), (-1, 0), (-1, -1), (1, -1), (1, 1), (-1, 1)];
                    assert(exists|k: int| 0 <= k < 8 && self.ray_capture(c, x, y, ds[k].0, ds[k].1, 7, p));
                    let k = choose|k: int| 0 <= k < 8 && self.ray_capture(c, x, y, ds[k].0, ds[k].1, 7, p);
                    self.lemma_ray_capture_sound(c, x, y, ds[k].0, ds[k].1, 7, p);
                },
                _ => {},
            }
        }
    }
}

/// No piece can move onto its own cell or onto a cell held by its own color, and no cell is both
/// a quiet move and a capture of the same piece.
pub proof fn lemma_destinations_legal(pieces: &Pieces, i: int)
    requires
        pieces.wf(),
        0 <= i < pieces.count(),
    ensures
        forall|p: Point| !(#[trigger] pieces.quiet_dest(i, p) && pieces.capture_dest(i, p)),
        forall|p: Point|
            #[trigger] pieces.quiet_dest(i, p) ==> !pieces.friend_at(
                pieces.colors@[i],
                p.x as int,
                p.y as int,
            ),
        forall|p: Point|
            #[trigger] pieces.capture_dest(i, p) ==> !pieces.friend_at(
                pieces.colors@[i],
                p.x as int,
                p.y as int,
            ),
        !pieces.quiet_dest(i, pieces.locations@[i]),
        !pieces.capture_dest(i, pieces.locations@[i]),
{
    assert forall|p: Point| !(#[trigger] pieces.quiet_dest(i, p) && pieces.capture_dest(i, p)) by {
        lemma_dest_legal_at(pieces, i, p);
    }
    assert forall|p: Point| #[trigger] pieces.quiet_dest(i, p) implies !pieces.friend_at(
        pieces.colors@[i],
        p.x as int,
        p.y as int,
    ) by {
        lemma_dest_legal_at(pieces, i, p);
    }
    assert forall|p: Point| #[trigger] pieces.capture_dest(i, p) implies !pieces.friend_at(
        pieces.colors@[i],
        p.x as int,
        p.y as int,
    ) by {
        lemma_dest_legal_at(pieces, i, p);
    }
    let o = pieces.locations@[i];
    pieces.lemma_dest_sound(i, o);
    pieces.lemma_unique_at(i, o.x as int, o.y as int);
}

proof fn lemma_dest_legal_at(pieces: &Pieces, i: int, p: Point)
    requires
        pieces.wf(),
        0 <= i < pieces.count(),
    ensures
        !(pieces.quiet_dest(i, p) && pieces.capture_dest(i, p)),
        pieces.quiet_dest(i, p) ==> !pieces.friend_at(pieces.colors@[i], p.x as int, p.y as int),
        pieces.capture_dest(i, p) ==> !pieces.friend_at(pieces.colors@[i], p.x as int, p.y as int),
{
    let c = pieces.colors@[i];
    pieces.lemma_dest_sound(i, p);
    if pieces.capture_dest(i, p) {
        let e = choose|e: int|
            0 <= e < pieces.count() && #[trigger] pieces.at(e, p.x as int, p.y as int)
                && pieces.colors@[e] != c;
        pieces.lemma_unique_at(e, p.x as int, p.y as int);
    }
    if pieces.quiet_dest(i, p) && pieces.friend_at(c, p.x as int, p.y as int) {
        let e = choose|e: int|
            0 <= e < pieces.count() && #[trigger] pieces.at(e, p.x as int, p.y as int)
                && pieces.colors@[e] == c;
        assert(pieces.occupied(p.x as int, p.y as int));
    }
}

/// A pawn that has not moved may step two cells forward exactly when both the cell it passes and
/// the cell it lands on are empty; when either is taken, at most the one-step move remains.
pub proof fn lemma_pawn_double_step(pieces: &Pieces, i: int)
    requires
        pieces.wf(),
        0 <= i < pieces.count(),
        pieces.types@[i] == Type::Pawn,
        pieces.first_move@[i],
    ensures
        ({
            let x = pieces.locations@[i].x as int;
            let y = pieces.locations@[i].y as int;
            let f = forward(pieces.colors@[i]);
            &&& on_board(x, y + 2 * f) ==> (pieces.quiet_dest(
                i,
                Point { x: x as u32, y: (y + 2 * f) as u32 },
            ) <==> !pieces.occupied(x, y + f) && !pieces.occupied(x, y + 2 * f))
            &&& (pieces.occupied(x, y + f) || pieces.occupied(x, y + 2 * f)) ==> forall|p: Point|
                #[trigger] pieces.quiet_dest(i, p) ==> p == Point { x: x as u32, y: (y + f) as u32 }
        }),
{
    reveal(Pieces::quiet_dest);
    let x = pieces.locations@[i].x as int;
    let y = pieces.locations@[i].y as int;
    assert(on_board(x, y));
}

/// A knight's or a king's moves are the on-board cells at its offsets that do not hold a piece of
/// its own color, whatever stands in between.
pub proof fn lemma_leaper_moves(pieces: &Pieces, i: int)
    requires
        pieces.wf(),
        0 <= i < pieces.count(),
        pieces.types@[i] == Type::Knight || pieces.types@[i] == Type::King,
    ensures
        forall|p: Point|
            (#[trigger] pieces.quiet_dest(i, p) || pieces.capture_dest(i, p)) <==> {
                let dx = p.x - pieces.locations@[i].x;
                let dy = p.y - pieces.locations@[i].y;
                &&& on_board(p.x as int, p.y as int)
                &&& if pieces.types@[i] == Type::King {
                    king_offset(dx, dy)
                } else {
                    knight_offset(dx, dy)
                }
                &&& !pieces.friend_at(pieces.colors@[i], p.x as int, p.y as int)
            },
{
    reveal(Pieces::quiet_dest);
    reveal(Pieces::capture_dest);
    let c = pieces.colors@[i];
    assert forall|p: Point|
        pieces.occupied(p.x as int, p.y as int) implies (pieces.enemy_at(c, p.x as int, p.y as int)
            != #[trigger] pieces.friend_at(c, p.x as int, p.y as int)) by {
        if pieces.occupied(p.x as int, p.y as int) {
            let e = choose|e: int| 0 <= e < pieces.count() && #[trigger] pieces.at(e, p.x as int, p.y as int);
            pieces.lemma_unique_at(e, p.x as int, p.y as int);
        }
    }
}

/// `out` holds, once each, the points among the first `k` of `src` that `keep` admits.
pub open spec fn filtered(src: Seq<Point>, k: int, keep: spec_fn(Point) -> bool, out: Seq<Point>) -> bool {
    &&& out.no_duplicates()
    &&& forall|p: Point|
        #[trigger] out.contains(p) <==> (exists|j: int| 0 <= j < k && src[j] == p) && keep(p)
}

/// Nothing is kept before the filter starts.
pub proof fn lemma_filter_start(src: Seq<Point>, keep: spec_fn(Point) -> bool)
    ensures
        filtered(src, 0, keep, Seq::empty()),
{
}

/// Keeping `src[k]` exactly when `keep` admits it extends a filter by one point.
pub proof fn lemma_filter_step(
    src: Seq<Point>,
    k: int,
    keep: spec_fn(Point) -> bool,
    out: Seq<Point>,
    next: Seq<Point>,
)
    requires
        src.no_duplicates(),
        0 <= k < src.len(),
        filtered(src, k, keep, out),
        next == if keep(src[k]) {
            out.push(src[k])
        } else {
            out
        },
    ensures
        filtered(src, k + 1, keep, next),
{
    let a = src[k];
    lemma_push_contains(out, a);
    if keep(a) {
        if out.contains(a) {
            let j = choose|j: int| 0 <= j < k && src[j] == a;
            assert(src[j] == src[k]);
        }
        lemma_push_no_dup(out, a);
    }
    assert forall|p: Point|
        #[trigger] next.contains(p) <==> (exists|j: int| 0 <= j < k + 1 && src[j] == p) && keep(p) by {
        if p == a {
            assert(src[k] == p);
        }
        if exists|j: int| 0 <= j < k + 1 && src[j] == p {
            let j = choose|j: int| 0 <= j < k + 1 && src[j] == p;
            if j < k {
                assert(exists|j: int| 0 <= j < k && src[j] == p);
            }
        }
    }
}

/// A filter run over the whole of `src` keeps exactly its admitted points, once each.
pub proof fn lemma_filter_done(src: Seq<Point>, keep: spec_fn(Point) -> bool, out: Seq<Point>)
    requires
        filtered(src, src.len() as int, keep, out),
    ensures
        out.no_duplicates(),
        forall|p: Point| #[trigger] out.contains(p) <==> src.contains(p) && keep(p),
{
    assert forall|p: Point| #[trigger] out.contains(p) <==> src.contains(p) && keep(p) by {
        if src.contains(p) {
            let j = choose|j: int| 0 <= j < src.len() && src[j] == p;
            assert(exists|j: int| 0 <= j < src.len() && src[j] == p);
        }
    }
}

/// Pushing a value that a sequence lacks keeps it free of repeats.
pub proof fn lemma_push_no_dup<T>(s: Seq<T>, a: T)
    requires
        s.no_duplicates(),
        !s.contains(a),
    ensures
        s.push(a).no_duplicates(),
{
    let t = s.push(a);
    assert forall|i: int, j: int| 0 <= i < t.len() && 0 <= j < t.len() && i != j implies t[i] != t[j] by {
        if i == s.len() {
            assert(s[j] == t[j]);
        } else if j == s.len() {
            assert(s[i] == t[i]);
        } else {
            assert(s[i] == t[i] && s[j] == t[j]);
        }
    }
}

/// Pushing `a` adds exactly `a` to what a sequence contains.
pub proof fn lemma_push_contains<T>(s: Seq<T>, a: T)
    ensures
        forall|p: T| #[trigger] s.push(a).contains(p) <==> (s.contains(p) || p == a),
{
    assert forall|p: T| #[trigger] s.push(a).contains(p) <==> (s.contains(p) || p == a) by {
        if s.contains(p) {
            let k = choose|k: int| 0 <= k < s.len() && s[k] == p;
            assert(s.push(a)[k] == p);
        }
        if p == a {
            assert(s.push(a)[s.len() as int] == a);
        }
        if s.push(a).contains(p) {
            let k = choose|k: int| 0 <= k < s.len() + 1 && s.push(a)[k] == p;
            if k < s.len() {
                assert(s[k] == p);
            }
        }
    }
}

} // verus!
