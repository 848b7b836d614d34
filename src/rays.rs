use vstd::prelude::*;

use crate::pieces::{is_cell, on_board, step, unit, Pieces, PieceColor, Point, Type};
use crate::state::{aligned, attacks, is_line_piece, sign, zone_len};

verus! {

/// How many steps of `(dx, dy)` lead from `(x, y)` to `p`, read off one moving coordinate.
pub open spec fn dist(x: int, y: int, dx: int, dy: int, p: Point) -> int {
    if dx > 0 {
        p.x - x
    } else if dx < 0 {
        x - p.x
    } else if dy > 0 {
        p.y - y
    } else {
        y - p.y
    }
}

/// `p` is reached from `(x, y)` by one or more steps of `(dx, dy)`.
pub open spec fn on_ray(x: int, y: int, dx: int, dy: int, p: Point) -> bool {
    let k = dist(x, y, dx, dy, p);
    k >= 1 && is_cell(p, step(x, dx, k), step(y, dy, k))
}

pub open spec fn direction(dx: int, dy: int) -> bool {
    unit(dx) && unit(dy) && !(dx == 0 && dy == 0)
}

impl Pieces {
    /// The first `k - 1` cells from `(x, y)` in direction `(dx, dy)` are empty.
    pub open spec fn clear(&self, x: int, y: int, dx: int, dy: int, k: int) -> bool
        decreases k,
    {
        if k <= 1 {
            true
        } else {
            !self.occupied(x + dx, y + dy) && self.clear(x + dx, y + dy, dx, dy, k - 1)
        }
    }

    /// A clear stretch has every cell in it empty.
    pub proof fn lemma_clear_cell(&self, x: int, y: int, dx: int, dy: int, k: int, j: int)
        requires
            direction(dx, dy),
            self.clear(x, y, dx, dy, k),
            1 <= j < k,
        ensures
            !self.occupied(step(x, dx, j), step(y, dy, j)),
        decreases k,
    {
        if j > 1 {
            self.lemma_clear_cell(x + dx, y + dy, dx, dy, k - 1, j - 1);
        }
    }

    /// A ray's quiet moves are exactly the on-board cells along it, within `n` steps, up to and
    /// excluding the first occupied cell.
    pub proof fn lemma_ray_quiet_iff(&self, x: int, y: int, dx: int, dy: int, n: nat, p: Point)
        requires
            direction(dx, dy),
            on_board(x, y),
        ensures
            self.ray_quiet(x, y, dx, dy, n, p) <==> {
                let k = dist(x, y, dx, dy, p);
                &&& on_ray(x, y, dx, dy, p)
                &&& k <= n
                &&& on_board(p.x as int, p.y as int)
                &&& self.clear(x, y, dx, dy, k + 1)
            },
        decreases n,
    {
        let k = dist(x, y, dx, dy, p);
        if n > 0 && on_board(x + dx, y + dy) && !self.occupied(x + dx, y + dy) {
            self.lemma_ray_quiet_iff(x + dx, y + dy, dx, dy, (n - 1) as nat, p);
            assert(self.clear(x + dx, y + dy, dx, dy, 1));
            if k >= 2 {
                assert(dist(x + dx, y + dy, dx, dy, p) == k - 1);
            }
        } else if n > 0 && on_board(x + dx, y + dy) {
            assert(self.clear(x, y, dx, dy, k + 1) ==> k < 1);
        }
    }

    /// A ray's capture is the first occupied on-board cell along it, within `n` steps, when it
    /// holds an enemy.
    pub proof fn lemma_ray_capture_iff(
        &self,
        c: PieceColor,
        x: int,
        y: int,
        dx: int,
        dy: int,
        n: nat,
        p: Point,
    )
        requires
            direction(dx, dy),
            on_board(x, y),
        ensures
            self.ray_capture(c, x, y, dx, dy, n, p) <==> {
                let k = dist(x, y, dx, dy, p);
                &&& on_ray(x, y, dx, dy, p)
                &&& k <= n
                &&& on_board(p.x as int, p.y as int)
                &&& self.clear(x, y, dx, dy, k)
                &&& self.enemy_at(c, p.x as int, p.y as int)
            },
        decreases n,
    {
        if n > 0 && on_board(x + dx, y + dy) && !self.occupied(x + dx, y + dy) {
            self.lemma_ray_capture_iff(c, x + dx, y + dy, dx, dy, (n - 1) as nat, p);
        }
    }
}

/// The directions along which a piece of kind `t` walks.
pub open spec fn walks(t: Type, dx: int, dy: int) -> bool {
    &&& direction(dx, dy)
    &&& match t {
        Type::Rook => dx == 0 || dy == 0,
        Type::Bishop => dx != 0 && dy != 0,
        Type::Queen => true,
        _ => false,
    }
}

/// A rook, bishop or queen cannot reach past the first piece on its path: when the cell `k`
/// steps away along one of its directions is occupied, no cell further along that direction is
/// a quiet move or a capture.
pub proof fn lemma_ray_blocked(pieces: &Pieces, i: int, dx: int, dy: int, k: int, p: Point)
    requires
        pieces.wf(),
        0 <= i < pieces.count(),
        walks(pieces.types@[i], dx, dy),
        ({
            let x = pieces.locations@[i].x as int;
            let y = pieces.locations@[i].y as int;
            &&& 1 <= k
            &&& pieces.occupied(step(x, dx, k), step(y, dy, k))
            &&& on_ray(x, y, dx, dy, p)
            &&& dist(x, y, dx, dy, p) > k
        }),
    ensures
        !pieces.quiet_dest(i, p),
        !pieces.capture_dest(i, p),
{
    let x = pieces.locations@[i].x as int;
    let y = pieces.locations@[i].y as int;
    let c = pieces.colors@[i];
    assert(on_board(x, y));
    reveal(Pieces::quiet_dest);
    reveal(Pieces::capture_dest);
    lemma_rays_at(pieces, c, x, y, p);
    let m = dist(x, y, dx, dy, p);
    if pieces.clear(x, y, dx, dy, m) {
        pieces.lemma_clear_cell(x, y, dx, dy, m, k);
    }
    if pieces.clear(x, y, dx, dy, m + 1) {
        pieces.lemma_clear_cell(x, y, dx, dy, m + 1, k);
    }
}

/// Both characterisations at `p`, for all eight directions from `(x, y)`.
pub proof fn lemma_rays_at(pieces: &Pieces, c: PieceColor, x: int, y: int, p: Point)
    requires
        on_board(x, y),
    ensures
        forall|dx: int, dy: int|
            direction(dx, dy) ==> (#[trigger] pieces.ray_quiet(x, y, dx, dy, 7, p) <==> {
                let k = dist(x, y, dx, dy, p);
                &&& on_ray(x, y, dx, dy, p)
                &&& k <= 7
                &&& on_board(p.x as int, p.y as int)
                &&& pieces.clear(x, y, dx, dy, k + 1)
            }),
        forall|dx: int, dy: int|
            direction(dx, dy) ==> (#[trigger] pieces.ray_capture(c, x, y, dx, dy, 7, p) <==> {
                let k = dist(x, y, dx, dy, p);
                &&& on_ray(x, y, dx, dy, p)
                &&& k <= 7
                &&& on_board(p.x as int, p.y as int)
                &&& pieces.clear(x, y, dx, dy, k)
                &&& pieces.enemy_at(c, p.x as int, p.y as int)
            }),
{
    assert forall|dx: int, dy: int| direction(dx, dy) implies (#[trigger] pieces.ray_quiet(
        x,
        y,
        dx,
        dy,
        7,
        p,
    ) <==> {
        let k = dist(x, y, dx, dy, p);
        &&& on_ray(x, y, dx, dy, p)
        &&& k <= 7
        &&& on_board(p.x as int, p.y as int)
        &&& pieces.clear(x, y, dx, dy, k + 1)
    }) by {
        pieces.lemma_ray_quiet_iff(x, y, dx, dy, 7, p);
    }
    assert forall|dx: int, dy: int| direction(dx, dy) implies (#[trigger] pieces.ray_capture(
        c,
        x,
        y,
        dx,
        dy,
        7,
        p,
    ) <==> {
        let k = dist(x, y, dx, dy, p);
        &&& on_ray(x, y, dx, dy, p)
        &&& k <= 7
        &&& on_board(p.x as int, p.y as int)
        &&& pieces.clear(x, y, dx, dy, k)
        &&& pieces.enemy_at(c, p.x as int, p.y as int)
    }) by {
        pieces.lemma_ray_capture_iff(c, x, y, dx, dy, 7, p);
    }
}

/// A rook attacks a piece of the other color on its rank or file exactly when every cell
/// strictly between the two is empty.
pub proof fn lemma_rook_attack_iff_clear(pieces: &Pieces, j: int, k: int)
    requires
        pieces.wf(),
        0 <= j < pieces.count(),
        0 <= k < pieces.count(),
        j != k,
        pieces.types@[j] == Type::Rook,
        pieces.colors@[j] != pieces.colors@[k],
        pieces.locations@[j].x == pieces.locations@[k].x || pieces.locations@[j].y
            == pieces.locations@[k].y,
    ensures
        ({
            let a = pieces.locations@[j];
            let b = pieces.locations@[k];
            attacks(pieces, j, k) <==> pieces.clear(
                a.x as int,
                a.y as int,
                sign(b.x - a.x),
                sign(b.y - a.y),
                zone_len(a, b),
            )
        }),
{
    reveal(Pieces::capture_dest);
    let a = pieces.locations@[j];
    let b = pieces.locations@[k];
    assert(on_board(a.x as int, a.y as int));
    assert(on_board(b.x as int, b.y as int));
    assert(a != b);
    pieces.lemma_unique_at(k, b.x as int, b.y as int);
    lemma_rays_at(pieces, pieces.colors@[j], a.x as int, a.y as int, b);
}

/// A rook, bishop or queen captures only along a rank, file or diagonal through its cell.
pub proof fn lemma_line_capture_aligned(pieces: &Pieces, j: int, p: Point)
    requires
        pieces.wf(),
        0 <= j < pieces.count(),
        is_line_piece(pieces.types@[j]),
        pieces.capture_dest(j, p),
    ensures
        aligned(pieces.locations@[j], p),
{
    reveal(Pieces::capture_dest);
    let a = pieces.locations@[j];
    assert(on_board(a.x as int, a.y as int));
    lemma_rays_at(pieces, pieces.colors@[j], a.x as int, a.y as int, p);
}

/// Two different rays from one cell share no cell.
pub proof fn lemma_two_rays(
    pieces: &Pieces,
    c: PieceColor,
    x: int,
    y: int,
    dx1: int,
    dy1: int,
    dx2: int,
    dy2: int,
    p: Point,
)
    requires
        on_board(x, y),
        direction(dx1, dy1),
        direction(dx2, dy2),
        dx1 != dx2 || dy1 != dy2,
    ensures
        !((pieces.ray_quiet(x, y, dx1, dy1, 7, p) || pieces.ray_capture(c, x, y, dx1, dy1, 7, p)) && (
        pieces.ray_quiet(x, y, dx2, dy2, 7, p) || pieces.ray_capture(c, x, y, dx2, dy2, 7, p))),
{
    pieces.lemma_ray_quiet_iff(x, y, dx1, dy1, 7, p);
    pieces.lemma_ray_capture_iff(c, x, y, dx1, dy1, 7, p);
    pieces.lemma_ray_quiet_iff(x, y, dx2, dy2, 7, p);
    pieces.lemma_ray_capture_iff(c, x, y, dx2, dy2, 7, p);
}

/// Any two different rays from `(x, y)` share no cell.
pub proof fn lemma_rays_disjoint(pieces: &Pieces, c: PieceColor, x: int, y: int)
    requires
        on_board(x, y),
    ensures
        forall|dx1: int, dy1: int, dx2: int, dy2: int, p: Point|
            #![trigger pieces.ray_quiet(x, y, dx1, dy1, 7, p), pieces.ray_quiet(x, y, dx2, dy2, 7, p)]
            #![trigger pieces.ray_quiet(x, y, dx1, dy1, 7, p), pieces.ray_capture(c, x, y, dx2, dy2, 7, p)]
            #![trigger pieces.ray_capture(c, x, y, dx1, dy1, 7, p), pieces.ray_capture(c, x, y, dx2, dy2, 7, p)]
            direction(dx1, dy1) && direction(dx2, dy2) && (dx1 != dx2 || dy1 != dy2) ==> !((
            pieces.ray_quiet(x, y, dx1, dy1, 7, p) || pieces.ray_capture(c, x, y, dx1, dy1, 7, p))
            && (pieces.ray_quiet(x, y, dx2, dy2, 7, p) || pieces.ray_capture(c, x, y, dx2, dy2, 7, p))),
{
    assert forall|dx1: int, dy1: int, dx2: int, dy2: int, p: Point|
            #![trigger pieces.ray_quiet(x, y, dx1, dy1, 7, p), pieces.ray_quiet(x, y, dx2, dy2, 7, p)]
            #![trigger pieces.ray_quiet(x, y, dx1, dy1, 7, p), pieces.ray_capture(c, x, y, dx2, dy2, 7, p)]
            #![trigger pieces.ray_capture(c, x, y, dx1, dy1, 7, p), pieces.ray_capture(c, x, y, dx2, dy2, 7, p)]
            direction(dx1, dy1) && direction(dx2, dy2) && (dx1 != dx2 || dy1 != dy2) implies !((
            pieces.ray_quiet(x, y, dx1, dy1, 7, p) || pieces.ray_capture(c, x, y, dx1, dy1, 7, p))
            && (pieces.ray_quiet(x, y, dx2, dy2, 7, p) || pieces.ray_capture(c, x, y, dx2, dy2, 7, p))) by {
        lemma_two_rays(pieces, c, x, y, dx1, dy1, dx2, dy2, p);
    }
}

/// A rook's, bishop's or queen's quiet moves are exactly the on-board cells along one of its
/// directions whose path, the cell itself included, is empty; its captures are exactly the enemy
/// cells along one of its directions whose path before them is empty. So each direction offers
/// the empty cells up to the first piece, and that piece when it is an enemy.
pub proof fn lemma_line_moves_exact(pieces: &Pieces, i: int, p: Point)
    requires
        pieces.wf(),
        0 <= i < pieces.count(),
        is_line_piece(pieces.types@[i]),
    ensures
        ({
            let x = pieces.locations@[i].x as int;
            let y = pieces.locations@[i].y as int;
            let t = pieces.types@[i];
            pieces.quiet_dest(i, p) <==> exists|dx: int, dy: int| #[trigger]
                walks(t, dx, dy) && on_ray(x, y, dx, dy, p) && on_board(p.x as int, p.y as int)
                    && pieces.clear(x, y, dx, dy, dist(x, y, dx, dy, p) + 1)
        }),
        ({
            let x = pieces.locations@[i].x as int;
            let y = pieces.locations@[i].y as int;
            let t = pieces.types@[i];
            pieces.capture_dest(i, p) <==> exists|dx: int, dy: int| #[trigger]
                walks(t, dx, dy) && on_ray(x, y, dx, dy, p) && on_board(p.x as int, p.y as int)
                    && pieces.clear(x, y, dx, dy, dist(x, y, dx, dy, p)) && pieces.enemy_at(
                    pieces.colors@[i],
                    p.x as int,
                    p.y as int,
                )
        }),
{
    reveal(Pieces::quiet_dest);
    reveal(Pieces::capture_dest);
    let x = pieces.locations@[i].x as int;
    let y = pieces.locations@[i].y as int;
    let t = pieces.types@[i];
    let c = pieces.colors@[i];
    assert(on_board(x, y));
    lemma_rays_at(pieces, c, x, y, p);
    let ds = seq![(0int, -1int), (0, 1), (1, 0), (-1, 0), (-1, -1), (1, -1), (1, 1), (-1, 1)];
    assert forall|dx: int, dy: int| #[trigger] walks(t, dx, dy) implies exists|k: int|
        0 <= k < 8 && ds[k] == (dx, dy) by {
        if dx == 0 && dy == -1 { assert(ds[0] == (dx, dy)); }
        else if dx == 0 && dy == 1 { assert(ds[1] == (dx, dy)); }
        else if dx == 1 && dy == 0 { assert(ds[2] == (dx, dy)); }
        else if dx == -1 && dy == 0 { assert(ds[3] == (dx, dy)); }
        else if dx == -1 && dy == -1 { assert(ds[4] == (dx, dy)); }
        else if dx == 1 && dy == -1 { assert(ds[5] == (dx, dy)); }
        else if dx == 1 && dy == 1 { assert(ds[6] == (dx, dy)); }
        else { assert(ds[7] == (dx, dy)); }
    }
    if pieces.quiet_dest(i, p) {
        let k = choose|k: int|
            0 <= k < 8 && walks(t, ds[k].0, ds[k].1) && pieces.ray_quiet(x, y, ds[k].0, ds[k].1, 7, p);
        assert(walks(t, ds[k].0, ds[k].1));
    }
    if pieces.capture_dest(i, p) {
        let k = choose|k: int|
            0 <= k < 8 && walks(t, ds[k].0, ds[k].1) && pieces.ray_capture(c, x, y, ds[k].0, ds[k].1, 7, p);
        assert(walks(t, ds[k].0, ds[k].1));
    }
}

} // verus!
