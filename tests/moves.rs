use chess::pieces::{PieceColor, Pieces, Point, Type};
use chess::squares::Squares;

fn pt(x: u32, y: u32) -> Point {
    Point { x, y }
}

fn board(items: &[(Type, PieceColor, u32, u32, bool)]) -> Pieces {
    let mut p = Pieces { locations: vec![], colors: vec![], types: vec![], first_move: vec![] };
    for (t, c, x, y, first) in items.iter().copied() {
        p.types.push(t);
        p.colors.push(c);
        p.locations.push(pt(x, y));
        p.first_move.push(first);
    }
    p
}

fn squares() -> Squares {
    Squares { points: vec![] }.create().unwrap()
}

fn sorted(mut v: Vec<Point>) -> Vec<(u32, u32)> {
    let mut r: Vec<(u32, u32)> = v.drain(..).map(|p| (p.x, p.y)).collect();
    r.sort();
    r
}

fn start() -> Pieces {
    Pieces { locations: vec![], colors: vec![], types: vec![], first_move: vec![] }.create().unwrap()
}

#[test]
fn start_position_layout() {
    let p = start();
    assert_eq!(p.locations.len(), 32);
    assert_eq!(p.types[3], Type::King);
    assert_eq!(p.types[4], Type::Queen);
    assert_eq!(p.locations[4], pt(4, 0));
    assert_eq!(p.colors[4], PieceColor::White);
    assert_eq!(p.types[8], Type::Pawn);
    assert_eq!(p.locations[8], pt(0, 1));
    assert_eq!(p.locations[16], pt(0, 6));
    assert_eq!(p.colors[16], PieceColor::Black);
    assert_eq!(p.types[27], Type::King);
    assert_eq!(p.locations[27], pt(3, 7));
    assert!(p.first_move.iter().all(|f| *f));
}

#[test]
fn squares_table_is_row_major() {
    let s = squares();
    assert_eq!(s.points.len(), 64);
    assert_eq!(s.points[0], pt(0, 0));
    assert_eq!(s.points[9], pt(1, 1));
    assert_eq!(s.points[63], pt(7, 7));
}

#[test]
fn check_by_point_finds_slot() {
    let p = start();
    assert_eq!(p.check_by_point(0, 4), Some(4));
    assert_eq!(p.check_by_point(7, 3), Some(27));
    assert_eq!(p.check_by_point(4, 4), None);
}

#[test]
fn valid_moves_classifies_cells() {
    let p = start();
    let mut quiet = vec![];
    let mut kills = vec![];
    assert!(!p.valid_moves(&PieceColor::White, &mut quiet, &mut kills, 3, 3));
    assert_eq!(quiet, vec![pt(3, 3)]);
    assert!(kills.is_empty());
    assert!(p.valid_moves(&PieceColor::White, &mut quiet, &mut kills, 6, 2));
    assert_eq!(kills, vec![pt(2, 6)]);
    assert!(p.valid_moves(&PieceColor::White, &mut quiet, &mut kills, 1, 2));
    assert_eq!(quiet.len(), 1);
    assert_eq!(kills.len(), 1);
}

#[test]
fn start_position_moves() {
    let p = start();
    let s = squares();
    // Pawns step one or two; knights jump; the rest are hemmed in.
    let (q, k) = p.possible_moves(&s, 9);
    assert_eq!(sorted(q), vec![(1, 2), (1, 3)]);
    assert!(k.is_empty());
    let (q, _) = p.possible_moves(&s, 1);
    assert_eq!(sorted(q), vec![(0, 2), (2, 2)]);
    let (q, k) = p.possible_moves(&s, 0);
    assert!(q.is_empty() && k.is_empty());
    let (q, _) = p.possible_moves(&s, 17);
    assert_eq!(sorted(q), vec![(1, 4), (1, 5)]);
}

#[test]
fn rook_stops_before_own_piece() {
    let p = board(&[
        (Type::Rook, PieceColor::White, 0, 0, true),
        (Type::Pawn, PieceColor::White, 0, 3, true),
        (Type::Pawn, PieceColor::Black, 3, 0, true),
    ]);
    let (q, k) = p.possible_moves(&squares(), 0);
    assert_eq!(sorted(q), vec![(0, 1), (0, 2), (1, 0), (2, 0)]);
    assert_eq!(sorted(k), vec![(3, 0)]);
}

#[test]
fn bishop_and_queen_rays() {
    let p = board(&[
        (Type::Bishop, PieceColor::White, 2, 2, false),
        (Type::Pawn, PieceColor::Black, 4, 4, false),
        (Type::Queen, PieceColor::Black, 7, 7, false),
    ]);
    let s = squares();
    let (q, k) = p.possible_moves(&s, 0);
    assert_eq!(sorted(q), vec![(0, 0), (0, 4), (1, 1), (1, 3), (3, 1), (3, 3), (4, 0)]);
    assert_eq!(sorted(k), vec![(4, 4)]);
    let (q, k) = p.possible_moves(&s, 2);
    assert_eq!(q.len(), 7 + 7 + 2);
    assert!(k.is_empty());
    assert!(!q.contains(&pt(4, 4)) && !q.contains(&pt(3, 3)));
}

#[test]
fn knight_in_corner() {
    let p = board(&[(Type::Knight, PieceColor::White, 0, 0, true)]);
    let (q, k) = p.possible_moves(&squares(), 0);
    assert_eq!(sorted(q), vec![(1, 2), (2, 1)]);
    assert!(k.is_empty());
}

#[test]
fn knight_jumps_over_and_skips_own_color() {
    let p = board(&[
        (Type::Knight, PieceColor::White, 0, 0, true),
        (Type::Pawn, PieceColor::White, 0, 1, true),
        (Type::Pawn, PieceColor::White, 1, 0, true),
        (Type::Pawn, PieceColor::White, 1, 2, true),
        (Type::Pawn, PieceColor::Black, 2, 1, true),
    ]);
    let (q, k) = p.possible_moves(&squares(), 0);
    assert!(q.is_empty());
    assert_eq!(sorted(k), vec![(2, 1)]);
}

#[test]
fn king_steps_one_cell() {
    let p = board(&[
        (Type::King, PieceColor::Black, 7, 7, false),
        (Type::Pawn, PieceColor::Black, 6, 6, false),
        (Type::Pawn, PieceColor::White, 7, 6, false),
    ]);
    let (q, k) = p.possible_moves(&squares(), 0);
    assert_eq!(sorted(q), vec![(6, 7)]);
    assert_eq!(sorted(k), vec![(7, 6)]);
}

#[test]
fn pawn_double_step_needs_both_cells_empty() {
    let s = squares();
    let open = board(&[(Type::Pawn, PieceColor::White, 4, 1, true)]);
    assert_eq!(sorted(open.possible_moves(&s, 0).0), vec![(4, 2), (4, 3)]);
    let far = board(&[
        (Type::Pawn, PieceColor::White, 4, 1, true),
        (Type::Pawn, PieceColor::Black, 4, 3, true),
    ]);
    assert_eq!(sorted(far.possible_moves(&s, 0).0), vec![(4, 2)]);
    let near = board(&[
        (Type::Pawn, PieceColor::White, 4, 1, true),
        (Type::Knight, PieceColor::Black, 4, 2, true),
    ]);
    assert!(near.possible_moves(&s, 0).0.is_empty());
    let moved = board(&[(Type::Pawn, PieceColor::Black, 4, 5, false)]);
    assert_eq!(sorted(moved.possible_moves(&s, 0).0), vec![(4, 4)]);
}

#[test]
fn pawn_captures_diagonally_forward_only() {
    let p = board(&[
        (Type::Pawn, PieceColor::White, 0, 3, false),
        (Type::Pawn, PieceColor::Black, 1, 4, false),
        (Type::Pawn, PieceColor::Black, 1, 2, false),
        (Type::Pawn, PieceColor::Black, 0, 4, false),
    ]);
    let (q, k) = p.possible_moves(&squares(), 0);
    assert!(q.is_empty());
    assert_eq!(sorted(k), vec![(1, 4)]);
    let (q, k) = p.possible_moves(&squares(), 1);
    assert_eq!(sorted(q), vec![(1, 3)]);
    assert_eq!(sorted(k), vec![(0, 3)]);
}

#[test]
fn moves_never_hit_own_cell_or_color_and_are_disjoint() {
    let p = start();
    let s = squares();
    for i in 0..p.locations.len() {
        let (q, k) = p.possible_moves(&s, i);
        for c in q.iter().chain(k.iter()) {
            assert_ne!(*c, p.locations[i]);
            if let Some(j) = p.check_by_point(c.y, c.x) {
                assert_ne!(p.colors[j], p.colors[i]);
            }
        }
        assert!(q.iter().all(|c| !k.contains(c)));
    }
}

#[test]
fn move_piece_quiet_move() {
    let mut p = start();
    let s = squares();
    let (q, k) = p.possible_moves(&s, 9);
    assert_eq!(p.move_piece(&q, &k, &pt(1, 1), &pt(1, 3)), Ok(true));
    assert_eq!(p.locations[9], pt(1, 3));
    assert!(!p.first_move[9]);
    assert_eq!(p.locations.len(), 32);
}

#[test]
fn move_piece_rejects_same_cell_and_illegal_cell() {
    let mut p = start();
    let s = squares();
    let (q, k) = p.possible_moves(&s, 9);
    assert_eq!(p.move_piece(&q, &k, &pt(1, 1), &pt(1, 1)), Ok(false));
    assert_eq!(p.move_piece(&q, &k, &pt(1, 1), &pt(1, 4)), Ok(false));
    assert_eq!(p.locations[9], pt(1, 1));
    assert!(p.first_move[9]);
}

#[test]
fn move_piece_capture_removes_victim() {
    let mut p = board(&[
        (Type::Pawn, PieceColor::Black, 5, 5, false),
        (Type::Rook, PieceColor::White, 5, 0, true),
        (Type::King, PieceColor::White, 0, 0, true),
    ]);
    let (q, k) = p.possible_moves(&squares(), 1);
    assert_eq!(sorted(k.clone()), vec![(5, 5)]);
    assert_eq!(p.move_piece(&q, &k, &pt(5, 0), &pt(5, 5)), Ok(true));
    assert_eq!(p.locations.len(), 2);
    assert_eq!(p.types, vec![Type::Rook, Type::King]);
    assert_eq!(p.locations[0], pt(5, 5));
    assert_eq!(p.colors[0], PieceColor::White);
    assert!(!p.first_move[0]);
}

#[test]
fn possible_check_moves_filters_by_zone() {
    let mut p = board(&[
        (Type::Rook, PieceColor::White, 0, 2, false),
        (Type::King, PieceColor::White, 7, 7, false),
    ]);
    let s = squares();
    let zone = vec![pt(3, 2), pt(4, 4), pt(0, 0)];
    assert_eq!(sorted(p.possible_check_moves(&s, 0, &zone, &vec![5])), vec![(0, 0), (3, 2)]);
    // The king may step anywhere outside the zone.
    assert_eq!(sorted(p.possible_check_moves(&s, 1, &vec![pt(6, 6)], &vec![5])), vec![(6, 7), (7, 6)]);
}

#[test]
fn possible_check_moves_double_check_leaves_king_only() {
    let mut p = board(&[
        (Type::Rook, PieceColor::White, 0, 2, false),
        (Type::King, PieceColor::White, 7, 7, false),
    ]);
    let s = squares();
    let zone = vec![pt(3, 2), pt(0, 0), pt(6, 6)];
    assert!(p.possible_check_moves(&s, 0, &zone, &vec![5, 6]).is_empty());
    assert_eq!(sorted(p.possible_check_moves(&s, 1, &zone, &vec![5, 6])), vec![(6, 7), (7, 6)]);
}

#[test]
fn pawn_blocked_two_step_offers_exactly_one_step() {
    let p = board(&[
        (Type::Pawn, PieceColor::White, 1, 1, true),
        (Type::Pawn, PieceColor::Black, 1, 3, false),
        (Type::King, PieceColor::White, 3, 0, false),
        (Type::King, PieceColor::Black, 3, 7, false),
    ]);
    let (q, k) = p.possible_moves(&squares(), 0);
    assert_eq!(q, vec![pt(1, 2)]);
    assert!(k.is_empty());
}

#[test]
fn queen_moves_hold_no_repeats() {
    let p = board(&[(Type::Queen, PieceColor::White, 3, 4, false)]);
    let (q, k) = p.possible_moves(&squares(), 0);
    let mut all = sorted(q.clone());
    all.dedup();
    assert_eq!(all.len(), q.len());
    assert_eq!(q.len(), 7 + 7 + 6 + 7);
    assert!(k.is_empty());
}
