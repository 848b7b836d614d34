use chess::game::{check_moves, is_guarded, play_moves, Game};
use chess::pieces::{PieceColor, Pieces, Point, Type};
use chess::squares::Squares;
use chess::state::{get_danger_zone, is_king_endangered, State};

fn pt(x: u32, y: u32) -> Point {
    Point { x, y }
}

fn board(items: &[(Type, PieceColor, u32, u32)]) -> Pieces {
    let mut p = Pieces { locations: vec![], colors: vec![], types: vec![], first_move: vec![] };
    for (t, c, x, y) in items.iter().copied() {
        p.types.push(t);
        p.colors.push(c);
        p.locations.push(pt(x, y));
        p.first_move.push(false);
    }
    p
}

fn squares() -> Squares {
    Squares { points: vec![] }.create().unwrap()
}

fn game_on(pieces: Pieces) -> Game {
    Game {
        pieces,
        state: State::Play,
        selected: None,
        moves: vec![],
        kills: vec![],
        predators: vec![],
        prey: usize::MAX,
        danger_zone: vec![],
    }
}

fn play(g: &mut Game, s: &Squares, from: Point, to: Point) -> bool {
    assert!(!g.click(s, from));
    g.click(s, to)
}

#[test]
fn rook_on_open_file_gives_check() {
    let mut p = board(&[
        (Type::King, PieceColor::Black, 4, 7),
        (Type::King, PieceColor::White, 0, 0),
        (Type::Rook, PieceColor::White, 4, 1),
    ]);
    let mut preds = vec![];
    let (found, prey) = is_king_endangered(&squares(), &mut p, &mut preds);
    assert!(found);
    assert_eq!(preds, vec![2]);
    assert_eq!(prey, 0);
}

#[test]
fn piece_in_the_path_lifts_check() {
    for y in 2..7 {
        let mut p = board(&[
            (Type::King, PieceColor::Black, 4, 7),
            (Type::King, PieceColor::White, 0, 0),
            (Type::Rook, PieceColor::White, 4, 1),
            (Type::Knight, PieceColor::White, 4, y),
        ]);
        let mut preds = vec![];
        let (found, prey) = is_king_endangered(&squares(), &mut p, &mut preds);
        assert!(!found);
        assert!(preds.is_empty());
        assert_eq!(prey, usize::MAX);
    }
}

#[test]
fn state_scan_records_every_attacker() {
    let mut p = board(&[
        (Type::King, PieceColor::Black, 4, 7),
        (Type::King, PieceColor::White, 0, 0),
        (Type::Knight, PieceColor::White, 3, 5),
        (Type::Rook, PieceColor::White, 4, 1),
    ]);
    let mut state = State::Play;
    let mut preds = vec![];
    let mut prey: usize = 99;
    let r = state.is_king_endangered(&squares(), &mut p, &mut preds, &mut prey);
    assert_eq!(r, State::Check);
    assert_eq!(preds, vec![2, 3]);
    assert_eq!(prey, 0);
    assert_eq!(state, State::Play);
    let mut quiet = board(&[
        (Type::King, PieceColor::Black, 4, 7),
        (Type::King, PieceColor::White, 0, 0),
    ]);
    let mut preds = vec![];
    let r = state.is_king_endangered(&squares(), &mut quiet, &mut preds, &mut prey);
    assert_eq!(r, State::Play);
    assert!(preds.is_empty());
    assert_eq!(prey, 0);
}

#[test]
fn danger_zone_of_line_and_leaping_attackers() {
    let p = board(&[
        (Type::Rook, PieceColor::White, 0, 0),
        (Type::Bishop, PieceColor::White, 6, 1),
        (Type::Knight, PieceColor::White, 5, 5),
        (Type::Queen, PieceColor::White, 3, 3),
    ]);
    let mut zone = vec![];
    get_danger_zone(&p, &mut zone, &pt(0, 4), &0);
    assert_eq!(zone, vec![pt(0, 0), pt(0, 1), pt(0, 2), pt(0, 3)]);
    let mut zone = vec![];
    get_danger_zone(&p, &mut zone, &pt(3, 4), &1);
    assert_eq!(zone, vec![pt(6, 1), pt(5, 2), pt(4, 3)]);
    let mut zone = vec![];
    get_danger_zone(&p, &mut zone, &pt(6, 7), &2);
    assert_eq!(zone, vec![pt(5, 5)]);
    let mut zone = vec![];
    get_danger_zone(&p, &mut zone, &pt(7, 3), &3);
    assert_eq!(zone, vec![pt(3, 3), pt(4, 3), pt(5, 3), pt(6, 3)]);
}

#[test]
fn opening_then_queen_check() {
    let s = squares();
    let mut g = Game::new();
    assert!(play(&mut g, &s, pt(1, 1), pt(1, 3)));
    assert_eq!(g.state, State::Play);
    assert!(play(&mut g, &s, pt(4, 6), pt(4, 4)));
    assert_eq!(g.state, State::Play);
    assert!(play(&mut g, &s, pt(5, 1), pt(5, 2)));
    assert_eq!(g.state, State::Play);
    assert!(play(&mut g, &s, pt(4, 0), pt(7, 3)));
    assert_eq!(g.state, State::Check);
    assert_eq!(g.predators, vec![4]);
    assert_eq!(g.pieces.types[4], Type::Queen);
    assert_eq!(g.pieces.locations[g.prey], pt(3, 7));
    assert_eq!(g.danger_zone, vec![pt(7, 3), pt(6, 4), pt(5, 5), pt(4, 6)]);
}

#[test]
fn check_answers_block_capture_or_step_aside() {
    let s = squares();
    let mut g = Game::new();
    assert!(play(&mut g, &s, pt(4, 6), pt(4, 4)));
    assert!(play(&mut g, &s, pt(5, 1), pt(5, 2)));
    assert!(play(&mut g, &s, pt(4, 0), pt(7, 3)));
    assert_eq!(g.state, State::Check);
    // A White piece cannot be selected while Black is in check.
    assert!(!g.click(&s, pt(0, 1)));
    assert_eq!(g.selected, None);
    // The pawn on (0,6) has no answer: its moves are off the line.
    assert!(!g.click(&s, pt(0, 6)));
    assert!(g.moves.is_empty() && g.kills.is_empty());
    assert!(!g.click(&s, pt(0, 5)));
    assert_eq!(g.pieces.locations[16], pt(0, 6));
    assert_eq!(g.state, State::Check);
    // The pawn on (6,6) may block only with its double step.
    assert!(!g.click(&s, pt(6, 6)));
    assert_eq!(g.moves, vec![pt(6, 4)]);
    assert!(!g.click(&s, pt(6, 5)));
    // The knight on (6,7) blocks on (5,5) or (4,6).
    assert!(!g.click(&s, pt(6, 7)));
    assert_eq!(g.moves.len(), 2);
    assert!(g.moves.contains(&pt(5, 5)) && g.moves.contains(&pt(4, 6)));
    assert!(g.click(&s, pt(5, 5)));
    assert_eq!(g.state, State::Play);
    assert!(g.predators.is_empty());
}

#[test]
fn double_check_only_king_moves() {
    let s = squares();
    let mut g = game_on(board(&[
        (Type::King, PieceColor::Black, 4, 7),
        (Type::Rook, PieceColor::Black, 0, 7),
        (Type::King, PieceColor::White, 7, 0),
        (Type::Rook, PieceColor::White, 4, 0),
        (Type::Knight, PieceColor::White, 4, 3),
    ]));
    assert!(play(&mut g, &s, pt(4, 3), pt(3, 5)));
    assert_eq!(g.state, State::Check);
    assert_eq!(g.predators, vec![3, 4]);
    assert_eq!(g.prey, 0);
    // The black rook could move before, but not now.
    assert!(!g.click(&s, pt(0, 7)));
    assert_eq!(g.selected, Some(pt(0, 7)));
    assert!(g.moves.is_empty() && g.kills.is_empty());
    assert!(!g.click(&s, pt(0, 6)));
    assert_eq!(g.pieces.locations[1], pt(0, 7));
    assert_eq!(g.state, State::Check);
    // The king steps off the file.
    assert!(!g.click(&s, pt(4, 7)));
    assert!(g.moves.contains(&pt(5, 7)));
    assert!(!g.moves.contains(&pt(4, 6)));
    assert!(g.click(&s, pt(5, 7)));
    assert_eq!(g.state, State::Play);
}

#[test]
fn check_moves_single_attacker() {
    let p = board(&[
        (Type::King, PieceColor::Black, 4, 7),
        (Type::Bishop, PieceColor::Black, 2, 7),
        (Type::Rook, PieceColor::Black, 7, 2),
        (Type::Rook, PieceColor::White, 4, 2),
        (Type::King, PieceColor::White, 0, 0),
    ]);
    let s = squares();
    let preds = vec![3];
    let zone = vec![pt(4, 2), pt(4, 3), pt(4, 4), pt(4, 5), pt(4, 6)];
    let (q, k) = check_moves(&p, &s, 1, &preds, 0, &zone);
    assert_eq!(q, vec![pt(4, 5)]);
    assert!(k.is_empty());
    let (q, k) = check_moves(&p, &s, 2, &preds, 0, &zone);
    assert!(q.is_empty());
    assert_eq!(k, vec![pt(4, 2)]);
    let (q, k) = check_moves(&p, &s, 0, &preds, 0, &zone);
    let mut q: Vec<(u32, u32)> = q.iter().map(|c| (c.x, c.y)).collect();
    q.sort();
    assert_eq!(q, vec![(3, 6), (3, 7), (5, 6), (5, 7)]);
    assert!(k.is_empty());
    let two = vec![3, 4];
    let (q, k) = check_moves(&p, &s, 2, &two, 0, &zone);
    assert!(q.is_empty() && k.is_empty());
}

#[test]
fn empty_click_selects_nothing() {
    let s = squares();
    let mut g = Game::new();
    assert!(!g.click(&s, pt(4, 4)));
    assert_eq!(g.selected, None);
    assert!(!g.click(&s, pt(1, 1)));
    assert_eq!(g.selected, Some(pt(1, 1)));
    assert!(!g.click(&s, pt(1, 1)));
    assert_eq!(g.selected, None);
    assert_eq!(g.pieces.locations[9], pt(1, 1));
}

#[test]
fn king_avoids_threatened_cells_in_play() {
    let p = board(&[
        (Type::King, PieceColor::White, 4, 0),
        (Type::Rook, PieceColor::Black, 3, 7),
        (Type::Pawn, PieceColor::Black, 6, 2),
        (Type::Knight, PieceColor::White, 0, 0),
    ]);
    let s = squares();
    assert!(is_guarded(&p, &s, PieceColor::White, &pt(3, 1)));
    assert!(is_guarded(&p, &s, PieceColor::White, &pt(5, 1)));
    assert!(!is_guarded(&p, &s, PieceColor::White, &pt(4, 1)));
    assert!(is_guarded(&p, &s, PieceColor::Black, &pt(2, 1)));
    assert!(!is_guarded(&p, &s, PieceColor::Black, &pt(7, 7)));
    let (q, k) = play_moves(&p, &s, 0);
    let mut q: Vec<(u32, u32)> = q.iter().map(|c| (c.x, c.y)).collect();
    q.sort();
    assert_eq!(q, vec![(4, 1), (5, 0)]);
    assert!(k.is_empty());
    let (q, _) = play_moves(&p, &s, 3);
    assert_eq!(q.len(), 2);
    let mut g = game_on(p);
    assert!(!g.click(&s, pt(4, 0)));
    assert!(!g.moves.contains(&pt(3, 0)));
    assert!(g.moves.contains(&pt(5, 0)));
}
