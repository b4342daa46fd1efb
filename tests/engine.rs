use pont::board::Board;
use pont::game::Game;
use pont::hand::Hand;
use pont::piece::{Color, Piece, Shape};
use pont::turn::next_active;

const SHAPES: [Shape; 6] = [Shape::Clover, Shape::Star, Shape::Square, Shape::Diamond, Shape::Cross, Shape::Circle];
const COLORS: [Color; 6] = [Color::Orange, Color::Yellow, Color::Green, Color::Red, Color::Blue, Color::Purple];

fn canonical_set() -> Vec<Piece> {
    let mut v = Vec::new();
    for c in COLORS.iter() {
        for s in SHAPES.iter() {
            for _ in 0..3 {
                v.push((*s, *c));
            }
        }
    }
    v
}

fn count_of(v: &[Piece], p: Piece) -> usize {
    v.iter().filter(|q| **q == p).count()
}

fn board_of(cells: &[(Piece, i32, i32)]) -> Board {
    let mut b = Board::new();
    for (p, x, y) in cells {
        b.insert(*x, *y, *p);
    }
    b
}

fn sorted(mut v: Vec<(i32, i32)>) -> Vec<(i32, i32)> {
    v.sort();
    v
}

#[test]
fn new_game_has_full_shuffled_set() {
    let g = Game::new();
    assert_eq!(g.board.len(), 0);
    assert_eq!(g.bag.len(), 108);
    for s in SHAPES.iter() {
        for c in COLORS.iter() {
            assert_eq!(count_of(&g.bag, (*s, *c)), 3);
        }
    }
    // Two fresh games are both in canonical order only by an astronomically small chance.
    let h = Game::new();
    assert!(g.bag != canonical_set() || h.bag != canonical_set());
}

#[test]
fn fresh_game_two_hands_of_six() {
    let mut g = Game::new();
    let a = g.deal(6);
    let b = g.deal(6);
    assert_eq!(a.len(), 6);
    assert_eq!(b.len(), 6);
    assert_eq!(g.bag.len(), 96);
    let mut all = a.to_vec();
    all.extend(b.to_vec());
    all.extend(g.bag.iter().cloned());
    for s in SHAPES.iter() {
        for c in COLORS.iter() {
            assert_eq!(count_of(&all, (*s, *c)), 3);
        }
    }
}

#[test]
fn deal_takes_from_the_top() {
    let mut g = Game::new();
    g.bag = vec![(Shape::Star, Color::Red), (Shape::Cross, Color::Blue), (Shape::Cross, Color::Blue)];
    let h = g.deal(2);
    assert_eq!(h.count((Shape::Cross, Color::Blue)), 2);
    assert_eq!(h.count((Shape::Star, Color::Red)), 0);
    assert_eq!(g.bag, vec![(Shape::Star, Color::Red)]);
}

#[test]
fn deal_more_than_bag_holds() {
    let mut g = Game::new();
    g.bag = vec![(Shape::Star, Color::Red), (Shape::Cross, Color::Blue)];
    let h = g.deal(6);
    assert_eq!(h.len(), 2);
    assert!(g.bag.is_empty());
    let h = g.deal(6);
    assert!(h.is_empty());
}

#[test]
fn deal_zero() {
    let mut g = Game::new();
    let h = g.deal(0);
    assert!(h.is_empty());
    assert_eq!(g.bag.len(), 108);
}

#[test]
fn exchange_succeeds_with_enough_pieces() {
    let mut g = Game::new();
    let top = vec![(Shape::Square, Color::Green), (Shape::Circle, Color::Purple)];
    g.bag = vec![(Shape::Star, Color::Red), top[0], top[1]];
    let offered = vec![(Shape::Clover, Color::Orange), (Shape::Clover, Color::Yellow)];
    let drawn = g.exchange(offered.clone()).unwrap();
    assert_eq!(drawn.len(), 2);
    assert_eq!(count_of(&drawn, top[0]), 1);
    assert_eq!(count_of(&drawn, top[1]), 1);
    assert_eq!(g.bag.len(), 3);
    assert_eq!(count_of(&g.bag, offered[0]), 1);
    assert_eq!(count_of(&g.bag, offered[1]), 1);
    assert_eq!(count_of(&g.bag, (Shape::Star, Color::Red)), 1);
}

#[test]
fn exchange_fails_when_bag_is_short() {
    let mut g = Game::new();
    g.bag = vec![(Shape::Star, Color::Red)];
    let offered = vec![(Shape::Clover, Color::Orange), (Shape::Clover, Color::Yellow)];
    assert!(g.exchange(offered).is_none());
    assert_eq!(g.bag, vec![(Shape::Star, Color::Red)]);
}

#[test]
fn play_places_and_counts() {
    let mut g = Game::new();
    let ps = vec![((Shape::Star, Color::Red), 0, 0), ((Shape::Cross, Color::Red), 1, 0)];
    assert_eq!(g.play(&ps), Some(2));
    assert_eq!(g.board.len(), 2);
    assert_eq!(g.board.get(1, 0), Some((Shape::Cross, Color::Red)));
    assert_eq!(g.board.get(2, 0), None);
}

#[test]
fn play_onto_occupied_cell_fails() {
    let mut g = Game::new();
    g.play(&vec![((Shape::Star, Color::Red), 0, 0)]).unwrap();
    let ps = vec![((Shape::Cross, Color::Red), 1, 0), ((Shape::Circle, Color::Red), 0, 0)];
    assert_eq!(g.play(&ps), None);
    assert_eq!(g.board.len(), 1);
    assert_eq!(g.board.get(1, 0), None);
}

#[test]
fn play_twice_on_one_cell_fails() {
    let mut g = Game::new();
    let ps = vec![((Shape::Cross, Color::Red), 1, 0), ((Shape::Circle, Color::Red), 1, 0)];
    assert_eq!(g.play(&ps), None);
    assert_eq!(g.board.len(), 0);
}

#[test]
fn play_nothing_scores_zero() {
    let mut g = Game::new();
    assert_eq!(g.play(&vec![]), Some(0));
}

#[test]
fn invalid_on_empty_and_valid_boards() {
    assert!(Game::invalid(&Board::new()).is_empty());
    let b = board_of(&[
        ((Shape::Clover, Color::Red), 0, 0),
        ((Shape::Star, Color::Red), 1, 0),
        ((Shape::Square, Color::Red), 2, 0),
        ((Shape::Clover, Color::Blue), 0, 1),
        ((Shape::Clover, Color::Green), 0, 2),
    ]);
    assert!(Game::invalid(&b).is_empty());
}

#[test]
fn invalid_finds_mixed_run() {
    let b = board_of(&[
        ((Shape::Clover, Color::Red), 0, 0),
        ((Shape::Star, Color::Blue), 1, 0),
        ((Shape::Square, Color::Green), 5, 5),
    ]);
    assert_eq!(sorted(Game::invalid(&b)), vec![(0, 0), (1, 0)]);
}

#[test]
fn invalid_finds_duplicate_piece() {
    let b = board_of(&[
        ((Shape::Clover, Color::Red), 0, 0),
        ((Shape::Star, Color::Red), 0, 1),
        ((Shape::Clover, Color::Red), 0, 2),
    ]);
    assert_eq!(sorted(Game::invalid(&b)), vec![(0, 0), (0, 1), (0, 2)]);
}

#[test]
fn invalid_three_pieces_pairwise_sharing() {
    // Each pair shares something, yet the run shares neither one colour nor one shape.
    let b = board_of(&[
        ((Shape::Clover, Color::Red), 0, 0),
        ((Shape::Clover, Color::Blue), 1, 0),
        ((Shape::Star, Color::Blue), 2, 0),
    ]);
    assert_eq!(sorted(Game::invalid(&b)), vec![(0, 0), (1, 0), (2, 0)]);
}

#[test]
fn invalid_gap_splits_runs() {
    let b = board_of(&[
        ((Shape::Clover, Color::Red), 0, 0),
        ((Shape::Star, Color::Red), 1, 0),
        ((Shape::Star, Color::Blue), 3, 0),
        ((Shape::Diamond, Color::Blue), 4, 0),
    ]);
    assert!(Game::invalid(&b).is_empty());
}

#[test]
fn invalid_only_marks_the_bad_column() {
    let b = board_of(&[
        ((Shape::Clover, Color::Red), 0, 0),
        ((Shape::Star, Color::Red), 1, 0),
        ((Shape::Circle, Color::Green), 1, 1),
    ]);
    assert_eq!(sorted(Game::invalid(&b)), vec![(1, 0), (1, 1)]);
}

#[test]
fn invalid_at_coordinate_limits() {
    let b = board_of(&[
        ((Shape::Clover, Color::Red), i32::MAX, 0),
        ((Shape::Star, Color::Blue), i32::MAX - 1, 0),
        ((Shape::Clover, Color::Green), i32::MIN, i32::MIN),
    ]);
    assert_eq!(sorted(Game::invalid(&b)), vec![(i32::MAX - 1, 0), (i32::MAX, 0)]);
}

#[test]
fn linear_cases() {
    assert!(Game::is_linear(&vec![]));
    assert!(Game::is_linear(&vec![(3, 4)]));
    assert!(Game::is_linear(&vec![(0, 0), (1, 0), (5, 0)]));
    assert!(Game::is_linear(&vec![(2, 0), (2, 7), (2, -3)]));
    assert!(!Game::is_linear(&vec![(0, 0), (1, 1)]));
    assert!(!Game::is_linear(&vec![(0, 0), (1, 0), (1, 1)]));
}

#[test]
fn hand_try_remove() {
    let mut h = Hand::from_vec(vec![
        (Shape::Star, Color::Red),
        (Shape::Star, Color::Red),
        (Shape::Cross, Color::Blue),
    ]);
    assert!(!h.try_remove(&vec![(Shape::Cross, Color::Blue), (Shape::Cross, Color::Blue)]));
    assert_eq!(h.len(), 3);
    assert!(h.try_remove(&vec![(Shape::Star, Color::Red), (Shape::Cross, Color::Blue)]));
    assert_eq!(h.len(), 1);
    assert_eq!(h.count((Shape::Star, Color::Red)), 1);
    assert!(!h.try_remove(&vec![(Shape::Circle, Color::Orange)]));
    assert!(h.try_remove(&vec![]));
    assert_eq!(h.len(), 1);
}

#[test]
fn next_active_skips_disconnected() {
    assert_eq!(next_active(&vec![true, false, true], 0), 2);
    assert_eq!(next_active(&vec![true, false, true], 2), 0);
    assert_eq!(next_active(&vec![false, true, false], 1), 1);
    assert_eq!(next_active(&vec![true, true], 1), 0);
}
