use fuenfzehn::{Game, Input, Outcome, Pattern};

fn is_permutation(p: &Pattern) -> bool {
    let n = p.get_last_tile();
    let mut seen = vec![false; n + 1];
    for &v in p.order() {
        let v = v as usize;
        if v == 0 || v > n || seen[v] {
            return false;
        }
        seen[v] = true;
    }
    p.order().len() == n
}

fn blank_index(p: &Pattern) -> usize {
    let last = p.get_last_tile();
    p.order().iter().position(|&v| v as usize == last).unwrap()
}

#[test]
fn new_board_is_identity() {
    let p = Pattern::new(3);
    assert_eq!(p.order(), &[1, 2, 3, 4, 5, 6, 7, 8, 9][..]);
    assert_eq!(p.get_last_tile(), 9);
    assert!(p.is_in_order());
}

#[test]
fn smallest_board() {
    let mut p = Pattern::new(2);
    assert_eq!(p.order(), &[1, 2, 3, 4][..]);
    p.up();
    assert_eq!(p.order(), &[1, 4, 3, 2][..]);
    p.left();
    assert_eq!(p.order(), &[4, 1, 3, 2][..]);
    assert!(!p.is_in_order());
}

#[test]
fn largest_board() {
    let p = Pattern::new(15);
    assert_eq!(p.get_last_tile(), 225);
    assert_eq!(p.order().len(), 225);
    assert_eq!(p.order()[224], 225);
    assert!(p.is_in_order());
    assert_eq!(p.get_row(14).unwrap()[14], 225);
    assert_eq!(p.get_row(15), None);
}

#[test]
fn get_row_out_of_range() {
    let p = Pattern::new(5);
    assert_eq!(p.get_row(5), None);
    assert_eq!(p.get_row(0), Some(&[1, 2, 3, 4, 5][..]));
    assert_eq!(p.get_row(4), Some(&[21, 22, 23, 24, 25][..]));
}

#[test]
fn edge_moves_change_nothing() {
    let mut p = Pattern::new(4);
    p.down();
    assert!(p.is_in_order());
    p.right();
    assert!(p.is_in_order());
    for _ in 0..3 {
        p.up();
        p.left();
    }
    let top_left: Vec<u8> = p.order().to_vec();
    assert_eq!(top_left[0], 16);
    p.up();
    assert_eq!(p.order(), &top_left[..]);
    p.left();
    assert_eq!(p.order(), &top_left[..]);
}

#[test]
fn move_then_inverse_restores() {
    let mut p = Pattern::new(4);
    p.up();
    p.left();
    let before: Vec<u8> = p.order().to_vec();
    p.up();
    p.down();
    assert_eq!(p.order(), &before[..]);
    p.down();
    p.up();
    assert_eq!(p.order(), &before[..]);
    p.left();
    p.right();
    assert_eq!(p.order(), &before[..]);
    p.right();
    p.left();
    assert_eq!(p.order(), &before[..]);
}

#[test]
fn one_move_from_solved_is_out_of_order() {
    let mut a = Pattern::new(3);
    a.up();
    assert!(!a.is_in_order());
    let mut b = Pattern::new(3);
    b.left();
    assert!(!b.is_in_order());
}

#[test]
fn scramble_step_picks_direction_by_draw() {
    let mut p = Pattern::new(3);
    p.scramble_step(4);
    assert_eq!(p.order(), &[1, 2, 3, 4, 5, 9, 7, 8, 6][..]);
    p.scramble_step(3);
    assert_eq!(p.order(), &[1, 2, 3, 4, 9, 5, 7, 8, 6][..]);
    p.scramble_step(254);
    assert_eq!(p.order(), &[1, 2, 3, 4, 5, 9, 7, 8, 6][..]);
    p.scramble_step(1);
    assert_eq!(p.order(), &[1, 2, 3, 4, 5, 6, 7, 8, 9][..]);
}

#[test]
fn shuffle_keeps_a_permutation() {
    let mut p = Pattern::new(4);
    p.shuffle(500);
    assert!(is_permutation(&p));
    assert_eq!(p.order()[blank_index(&p)], 16);
    let mut q = Pattern::new(4);
    q.shuffle(0);
    assert!(q.is_in_order());
}

#[test]
fn concrete_up_down_scenario() {
    let mut p = Pattern::new(4);
    let solved: Vec<u8> = (1..=16).collect();
    assert_eq!(p.order(), &solved[..]);
    p.up();
    assert_eq!(p.order()[15], 12);
    assert_eq!(p.order()[11], 16);
    assert!(!p.is_in_order());
    p.down();
    assert_eq!(p.order(), &solved[..]);
    assert!(p.is_in_order());
}

#[test]
fn game_starts_scrambled_and_valid() {
    let g = Game::new(3);
    assert_eq!(g.pattern().size, 3);
    assert!(is_permutation(g.pattern()));
}

#[test]
fn game_handles_keys() {
    let mut g = Game::new(2);
    assert_eq!(g.handle(Input::Quit), Outcome::Quit);
    let mut moved = 0;
    for _ in 0..10 {
        let before: Vec<u8> = g.pattern().order().to_vec();
        let out = g.handle(Input::Other);
        assert_eq!(g.pattern().order(), &before[..]);
        assert!(out == Outcome::Ignored || out == Outcome::Solved);
        let out = g.handle(Input::Down);
        if g.pattern().is_in_order() {
            assert_eq!(out, Outcome::Solved);
        } else {
            assert_eq!(out, Outcome::Moved);
            moved += 1;
        }
        g.handle(Input::Right);
    }
    assert!(moved > 0);
    assert!(is_permutation(g.pattern()));
}

#[test]
fn arrow_moves_blank_the_other_way() {
    let mut g = Game::new(4);
    let before: Vec<u8> = g.pattern().order().to_vec();
    let blank = blank_index(g.pattern());
    let out = g.handle(Input::Down);
    let after = g.pattern().order();
    if blank >= 4 {
        assert_eq!(after[blank - 4], 16);
        assert_eq!(after[blank], before[blank - 4]);
    } else {
        assert_eq!(after, &before[..]);
    }
    assert!(out == Outcome::Moved || out == Outcome::Solved);
}
