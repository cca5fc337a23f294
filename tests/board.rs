use polytiles::board::{Board, Solution};
use polytiles::polyominos::{generate_all_polyominos, Polyomino};
use polytiles::search::{all_tilings, distinct_tilings, RestrictedBoard};
use polytiles::symmetry::Symmetry;

fn find_poly(catalog: &[Polyomino], coords: Vec<(i8, i8)>) -> &Polyomino {
    for poly in catalog.iter() {
        if poly.coords().to_vec() == coords {
            return poly;
        }
    }
    panic!("Can't find poly with coords: {:?}", coords);
}

#[test]
fn test_add() {
    let catalog = generate_all_polyominos(4);
    // XX
    // X
    // X
    let leg = find_poly(&catalog, vec![(0, 0), (0, 1), (0, 2), (1, 0)]);

    //  X
    // XX
    let corner = find_poly(&catalog, vec![(-1, 1), (0, 0), (0, 1)]);

    // XX
    let flat = find_poly(&catalog, vec![(0, 0), (1, 0)]);

    // 001
    // 011
    // 022
    let mut board = Board::new(3, 3);
    assert_eq!(board.add(leg), true);
    assert_eq!(board.add(corner), true);
    assert_eq!(board.add(flat), true);

    let expected_cells = vec![
        Some(0), Some(0), Some(1),
        Some(0), Some(1), Some(1),
        Some(0), Some(2), Some(2)
    ];
    assert_eq!(board.cells, expected_cells);
    assert_eq!(board.polyominos, vec![leg.clone(), corner.clone(), flat.clone()]);
    assert_eq!(board.is_full(), true);

    assert_eq!(board.to_string(), "001\n011\n022")
}

#[test]
fn test_solution() {
    let catalog = generate_all_polyominos(4);
    // XX
    // X
    // X
    let leg = find_poly(&catalog, vec![(0, 0), (0, 1), (0, 2), (1, 0)]);

    //  X
    // XX
    let corner = find_poly(&catalog, vec![(-1, 1), (0, 0), (0, 1)]);

    // XX
    let flat = find_poly(&catalog, vec![(0, 0), (1, 0)]);

    // 001
    // 011
    // 022
    let board = Board::from_solution(3, 3, &Solution(vec![leg.clone(), corner.clone(), flat.clone()])).unwrap();

    let no_change_symmetry = Symmetry::from_flips(false, false, false);
    assert_eq!(
        board.symmetric_board_polyominos(no_change_symmetry, &catalog),
        Solution(vec![leg.clone(), corner.clone(), flat.clone()])
    );

    // X
    // X
    let flat = find_poly(&catalog, vec![(0, 0), (0, 1)]);

    // XX
    // X
    let corner = find_poly(&catalog, vec![(0, 0), (0, 1), (1, 0)]);

    //   X
    // XXX
    let leg = find_poly(&catalog, vec![(-2, 1), (-1, 1), (0, 0), (0, 1)]);

    // 011
    // 012
    // 222
    let better_board = Board::from_solution(3, 3, &Solution(vec![flat.clone(), corner.clone(), leg.clone()])).unwrap();

    let better_board_symmetry = Symmetry::from_flips(true, true, true);
    assert_eq!(board.symmetric_board_polyominos(better_board_symmetry, &catalog).0, better_board.polyominos);

    assert_eq!(board.cannonical_form(&catalog).0, better_board.polyominos);
    assert_eq!(better_board.cannonical_form(&catalog).0, better_board.polyominos);
}

#[test]
fn regression_test_solution() {
    let catalog = generate_all_polyominos(4);
    // XXX
    // X
    let leg = find_poly(&catalog, vec![(0, 0), (0, 1), (1, 0), (2, 0)]);

    //  XX
    // XX
    let zig = find_poly(&catalog, vec![(-1, 1), (0, 0), (0, 1), (1, 0)]);

    // X
    let unit = find_poly(&catalog, vec![(0, 0)]);

    // 000
    // 011
    // 112
    let board = Board::from_solution(3, 3, &Solution(vec![leg.clone(), zig.clone(), unit.clone()])).unwrap();

    let no_change_symmetry = Symmetry::from_flips(false, false, false);
    assert_eq!(
        board.symmetric_board_polyominos(no_change_symmetry, &catalog),
        Solution(vec![leg.clone(), zig.clone(), unit.clone()])
    );

    //  X
    //  X
    // XX
    let leg = find_poly(&catalog, vec![(-1, 2), (0, 0), (0, 1), (0, 2)]);

    //  X
    // XX
    // X
    let zig = find_poly(&catalog, vec![(-1, 1), (-1, 2), (0, 0), (0, 1)]);

    // 012
    // 112
    // 122
    let better_board = Board::from_solution(3, 3, &Solution(vec![unit.clone(), zig.clone(), leg.clone()])).unwrap();

    let better_board_symmetry = Symmetry::from_flips(true, true, true);
    assert_eq!(board.symmetric_board_polyominos(better_board_symmetry, &catalog).0, better_board.polyominos);

    assert_eq!(board.cannonical_form(&catalog).0, better_board.polyominos);
    assert_eq!(better_board.cannonical_form(&catalog).0, better_board.polyominos);
}

#[test]
fn get_set_and_rejections() {
    let catalog = generate_all_polyominos(4);
    let mut board = Board::new(2, 1);
    assert_eq!(board.get(0, 0), Some(None));
    assert_eq!(board.get(2, 0), None);
    assert_eq!(board.get(-1, 0), None);
    let tall = find_poly(&catalog, vec![(0, 0), (0, 1)]);
    // Out of bounds: nothing changes.
    assert_eq!(board.add(tall), false);
    assert_eq!(board.add_clone(tall).is_none(), true);
    assert_eq!(board.polyominos.len(), 0);
    board.set(1, 0, Some(7));
    assert_eq!(board.get(1, 0), Some(Some(7)));
    assert_eq!(board.is_full(), false);
    assert_eq!(board.to_string(), "?7");
    let unit = find_poly(&catalog, vec![(0, 0)]);
    let copy = board.add_clone(unit).unwrap();
    assert_eq!(copy.get(0, 0), Some(Some(0)));
    assert_eq!(board.get(0, 0), Some(None));
    assert_eq!(copy.is_full(), true);
}

#[test]
fn overlapping_placement_is_rejected() {
    let catalog = generate_all_polyominos(4);
    let mut board = Board::new(2, 2);
    let flat = find_poly(&catalog, vec![(0, 0), (1, 0)]);
    let corner = find_poly(&catalog, vec![(0, 0), (0, 1), (1, 0)]);
    assert_eq!(board.add(flat), true);
    // The first open cell is (0, 1); the corner would cover (1, 1) and (0, 2).
    assert_eq!(board.add(corner), false);
    assert_eq!(board.to_string(), "00\n??");
    assert!(Board::from_solution(2, 2, &Solution(vec![flat.clone(), corner.clone()])).is_none());
}

#[test]
fn one_by_one_board_has_one_tiling() {
    let catalog = generate_all_polyominos(4);
    let boards = all_tilings(1, 1, &catalog, 255, 255);
    assert_eq!(boards.len(), 1);
    let unit = find_poly(&catalog, vec![(0, 0)]);
    assert_eq!(boards[0].polyominos, vec![unit.clone()]);
    let form = boards[0].cannonical_form(&catalog);
    assert_eq!(form, Solution(vec![unit.clone()]));
    for i in 0..8 {
        assert_eq!(boards[0].symmetric_board_polyominos(Symmetry::from_index(i), &catalog), form);
    }
    assert_eq!(distinct_tilings(1, 1, &catalog, 255, 255).len(), 1);
    let smallest = generate_all_polyominos(1);
    assert_eq!(all_tilings(1, 1, &smallest, 255, 255).len(), 1);
}

#[test]
fn three_by_three_enumeration_is_reproducible() {
    let catalog = generate_all_polyominos(4);
    let all = all_tilings(3, 3, &catalog, 255, 255);
    let again = all_tilings(3, 3, &catalog, 255, 255);
    assert_eq!(all.len(), again.len());
    assert!(all.len() > 0);
    let distinct = distinct_tilings(3, 3, &catalog, 255, 255);
    assert!(distinct.len() <= all.len());
    assert!(distinct.len() > 0);
    for b in all.iter() {
        assert!(b.is_full());
    }
}

#[test]
fn canonical_form_is_the_same_across_the_orbit() {
    let catalog = generate_all_polyominos(4);
    for (w, h) in [(3usize, 3usize), (2, 3)] {
        for b in all_tilings(w, h, &catalog, 255, 255).iter() {
            let form = b.cannonical_form(&catalog);
            for i in 0..8 {
                let s = Symmetry::from_index(i);
                if w != h && s.diagonal {
                    continue;
                }
                let image = b.symmetric_board_polyominos(s, &catalog);
                let rebuilt = Board::from_solution(w, h, &image).unwrap();
                assert!(rebuilt.is_full());
                assert_eq!(rebuilt.cannonical_form(&catalog), form);
            }
        }
    }
}

#[test]
fn canonical_form_is_idempotent() {
    let catalog = generate_all_polyominos(4);
    for b in all_tilings(3, 3, &catalog, 255, 255).iter() {
        let form = b.cannonical_form(&catalog);
        let as_board = Board::from_solution(3, 3, &form).unwrap();
        assert_eq!(as_board.cannonical_form(&catalog), form);
    }
}

#[test]
fn rebuilding_from_a_board_keeps_its_cells() {
    let catalog = generate_all_polyominos(4);
    for b in all_tilings(3, 3, &catalog, 255, 255).iter() {
        let rebuilt = Board::from_solution(3, 3, &Solution(b.polyominos.clone())).unwrap();
        assert_eq!(rebuilt.cells, b.cells);
    }
}

#[test]
fn budgets_limit_small_pieces() {
    let catalog = generate_all_polyominos(4);
    let unit = find_poly(&catalog, vec![(0, 0)]);
    let flat = find_poly(&catalog, vec![(0, 0), (1, 0)]);
    let state = RestrictedBoard::new(4, 1);
    assert_eq!(state.max_ones_or_twos, 1);
    assert_eq!(state.max_threes, 2);
    let once = state.add_clone(unit).unwrap();
    assert_eq!(once.one_or_two_sized_count, 1);
    assert!(once.add_clone(flat).is_none());
    assert_eq!(once.board().get(0, 0), Some(Some(0)));
    let roomy = RestrictedBoard::with_budget(4, 1, 2, 0);
    let three = find_poly(&catalog, vec![(0, 0), (1, 0), (2, 0)]);
    assert!(roomy.add_clone(three).is_none());
    assert_eq!(distinct_tilings(4, 1, &catalog, 0, 0).len(), 1);
    assert_eq!(distinct_tilings(0, 3, &catalog, 1, 2).len(), 0);
    assert_eq!(all_tilings(4, 1, &catalog, 255, 255).len(), 8);
}

#[test]
fn solution_order_puts_fewer_pieces_first() {
    let catalog = generate_all_polyominos(4);
    let unit = find_poly(&catalog, vec![(0, 0)]);
    let tall = find_poly(&catalog, vec![(0, 0), (0, 1)]);
    let a = Solution(vec![tall.clone()]);
    let b = Solution(vec![unit.clone(), unit.clone()]);
    assert!(a < b);
    let c = Solution(vec![unit.clone(), tall.clone()]);
    assert!(b < c);
    assert!(a != c);
}

#[test]
fn progress_counts_each_new_form() {
    let catalog = generate_all_polyominos(4);
    let seen = std::cell::RefCell::new(Vec::new());
    let found = polytiles::search::distinct_tilings_reporting(3, 3, &catalog, 255, 255, &|n: usize| seen.borrow_mut().push(n));
    let seen = seen.into_inner();
    assert_eq!(seen.len(), found.len());
    for (i, n) in seen.iter().enumerate() {
        assert_eq!(*n, i + 1);
    }
}

#[test]
fn symmetric_solution_has_one_entry_per_piece() {
    let catalog = generate_all_polyominos(4);
    for b in all_tilings(3, 3, &catalog, 255, 255).iter() {
        for i in 0..8 {
            assert_eq!(b.symmetric_board_polyominos(Symmetry::from_index(i), &catalog).0.len(), b.polyominos.len());
        }
    }
}
