use wfc::grid::{
    cap_draw, draw_bound, draw_upto, pick, pick_weighted, total_weight, without, Grid,
    HISTORY_LENGTH,
};
use wfc::image::Pixel;
use wfc::overlapping_model::ColorPattern;
use wfc::utils::AdjacencyData;

fn px(v: u8) -> Pixel {
    Pixel { r: v, g: v, b: v, a: 255 }
}

fn two_patterns() -> ColorPattern {
    ColorPattern(vec![px(0), px(1)])
}

/// Both patterns admit both in every direction.
fn free_rules() -> AdjacencyData {
    let row = vec![vec![0usize, 1], vec![0, 1], vec![0, 1], vec![0, 1]];
    AdjacencyData::from_rows(vec![row.clone(), row]).unwrap()
}

/// Each pattern admits only the other one, in every direction.
fn alternating_rules() -> AdjacencyData {
    AdjacencyData::from_rows(vec![vec![vec![1usize]; 4], vec![vec![0usize]; 4]]).unwrap()
}

/// Pattern 0 wants pattern 1 below it, and both patterns want pattern 0
/// above and beside them: what one cell asks of a neighbour that it shares
/// with another cell, the other may forbid.
fn clashing_rules() -> AdjacencyData {
    AdjacencyData::from_rows(vec![
        vec![vec![0usize], vec![0], vec![1], vec![0]],
        vec![vec![0usize], vec![0], vec![0, 1], vec![0]],
    ])
    .unwrap()
}

fn state(grid: &Grid) -> Vec<(Option<usize>, Vec<usize>)> {
    (0..grid.cell_count()).map(|i| (grid.collapsed(i), grid.domain(i))).collect()
}

#[test]
fn fresh_grid_is_full() {
    let grid = Grid::new(3, 2, &free_rules(), &two_patterns());
    assert_eq!(grid.width(), 3);
    assert_eq!(grid.height(), 2);
    assert_eq!(grid.cell_count(), 6);
    assert_eq!(grid.history_len(), 0);
    assert!(!grid.is_finished());
    for i in 0..6 {
        assert_eq!(grid.collapsed(i), None);
        assert_eq!(grid.domain(i), vec![0, 1]);
        assert_eq!(grid.domain_size(i), 2);
    }
    assert_eq!(grid.candidates(), vec![0, 1, 2, 3, 4, 5]);
}

#[test]
fn grid_without_cells_is_finished() {
    let mut grid = Grid::new(0, 4, &free_rules(), &two_patterns());
    assert!(grid.is_finished());
    assert_eq!(grid.observe(), None);
    assert!(!grid.step());
    assert!(grid.is_finished());
}

#[test]
fn neighbours_are_north_east_south_west() {
    let grid = Grid::new(3, 2, &free_rules(), &two_patterns());
    assert_eq!(grid.neighbour(0, 0), None);
    assert_eq!(grid.neighbour(0, 1), Some(1));
    assert_eq!(grid.neighbour(0, 2), Some(3));
    assert_eq!(grid.neighbour(0, 3), None);
    assert_eq!(grid.neighbour(4, 0), Some(1));
    assert_eq!(grid.neighbour(4, 1), Some(5));
    assert_eq!(grid.neighbour(4, 2), None);
    assert_eq!(grid.neighbour(4, 3), Some(3));
    assert_eq!(grid.neighbour(2, 1), None);
    assert_eq!(grid.neighbour(3, 3), None);
}

#[test]
fn advance_commits_and_propagates() {
    let mut grid = Grid::new(2, 2, &alternating_rules(), &two_patterns());
    grid.advance(0, 0);
    assert_eq!(
        state(&grid),
        vec![
            (Some(0), vec![0]),
            (Some(1), vec![1]),
            (Some(1), vec![1]),
            (Some(0), vec![0]),
        ]
    );
    assert!(grid.is_finished());
    assert_eq!(grid.history_len(), 1);
    assert_eq!(grid.candidates(), Vec::<usize>::new());
}

#[test]
fn advance_under_free_rules_touches_one_cell() {
    let mut grid = Grid::new(2, 1, &free_rules(), &two_patterns());
    grid.advance(1, 1);
    assert_eq!(state(&grid), vec![(None, vec![0, 1]), (Some(1), vec![1])]);
    assert_eq!(grid.candidates(), vec![0]);
    assert!(!grid.is_finished());
}

#[test]
fn propagate_visits_first_in_first_out() {
    let mut grid = Grid::new(3, 3, &alternating_rules(), &two_patterns());
    assert_eq!(grid.propagate(4), vec![4]);
    let chosen = grid.collapse(4).unwrap();
    assert_eq!(grid.collapsed(4), Some(chosen));
    assert_eq!(grid.domain(4), vec![chosen]);
    assert_eq!(grid.propagate(4), vec![4, 1, 5, 7, 3, 2, 0, 8, 6]);
    assert!(grid.is_finished());
    for i in 0..9 {
        let expected = if i % 2 == 0 { chosen } else { 1 - chosen };
        assert_eq!(grid.collapsed(i), Some(expected));
    }
}

#[test]
fn propagate_on_a_settled_grid_changes_nothing() {
    let mut grid = Grid::new(2, 2, &alternating_rules(), &two_patterns());
    grid.advance(3, 1);
    let before = state(&grid);
    for i in 0..4 {
        assert_eq!(grid.propagate(i), vec![i]);
        assert_eq!(state(&grid), before);
    }
    let mut fresh = Grid::new(3, 3, &free_rules(), &two_patterns());
    let full = state(&fresh);
    assert_eq!(fresh.propagate(4), vec![4]);
    assert_eq!(state(&fresh), full);
}

#[test]
fn unwind_restores_and_forbids() {
    let mut grid = Grid::new(2, 2, &alternating_rules(), &two_patterns());
    grid.advance(0, 0);
    grid.unwind();
    assert_eq!(
        state(&grid),
        vec![(None, vec![1]), (None, vec![0, 1]), (None, vec![0, 1]), (None, vec![0, 1])]
    );
    assert_eq!(grid.history_len(), 0);
    let before = state(&grid);
    grid.unwind();
    assert_eq!(state(&grid), before);
}

#[test]
fn unwind_leaves_untouched_cells_alone() {
    let mut grid = Grid::new(3, 1, &free_rules(), &two_patterns());
    grid.advance(0, 1);
    grid.advance(2, 0);
    grid.unwind();
    assert_eq!(
        state(&grid),
        vec![(Some(1), vec![1]), (None, vec![0, 1]), (None, vec![1])]
    );
    assert_eq!(grid.history_len(), 1);
    grid.unwind();
    assert_eq!(state(&grid), vec![(None, vec![0]), (None, vec![0, 1]), (None, vec![1])]);
}

#[test]
fn history_drops_its_oldest_step() {
    let mut grid = Grid::with_history(4, 1, &free_rules(), &two_patterns(), 2);
    grid.advance(0, 0);
    grid.advance(1, 0);
    grid.advance(2, 0);
    assert_eq!(grid.history_len(), 2);
    grid.unwind();
    grid.unwind();
    assert_eq!(grid.history_len(), 0);
    // the step at cell 0 was dropped: it stays as it is
    assert_eq!(
        state(&grid),
        vec![(Some(0), vec![0]), (None, vec![1]), (None, vec![1]), (None, vec![0, 1])]
    );
}

#[test]
fn history_without_room_remembers_nothing() {
    let mut grid = Grid::with_history(2, 1, &free_rules(), &two_patterns(), 0);
    grid.advance(0, 0);
    assert_eq!(grid.history_len(), 0);
    let before = state(&grid);
    grid.unwind();
    assert_eq!(state(&grid), before);
}

#[test]
fn default_history_holds_twenty_steps() {
    assert_eq!(HISTORY_LENGTH, 20);
    let mut grid = Grid::new(5, 5, &free_rules(), &two_patterns());
    for i in 0..25 {
        grid.advance(i, 0);
        assert_eq!(grid.history_len(), (i + 1).min(20));
    }
    assert!(grid.is_finished());
}

#[test]
fn step_at_unwinds_on_a_contradiction() {
    let mut grid = Grid::with_history(2, 2, &clashing_rules(), &two_patterns(), 3);
    // the cell to the right asks for pattern 0 below it, the cell below for
    // pattern 1 beside it, and the last cell is left with nothing
    assert!(grid.step_at(0, 0));
    assert_eq!(
        state(&grid),
        vec![(Some(0), vec![0]), (Some(0), vec![0]), (Some(1), vec![1]), (None, vec![])]
    );
    assert_eq!(grid.candidates(), vec![3]);
    assert_eq!(grid.history_len(), 1);
    assert!(grid.step_at(3, 0));
    assert_eq!(grid.history_len(), 0);
    assert_eq!(
        state(&grid),
        vec![(None, vec![1]), (None, vec![0, 1]), (None, vec![0, 1]), (None, vec![0, 1])]
    );
    assert!(grid.step_at(0, 1));
    assert_eq!(
        state(&grid),
        vec![(Some(1), vec![1]), (Some(0), vec![0]), (Some(0), vec![0]), (Some(1), vec![1])]
    );
    assert!(grid.is_finished());
}

#[test]
fn step_at_reports_a_dead_end() {
    let mut grid = Grid::with_history(2, 2, &clashing_rules(), &two_patterns(), 0);
    assert!(grid.step_at(0, 0));
    let before = state(&grid);
    assert!(!grid.step_at(3, 0));
    assert!(!grid.is_finished());
    assert_eq!(state(&grid), before);
}

#[test]
fn observe_picks_a_cell_with_the_fewest_patterns() {
    macroquad::rand::srand(11);
    let mut grid = Grid::new(3, 1, &free_rules(), &two_patterns());
    for _ in 0..20 {
        let picked = grid.observe().unwrap();
        assert!(picked < 3);
    }
    grid.advance(1, 0);
    grid.unwind();
    // cell 1 has one pattern left, the others two
    for _ in 0..20 {
        assert_eq!(grid.observe(), Some(1));
    }
}

#[test]
fn collapse_picks_an_admissible_pattern() {
    macroquad::rand::srand(5);
    let mut seen = [false, false];
    for _ in 0..40 {
        let mut grid = Grid::new(1, 1, &free_rules(), &two_patterns());
        let p = grid.collapse(0).unwrap();
        assert!(p < 2);
        assert_eq!(grid.collapsed(0), Some(p));
        assert_eq!(grid.domain(0), vec![p]);
        seen[p] = true;
    }
    assert_eq!(seen, [true, true]);
}

#[test]
fn collapse_of_an_empty_cell_does_nothing() {
    let mut grid = Grid::with_history(2, 2, &clashing_rules(), &two_patterns(), 0);
    grid.advance(0, 0);
    let before = state(&grid);
    assert_eq!(grid.collapse(3), None);
    assert_eq!(state(&grid), before);
}

#[test]
fn pick_takes_one_of_the_items() {
    macroquad::rand::srand(3);
    assert_eq!(pick(&vec![]), None);
    assert_eq!(pick(&vec![42]), Some(42));
    let items = vec![4, 8, 15, 16, 23];
    let mut seen = Vec::new();
    for _ in 0..200 {
        let p = pick(&items).unwrap();
        assert!(items.contains(&p));
        if !seen.contains(&p) {
            seen.push(p);
        }
    }
    assert_eq!(seen.len(), 5);
}

#[test]
fn without_strikes_one_pattern() {
    assert_eq!(without(&vec![0, 1, 2, 3], 2), vec![0, 1, 3]);
    assert_eq!(without(&vec![0, 1], 5), vec![0, 1]);
    assert_eq!(without(&vec![7], 7), Vec::<usize>::new());
}

#[test]
fn free_rules_finish_without_unwinding() {
    for (seed, (width, height)) in [(1usize, 1usize), (2, 2), (5, 4), (1, 7), (6, 6)].iter().enumerate() {
        macroquad::rand::srand(seed as u64 + 1);
        let mut grid = Grid::new(*width, *height, &free_rules(), &two_patterns());
        let mut steps = 0;
        let mut committed = 0;
        while grid.step() {
            steps += 1;
            // a step that unwinds would take a step out of the history and
            // free cells again
            assert_eq!(grid.history_len(), steps.min(HISTORY_LENGTH));
            let now = (0..grid.cell_count()).filter(|i| grid.collapsed(*i).is_some()).count();
            assert_eq!(now, committed + 1);
            committed = now;
        }
        assert!(grid.is_finished());
        assert_eq!(steps, width * height);
        assert!(!grid.step());
    }
}

#[test]
fn domains_only_shrink_within_a_step() {
    macroquad::rand::srand(99);
    let mut grid = Grid::new(4, 4, &alternating_rules(), &two_patterns());
    loop {
        let before = state(&grid);
        let history = grid.history_len();
        if !grid.step() {
            break;
        }
        assert!(grid.history_len() > history);
        let after = state(&grid);
        for (b, a) in before.iter().zip(after.iter()) {
            assert!(a.1.len() <= b.1.len());
            assert!(a.1.iter().all(|p| b.1.contains(p)));
            if b.0.is_some() {
                assert_eq!(a, b);
            }
            if let Some(p) = a.0 {
                assert_eq!(a.1, vec![p]);
            }
        }
    }
    assert!(grid.is_finished());
}

#[test]
fn same_seed_gives_the_same_run() {
    let mut runs = Vec::new();
    for _ in 0..2 {
        macroquad::rand::srand(2024);
        let mut grid = Grid::new(5, 5, &free_rules(), &two_patterns());
        let mut trace = vec![state(&grid)];
        while grid.step() {
            trace.push(state(&grid));
        }
        runs.push(trace);
    }
    assert_eq!(runs[0].len(), 26);
    assert_eq!(runs[0], runs[1]);
}

#[test]
fn clashing_rules_need_a_history() {
    let mut stuck = 0;
    for seed in 0..200u64 {
        macroquad::rand::srand(seed);
        let mut bare = Grid::with_history(2, 2, &clashing_rules(), &two_patterns(), 0);
        let mut steps = 0;
        while steps < 100 && bare.step() {
            steps += 1;
        }
        assert!(steps < 100);
        if !bare.is_finished() {
            stuck += 1;
            assert!(!bare.step());
        }

        for capacity in [1usize, 20] {
            macroquad::rand::srand(seed);
            let mut grid = Grid::with_history(2, 2, &clashing_rules(), &two_patterns(), capacity);
            let mut steps = 0;
            while steps < 100 && grid.step() {
                steps += 1;
            }
            assert!(grid.is_finished(), "seed {} capacity {}", seed, capacity);
        }
    }
    assert!(stuck > 0);
    assert!(stuck < 200);
}

#[test]
fn reset_refills_the_grid() {
    macroquad::rand::srand(8);
    let patterns = two_patterns();
    let mut grid = Grid::new(3, 3, &alternating_rules(), &patterns);
    while grid.step() {}
    assert!(grid.is_finished());
    grid.reset(&patterns);
    assert!(!grid.is_finished());
    assert_eq!(grid.history_len(), 0);
    assert_eq!(state(&grid), vec![(None, vec![0, 1]); 9]);
    while grid.step() {}
    assert!(grid.is_finished());
}

#[test]
fn weighted_pick_walks_the_domain() {
    let weights = vec![5u32, 1, 2, 4];
    let domain = vec![0usize, 2, 3];
    assert_eq!(total_weight(&domain, &weights), 11);
    assert_eq!(pick_weighted(&domain, &weights, 0), Some(0));
    assert_eq!(pick_weighted(&domain, &weights, 1), Some(0));
    assert_eq!(pick_weighted(&domain, &weights, 5), Some(0));
    assert_eq!(pick_weighted(&domain, &weights, 6), Some(2));
    assert_eq!(pick_weighted(&domain, &weights, 7), Some(2));
    assert_eq!(pick_weighted(&domain, &weights, 8), Some(3));
    assert_eq!(pick_weighted(&domain, &weights, 11), Some(3));
    assert_eq!(pick_weighted(&domain, &weights, 12), None);
    assert_eq!(pick_weighted(&vec![], &weights, 0), None);
    assert_eq!(total_weight(&vec![], &weights), 0);
    assert_eq!(total_weight(&vec![1, 1, 1], &vec![0, u32::MAX]), 3 * (u32::MAX as u128));
}

#[test]
fn draw_stays_within_its_bound() {
    macroquad::rand::srand(17);
    let mut seen = [false; 4];
    for _ in 0..400 {
        assert_eq!(draw_upto(0), 0);
        let d = draw_upto(3);
        assert!(d <= 3);
        seen[d as usize] = true;
        assert!(draw_upto(u64::MAX - 1) <= u64::MAX - 1);
        let _ = draw_upto(u64::MAX);
    }
    assert_eq!(seen, [true; 4]);
}

#[test]
fn weights_must_fit_the_patterns() {
    let mut grid = Grid::new(2, 2, &free_rules(), &two_patterns());
    assert!(!grid.set_weights(vec![1]));
    assert!(!grid.set_weights(vec![1, 2, 3]));
    assert!(!grid.set_weights(vec![0, 2]));
    assert!(!grid.set_weights(vec![2, 0]));
    assert!(grid.set_weights(vec![1, 1]));
    assert!(grid.set_weights(vec![u32::MAX, 7]));
    grid.clear_weights();
    assert_eq!(state(&grid), vec![(None, vec![0, 1]); 4]);
}

#[test]
fn heavy_pattern_is_picked() {
    macroquad::rand::srand(23);
    for _ in 0..40 {
        let mut grid = Grid::new(1, 1, &free_rules(), &two_patterns());
        assert!(grid.set_weights(vec![1, 4_000_000_000]));
        assert_eq!(grid.choose_pattern(0), Some(1));
        assert_eq!(grid.collapse(0), Some(1));
    }
    for _ in 0..40 {
        let mut grid = Grid::new(1, 1, &free_rules(), &two_patterns());
        assert!(grid.set_weights(vec![4_000_000_000, 1]));
        assert_eq!(grid.collapse(0), Some(0));
    }
}

#[test]
fn weighted_grid_finishes() {
    macroquad::rand::srand(31);
    let mut grid = Grid::new(6, 5, &free_rules(), &two_patterns());
    assert!(grid.set_weights(vec![1, 9]));
    let mut steps = 0;
    while grid.step() {
        steps += 1;
    }
    assert!(grid.is_finished());
    assert_eq!(steps, 30);
    let ones = (0..30).filter(|i| grid.collapsed(*i) == Some(1)).count();
    assert!(ones > 15);
}

#[test]
fn choose_pattern_stays_in_the_domain() {
    macroquad::rand::srand(4);
    let mut grid = Grid::new(2, 1, &free_rules(), &two_patterns());
    grid.advance(0, 1);
    grid.unwind();
    for _ in 0..20 {
        assert_eq!(grid.choose_pattern(0), Some(0));
        assert!(grid.choose_pattern(1).unwrap() < 2);
    }
    assert!(grid.set_weights(vec![3, 3]));
    for _ in 0..20 {
        assert_eq!(grid.choose_pattern(0), Some(0));
    }
}

#[test]
fn cell_narrowed_after_its_visit_is_committed() {
    let all = vec![0usize, 1, 2];
    let rules = AdjacencyData::from_rows(vec![
        vec![all.clone(), vec![1, 2], all.clone(), vec![1]],
        vec![all.clone(), vec![0], all.clone(), all.clone()],
        vec![all.clone(), vec![0], all.clone(), all.clone()],
    ])
    .unwrap();
    let patterns = ColorPattern(vec![px(0), px(1), px(2)]);
    let mut grid = Grid::new(3, 1, &rules, &patterns);
    // the middle cell is visited with two patterns left, and loses one of
    // them when the cell to its right is visited
    grid.advance(0, 0);
    assert_eq!(
        state(&grid),
        vec![(Some(0), vec![0]), (Some(1), vec![1]), (Some(0), vec![0])]
    );
    assert!(grid.is_finished());
    grid.unwind();
    assert_eq!(
        state(&grid),
        vec![(None, vec![1, 2]), (None, vec![0, 1, 2]), (None, vec![0, 1, 2])]
    );
}

#[test]
fn draw_is_capped_at_its_bound() {
    assert_eq!(draw_bound(0), 1);
    assert_eq!(draw_bound(3), 4);
    assert_eq!(draw_bound(u64::MAX - 1), u64::MAX);
    assert_eq!(draw_bound(u64::MAX), u64::MAX);
    assert_eq!(cap_draw(0, 3), 0);
    assert_eq!(cap_draw(2, 3), 2);
    assert_eq!(cap_draw(3, 3), 3);
    assert_eq!(cap_draw(4, 3), 3);
    assert_eq!(cap_draw(u64::MAX, 0), 0);
    assert_eq!(cap_draw(u64::MAX, u64::MAX), u64::MAX);
}
