use labyrinth_maker::board::Board;
use labyrinth_maker::grid::new_edge_set;
use labyrinth_maker::tier::{BarrierNum, Difficulty, MAX_BARRIERS};

fn is_grid_edge(e: (u8, u8)) -> bool {
    let (a, b) = e;
    a < 36 && ((b == a + 1 && a % 6 != 5) || (b == a + 6 && a < 30))
}

fn open_picture() -> String {
    let border = "-".repeat(25);
    let mut s = String::new();
    s.push_str(&border);
    s.push('\n');
    for i in 0..6 {
        s.push_str("|\t");
        for _ in 0..5 {
            s.push_str("\u{a6}\t");
        }
        s.push_str("|\n");
        if i < 5 {
            for _ in 0..6 {
                s.push_str(" - -");
            }
            s.push('\n');
        }
    }
    s.push_str(&border);
    s
}

#[test]
fn tiers_map_to_their_counts() {
    assert_eq!(Difficulty::Easy.barrier_num(), 12);
    assert_eq!(Difficulty::Medium.barrier_num(), 16);
    assert_eq!(Difficulty::Hard.barrier_num(), 20);
    assert_eq!(Difficulty::VeryHard.barrier_num(), 24);
    assert_eq!(MAX_BARRIERS, 24);
}

#[test]
fn barrier_num_accepts_up_to_the_maximum() {
    for c in 0..=24u8 {
        let n = BarrierNum::new(c);
        assert!(n.is_some());
        assert_eq!(n.unwrap().value(), c);
    }
}

#[test]
fn barrier_num_rejects_above_the_maximum() {
    assert!(BarrierNum::new(25).is_none());
    assert!(BarrierNum::new(100).is_none());
    assert!(BarrierNum::new(255).is_none());
}

#[test]
fn every_valid_count_gives_a_connected_board_with_that_many_barriers() {
    for c in 0..=24u8 {
        let board = Board::build_board_barnum(BarrierNum::new(c).unwrap());
        assert_eq!(board.barrier_count(), c as usize);
        assert_eq!(board.component_count(), 1);
        assert_eq!(board.live_node_count(), 36);
        assert_eq!(board.live_edge_count(), 60 - c as usize);
    }
}

#[test]
fn barriers_are_distinct_grid_edges() {
    for _ in 0..20 {
        let board = Board::build_board_dif(Difficulty::VeryHard);
        let edges = board.barrier_edges();
        assert_eq!(edges.len(), 24);
        for (k, e) in edges.iter().enumerate() {
            assert!(is_grid_edge(*e));
            assert!(!edges[k + 1..].contains(e));
        }
    }
}

#[test]
fn zero_barriers_leave_the_full_grid() {
    let board = Board::build_board_barnum(BarrierNum::new(0).unwrap());
    assert_eq!(board.barrier_count(), 0);
    assert!(board.barrier_edges().is_empty());
    assert_eq!(board.live_edge_count(), 60);
    assert_eq!(board.live_node_count(), 36);
    assert_eq!(board.component_count(), 1);
    assert_eq!(board.render(), open_picture());
}

#[test]
fn empty_board_is_drawn_fully_open() {
    let board = Board::build_board_barnum(BarrierNum::new(0).unwrap());
    let text = board.render();
    for line in text.lines().skip(1).take(11) {
        if line.starts_with('|') {
            assert_eq!(line.matches('|').count(), 2);
            assert_eq!(line.matches('\u{a6}').count(), 5);
        } else {
            assert!(!line.contains("---"));
            assert_eq!(line.matches("- -").count(), 6);
        }
    }
}

#[test]
fn very_hard_board_keeps_one_cycle() {
    let board = Board::build_board_dif(Difficulty::VeryHard);
    assert_eq!(board.barrier_count(), 24);
    assert_eq!(board.live_node_count(), 36);
    assert_eq!(board.live_edge_count(), 36);
    assert_eq!(board.component_count(), 1);
}

#[test]
fn each_tier_builds_its_count() {
    for (d, c) in [
        (Difficulty::Easy, 12usize),
        (Difficulty::Medium, 16),
        (Difficulty::Hard, 20),
        (Difficulty::VeryHard, 24),
    ] {
        let board = Board::build_board_dif(d);
        assert_eq!(board.barrier_count(), c);
        assert_eq!(board.live_edge_count(), 60 - c);
        assert_eq!(board.component_count(), 1);
    }
}

#[test]
fn many_maximal_boards_stay_connected() {
    for _ in 0..300 {
        let board = Board::build_board_barnum(BarrierNum::new(24).unwrap());
        assert_eq!(board.barrier_count(), 24);
        assert_eq!(board.component_count(), 1);
        assert_eq!(board.live_edge_count(), 36);
    }
}

#[test]
fn rendering_twice_gives_the_same_text() {
    let board = Board::build_board_dif(Difficulty::Hard);
    let first = board.render();
    let second = board.render();
    assert_eq!(first, second);
}

#[test]
fn rendering_shows_each_barrier_as_a_wall() {
    let board = Board::build_board_dif(Difficulty::Medium);
    let edges = board.barrier_edges();
    let text = board.render();
    let lines: Vec<&str> = text.lines().collect();
    assert_eq!(lines.len(), 13);
    assert_eq!(lines[0], "-".repeat(25));
    assert_eq!(lines[12], "-".repeat(25));
    for i in 0..6u8 {
        let cell_line: Vec<char> = lines[1 + 2 * i as usize]
            .chars()
            .filter(|c| *c != '\t')
            .collect();
        assert_eq!(cell_line.len(), 7);
        for j in 0..5u8 {
            let x = i * 6 + j;
            let wall = edges.contains(&(x, x + 1));
            assert_eq!(cell_line[1 + j as usize], if wall { '|' } else { '\u{a6}' });
        }
        if i < 5 {
            let gap_line = lines[2 + 2 * i as usize];
            assert_eq!(gap_line.len(), 24);
            for j in 0..6u8 {
                let x = i * 6 + j;
                let wall = edges.contains(&(x, x + 6));
                let mark = &gap_line[4 * j as usize..4 * j as usize + 4];
                assert_eq!(mark, if wall { " ---" } else { " - -" });
            }
        }
    }
}

#[test]
fn edge_list_is_row_major() {
    let edges = new_edge_set();
    assert_eq!(edges.len(), 60);
    assert_eq!(edges[0], (0, 1));
    assert_eq!(edges[1], (0, 6));
    assert_eq!(edges[10], (5, 11));
    assert_eq!(edges[54], (29, 35));
    assert_eq!(edges[55], (30, 31));
    assert_eq!(edges[59], (34, 35));
    let mut expected = Vec::new();
    for i in 0..6u8 {
        for j in 0..6u8 {
            let x = i * 6 + j;
            if j < 5 {
                expected.push((x, x + 1));
            }
            if i < 5 {
                expected.push((x, x + 6));
            }
        }
    }
    assert_eq!(edges, expected);
}
