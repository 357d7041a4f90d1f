use owanimo::gravity::{compact_column, AutoGravityBoard, GravityBoard};
use owanimo::quicksim::{quick_sim, QuickSimBoard};
use owanimo::standard::{
    score, ColorBoard, ColorBonusTable, GroupBonusTable, GroupFromColorBoard, NuisanceBoard,
    StandardScorer, TrivialPiecesCleared,
};
use owanimo::{owanimo_grouper, BanishBoard, Board, RefGroups, Scorer};

#[derive(Clone, Copy, PartialEq, Eq, Hash, Debug)]
enum Tile {
    Air,
    Nuisance,
    Green,
    Red,
    Blue,
    Yellow,
    Purple,
}

use Tile::{Air as A, Blue as B, Green as G, Nuisance as O, Purple as P, Red as R, Yellow as Y};

/// The colour token a tile carries, when it has one.
fn cid(t: Tile) -> Option<usize> {
    match t {
        Tile::Air | Tile::Nuisance => None,
        Tile::Green => Some(2),
        Tile::Red => Some(3),
        Tile::Blue => Some(4),
        Tile::Yellow => Some(5),
        Tile::Purple => Some(6),
    }
}

/// Position (x, y) as a handle; y = 0 is the lowest row.
fn h(x: usize, y: usize) -> usize {
    x * 12 + y
}

#[derive(Clone, Copy, PartialEq, Eq, Debug)]
struct TileBoard {
    items: [[Tile; 6]; 12],
}

fn empty_board() -> TileBoard {
    TileBoard { items: [[Tile::Air; 6]; 12] }
}

impl TileBoard {
    fn get(&self, handle: usize) -> Tile {
        let x = handle / 12;
        let y = handle % 12;
        if x < 6 && y < 12 {
            self.items[y][x]
        } else {
            Tile::Air
        }
    }

    fn set(&mut self, handle: usize, to: Tile) {
        let x = handle / 12;
        let y = handle % 12;
        if x < 6 && y < 12 {
            self.items[y][x] = to;
        }
    }

    fn pop(&mut self, refs: &RefGroups) {
        for g in &refs.groups {
            for &p in g {
                self.set(p, Tile::Air);
            }
        }
    }
}

fn parse_board(s: &str) -> TileBoard {
    let mut this = empty_board();
    let lines: Vec<&str> = s.lines().filter(|x| !x.trim().is_empty()).take(12).collect();
    let start_line = lines.len() - 1;
    for (y_bottom, line) in lines.into_iter().enumerate() {
        let y = start_line - y_bottom;
        for (x, chr) in line.trim().chars().take(6).enumerate() {
            let tile = match chr {
                ' ' | '_' => Tile::Air,
                'O' | 'o' | '0' => Tile::Nuisance,
                'R' | 'r' => Tile::Red,
                'G' | 'g' => Tile::Green,
                'B' | 'b' => Tile::Blue,
                'Y' | 'y' => Tile::Yellow,
                'P' | 'p' => Tile::Purple,
                c => panic!("unknown symbol {}", c),
            };
            this.set(h(x, y), tile);
        }
    }
    this
}

// The `spec_` methods below are the traits' ghost observers: Verus erases
// every use of them from compiled code, so they are never called at run
// time, but the compiled trait still lists them as items to implement.
impl Board for TileBoard {
    fn spec_tiles(&self) -> vstd::seq::Seq<usize> {
        panic!()
    }

    fn spec_neighbors(&self, _handle: usize) -> vstd::seq::Seq<usize> {
        panic!()
    }

    fn spec_connects(&self, _a: usize, _b: usize) -> bool {
        panic!()
    }

    fn spec_is_air(&self, _handle: usize) -> bool {
        panic!()
    }

    fn tiles(&self) -> Vec<usize> {
        let mut out = Vec::new();
        for x in 0..6 {
            for y in 0..12 {
                out.push(h(x, y));
            }
        }
        out
    }

    fn neighbors(&self, handle: usize) -> Vec<usize> {
        let x = handle / 12;
        let y = handle % 12;
        let mut out = Vec::new();
        if x > 0 {
            out.push(h(x - 1, y));
        }
        if y > 0 {
            out.push(h(x, y - 1));
        }
        if x < 5 {
            out.push(h(x + 1, y));
        }
        if y < 11 {
            out.push(h(x, y + 1));
        }
        out
    }

    fn connects(&self, a: usize, b: usize) -> bool {
        match (self.get(a), self.get(b)) {
            (Tile::Air | Tile::Nuisance, Tile::Air | Tile::Nuisance) => false,
            (x, y) => x == y,
        }
    }
}

impl NuisanceBoard for TileBoard {
    fn spec_nuisance(&self, _handle: usize) -> bool {
        panic!()
    }

    fn nuisance(&self, handle: usize) -> bool {
        self.get(handle) == Tile::Nuisance
    }
}

impl ColorBoard for TileBoard {
    fn spec_color(&self, _handle: usize) -> Option<usize> {
        panic!()
    }

    fn color(&self, handle: usize) -> Option<usize> {
        cid(self.get(handle))
    }
}

impl GroupFromColorBoard for TileBoard {}

impl BanishBoard for TileBoard {
    fn banish(&mut self, handle: usize) {
        self.set(handle, Tile::Air);
    }
}

impl AutoGravityBoard for TileBoard {
    fn spec_columns(&self) -> vstd::seq::Seq<vstd::seq::Seq<usize>> {
        panic!()
    }

    fn is_air(&self, handle: usize) -> bool {
        self.get(handle) == Tile::Air
    }

    fn columns(&self) -> Vec<Vec<usize>> {
        let mut cols = Vec::new();
        for x in 0..6 {
            let mut col = Vec::new();
            for y in 0..12 {
                col.push(h(x, y));
            }
            cols.push(col);
        }
        cols
    }

    fn apply_columns(&mut self, cols: &Vec<Vec<usize>>) {
        let old = *self;
        for (x, col) in cols.iter().enumerate() {
            for (y, &from) in col.iter().enumerate() {
                self.items[y][x] = old.get(from);
            }
        }
    }
}

impl QuickSimBoard for TileBoard {}

/// The test harness's own gravity, written directly over the tile grid.
fn fall_by_hand(board: &mut TileBoard) {
    for x in 0..6 {
        let mut col = [Tile::Air; 12];
        for y in 0..12 {
            col[y] = board.items[y][x];
        }
        let mut write = 0;
        for y in 0..12 {
            if col[y] != Tile::Air {
                col.swap(write, y);
                write += 1;
            }
        }
        for y in 0..12 {
            board.items[y][x] = col[y];
        }
    }
}

#[test]
fn integration_itself_works() {
    let board = parse_board(
        "
        ___
        ypo
        rgb
    ",
    );
    assert_eq!(&board.items[0..2], &[[R, G, B, A, A, A], [Y, P, O, A, A, A]]);
    assert_eq!(&board.items[2..12], &[[A; 6]; 10]);
    assert_eq!(board.color(h(0, 0)), cid(R));
    assert_eq!(board.color(h(3, 0)), None);
}

#[test]
fn do_a_pop() {
    let mut board = parse_board("rrrrb");
    let original_groups = owanimo_grouper(&board);
    let binding = original_groups.as_ref();
    let binding = binding.owanimo_pop(4);
    let popped_groups = binding.owanimo_nuisance(&board);
    board.pop(&popped_groups);
    assert_eq!(parse_board("____b"), board);
}

#[test]
fn do_a_chain() {
    let mut board = parse_board(
        "
    orbg
    rbgy
    rbgyo
    rbgyy
    ",
    );
    loop {
        fall_by_hand(&mut board);
        let grps = owanimo_grouper(&board);
        let binding = grps.as_ref();
        let binding = binding.owanimo_pop(4);
        let pg = binding.owanimo_nuisance(&board);
        let pcs = TrivialPiecesCleared.score(&board, &pg);
        board.pop(&pg);
        if pcs == 0 {
            break;
        }
    }
    assert_eq!(board.items, [[Tile::Air; 6]; 12]);
}

#[test]
fn do_a_chain_autogravity() {
    let mut board = parse_board(
        "
    orbg
    rbgy
    rbgyo
    rbgyy
    ",
    );
    loop {
        <TileBoard as GravityBoard>::fall(&mut board);
        let grps = owanimo_grouper(&board);
        let binding = grps.as_ref();
        let binding = binding.owanimo_pop(4);
        let pg = binding.owanimo_nuisance(&board);
        let pcs = TrivialPiecesCleared.score(&board, &pg);
        board.pop(&pg);
        if pcs == 0 {
            break;
        }
    }
    assert_eq!(board.items, [[Tile::Air; 6]; 12]);
}

/// The grouper partitions the tiles: every tile in exactly one group, and
/// same-coloured neighbours share their group.
#[test]
fn grouping_partitions_the_board() {
    let board = parse_board(
        "
        rrb
        grb
    ",
    );
    let groups = owanimo_grouper(&board);
    let mut seen = std::collections::HashMap::new();
    for (i, g) in groups.groups.iter().enumerate() {
        for &m in g {
            assert!(seen.insert(m, i).is_none(), "handle in two groups");
        }
    }
    assert_eq!(seen.len(), 72);
    // the three reds are one component
    assert_eq!(seen[&h(0, 1)], seen[&h(1, 1)]);
    assert_eq!(seen[&h(1, 1)], seen[&h(1, 0)]);
    // the two blues are one component
    assert_eq!(seen[&h(2, 0)], seen[&h(2, 1)]);
    // different kinds stay apart
    assert_ne!(seen[&h(0, 0)], seen[&h(0, 1)]);
    assert_ne!(seen[&h(2, 0)], seen[&h(1, 0)]);
    // a diagonal of the same kind is not adjacent, so not connected
    let board2 = parse_board(
        "
        _r
        r_
    ",
    );
    let groups2 = owanimo_grouper(&board2);
    let mut seen2 = std::collections::HashMap::new();
    for (i, g) in groups2.groups.iter().enumerate() {
        for &m in g {
            seen2.insert(m, i);
        }
    }
    assert_ne!(seen2[&h(0, 0)], seen2[&h(1, 1)]);
}

/// A group is selected exactly when its size reaches the threshold.
#[test]
fn pop_filters_by_size() {
    let refs = RefGroups {
        groups: vec![vec![1, 2, 3], vec![4], vec![5, 6], vec![7, 8, 9, 10]],
    };
    let by_three = refs.owanimo_pop(3);
    assert_eq!(by_three.groups, vec![vec![1, 2, 3], vec![7, 8, 9, 10]]);
    let by_zero = refs.owanimo_pop(0);
    assert_eq!(by_zero.groups.len(), 4);
    let by_five = refs.owanimo_pop(5);
    assert!(by_five.groups.is_empty());
}

/// Nuisance expansion reaches only tiles beside the original selection:
/// a nuisance tile whose only cleared neighbour is another freshly added
/// nuisance tile stays.
#[test]
fn nuisance_expands_one_level_only() {
    // column x=4 holds, bottom up: r r r r o o
    let mut board = empty_board();
    for y in 0..4 {
        board.set(h(4, y), Tile::Red);
    }
    board.set(h(4, 4), Tile::Nuisance);
    board.set(h(4, 5), Tile::Nuisance);
    let groups = owanimo_grouper(&board);
    let selected = groups.as_ref().owanimo_pop(4);
    let expanded = selected.owanimo_nuisance(&board);
    // the red group, plus exactly one singleton for the adjacent nuisance
    assert_eq!(expanded.groups.len(), selected.groups.len() + 1);
    assert_eq!(expanded.groups.last().unwrap(), &vec![h(4, 4)]);
    assert!(expanded.test(h(4, 4)));
    assert!(!expanded.groups[..expanded.groups.len()].contains(&vec![h(4, 5)]));
}

/// Compaction keeps the non-air entries in order below the air entries,
/// and a second call changes nothing and reports no change.
#[test]
fn compaction_is_stable_and_idempotent() {
    // column x=0 holds, bottom up: _ r _ b _ y
    let mut board = empty_board();
    board.set(h(0, 1), Tile::Red);
    board.set(h(0, 3), Tile::Blue);
    board.set(h(0, 5), Tile::Yellow);
    let mut column: Vec<usize> = (0..12).map(|y| h(0, y)).collect();
    let before: Vec<Tile> = column.iter().map(|&p| board.get(p)).collect();
    let moved = compact_column(&board, &mut column);
    assert!(moved);
    let after: Vec<Tile> = column.iter().map(|&p| board.get(p)).collect();
    // same contents, non-air first and in their old order
    let mut sorted_before: Vec<usize> = before.iter().map(|&t| t as usize).collect();
    let mut sorted_after: Vec<usize> = after.iter().map(|&t| t as usize).collect();
    sorted_before.sort();
    sorted_after.sort();
    assert_eq!(sorted_before, sorted_after);
    assert_eq!(&after[0..3], &[R, B, Y]);
    assert!(after[3..].iter().all(|&t| t == Tile::Air));
    // idempotence
    let again = column.clone();
    let mut column2 = column.clone();
    let moved2 = compact_column(&board, &mut column2);
    assert!(!moved2);
    assert_eq!(column2, again);
}

/// Gravity over the whole board reports whether anything fell.
#[test]
fn autogravity_reports_change() {
    let mut board = parse_board(
        "
        r_b
        ___
    ",
    );
    let fell = <TileBoard as GravityBoard>::fall(&mut board);
    assert!(fell);
    assert_eq!(board.get(h(0, 0)), R);
    assert_eq!(board.get(h(2, 0)), B);
    assert_eq!(board.get(h(0, 1)), A);
    let settled = board;
    let fell_again = <TileBoard as GravityBoard>::fall(&mut board);
    assert!(!fell_again);
    assert_eq!(board, settled);
}

/// The standard formula: base is ten a piece plus the point bonus, the
/// multiplier is the sum of the other three.
#[test]
fn scoring_standard_formula() {
    let board = parse_board("rrrr");
    let groups = owanimo_grouper(&board);
    let popped = groups.as_ref().owanimo_pop(4);
    let (base, multiplier) = score(
        &board,
        &popped,
        &TrivialPiecesCleared,
        &(),
        &(),
        &(),
        &(),
    );
    assert_eq!(base, 40);
    assert_eq!(multiplier, 0);
    assert_eq!(base * multiplier, 0);
    // with a chain power of one the total is the base
    let one: u64 = 1;
    let scorer = StandardScorer {
        pieces_cleared: &TrivialPiecesCleared,
        point_bonus: &(),
        chain_power: &one,
        color_bonus: &(),
        group_bonus: &(),
        phantom: std::marker::PhantomData,
    };
    assert_eq!(scorer.score(&board, &popped), 40);
}

/// The colour bonus counts the distinct colours of the groups' first tiles
/// and clamps the table lookup to the last entry.
#[test]
fn color_bonus_counts_distinct_colors() {
    let board = parse_board(
        "
        rbgyp
    ",
    );
    let table = [0u64, 10, 20];
    let bonus = ColorBonusTable { table: &table };
    // two distinct colours among the first tiles
    let two = RefGroups {
        groups: vec![vec![h(0, 0)], vec![h(1, 0)], vec![h(0, 0)]],
    };
    assert_eq!(bonus.score(&board, &two), 20);
    // five distinct colours: the lookup clamps to the last entry
    let five = RefGroups {
        groups: vec![
            vec![h(0, 0)],
            vec![h(1, 0)],
            vec![h(2, 0)],
            vec![h(3, 0)],
            vec![h(4, 0)],
        ],
    };
    assert_eq!(bonus.score(&board, &five), 20);
    // repeated colours count once
    let repeats = RefGroups {
        groups: vec![vec![h(0, 0)], vec![h(0, 0)], vec![h(1, 0)]],
    };
    assert_eq!(bonus.score(&board, &repeats), 20);
    let one_color = RefGroups {
        groups: vec![vec![h(0, 0)], vec![h(0, 0)]],
    };
    assert_eq!(bonus.score(&board, &one_color), 10);
    // an empty table scores zero
    let empty = ColorBonusTable { table: &[] };
    assert_eq!(empty.score(&board, &five), 0);
}

/// The group bonus looks sizes up in its table, only for groups whose first
/// tile has a colour.
#[test]
fn group_bonus_sums_considered_groups() {
    let board = parse_board(
        "
        oo__
        rrrr
    ",
    );
    let table = [0u64, 1, 2, 3, 50];
    let bonus = GroupBonusTable { table: &table };
    let groups = RefGroups {
        groups: vec![
            vec![h(0, 0), h(1, 0), h(2, 0), h(3, 0)],
            // first tile is a nuisance tile: no colour, not considered
            vec![h(0, 1), h(1, 1)],
        ],
    };
    assert_eq!(bonus.score(&board, &groups), 50);
    // sizes beyond the table clamp to the last entry
    let long = RefGroups {
        groups: vec![vec![h(0, 0), h(1, 0), h(2, 0), h(3, 0), h(0, 1), h(1, 1)]],
    };
    assert_eq!(bonus.score(&board, &long), 50);
}

/// Scenario: one pass on `rrrrb` with threshold four scores forty with a
/// chain power of one and clears four pieces.
#[test]
fn quick_sim_scores_one_step() {
    let mut board = parse_board("rrrrb");
    let table = [1u64];
    let result = quick_sim(
        &mut board,
        4,
        &TrivialPiecesCleared,
        &(),
        &table,
        &(),
        &(),
    );
    assert_eq!(result.score, 40);
    assert_eq!(result.chain, 1);
    assert_eq!(result.pieces_cleared, 4);
    assert_eq!(result.max_pieces_at_once, 4);
    assert_eq!(board, parse_board("____b"));
}

/// The chain board runs to fully empty through the simulation loop, and the
/// chain counter sees every step.
#[test]
fn quick_sim_runs_a_chain() {
    let mut board = parse_board(
        "
    orbg
    rbgy
    rbgyo
    rbgyy
    ",
    );
    let table = [1u64];
    let result = quick_sim(
        &mut board,
        4,
        &TrivialPiecesCleared,
        &(),
        &table,
        &(),
        &(),
    );
    assert_eq!(board.items, [[Tile::Air; 6]; 12]);
    assert!(result.chain >= 2);
    assert_eq!(result.pieces_cleared, 18);
}

/// Extracting a group removes exactly the first group holding the handle.
#[test]
fn groups_find_extracts() {
    let mut groups = owanimo::Groups {
        groups: vec![vec![1, 2], vec![3, 4], vec![2, 5]],
    };
    let found = groups.find(2);
    assert_eq!(found, Some(vec![1, 2]));
    assert_eq!(groups.groups, vec![vec![3, 4], vec![2, 5]]);
    assert_eq!(groups.find(9), None);
    assert_eq!(groups.groups.len(), 2);
    groups.push(vec![7]);
    assert_eq!(groups.groups.len(), 3);
    let refs = groups.as_ref();
    assert!(refs.test(7));
    assert!(!refs.test(1));
    assert_eq!(refs.find(5), Some(vec![2, 5]));
    assert_eq!(refs.find(1), None);
    let owned = refs.to_owned();
    assert_eq!(owned.groups, groups.groups);
}

/// A board that enumerates no tiles at all.
struct VoidBoard;

impl Board for VoidBoard {
    fn spec_tiles(&self) -> vstd::seq::Seq<usize> {
        panic!()
    }

    fn spec_neighbors(&self, _handle: usize) -> vstd::seq::Seq<usize> {
        panic!()
    }

    fn spec_connects(&self, _a: usize, _b: usize) -> bool {
        panic!()
    }

    fn spec_is_air(&self, _handle: usize) -> bool {
        panic!()
    }

    fn tiles(&self) -> Vec<usize> {
        Vec::new()
    }

    fn neighbors(&self, _handle: usize) -> Vec<usize> {
        Vec::new()
    }

    fn connects(&self, _a: usize, _b: usize) -> bool {
        false
    }
}

/// An empty board yields an empty partition.
#[test]
fn grouping_empty_board() {
    let groups = owanimo_grouper(&VoidBoard);
    assert!(groups.groups.is_empty());
}

/// Score arithmetic clamps at the largest score instead of wrapping.
#[test]
fn scoring_saturates() {
    let board = parse_board("rrrr");
    let groups = owanimo_grouper(&board);
    let popped = groups.as_ref().owanimo_pop(4);
    let huge: u64 = u64::MAX;
    let (base, multiplier) = score(
        &board,
        &popped,
        &TrivialPiecesCleared,
        &huge,
        &huge,
        &(),
        &(),
    );
    assert_eq!(base, u64::MAX);
    assert_eq!(multiplier, u64::MAX);
    let scorer = StandardScorer {
        pieces_cleared: &TrivialPiecesCleared,
        point_bonus: &huge,
        chain_power: &huge,
        color_bonus: &(),
        group_bonus: &(),
        phantom: std::marker::PhantomData,
    };
    assert_eq!(scorer.score(&board, &popped), u64::MAX);
}

/// An empty group-bonus table scores zero; lookups never fail.
#[test]
fn group_bonus_empty_table() {
    let board = parse_board("rrrr");
    let groups = owanimo_grouper(&board);
    let popped = groups.as_ref().owanimo_pop(4);
    let bonus = GroupBonusTable { table: &[] };
    assert_eq!(bonus.score(&board, &popped), 0);
}

/// Columns with nothing to move: all air, all tiles, or a single entry.
#[test]
fn compaction_edge_cases() {
    let mut board = empty_board();
    // column x=1 all air
    let mut all_air: Vec<usize> = (0..12).map(|y| h(1, y)).collect();
    let before = all_air.clone();
    assert!(!compact_column(&board, &mut all_air));
    assert_eq!(all_air, before);
    // column x=2 entirely tiles
    for y in 0..12 {
        board.set(h(2, y), Tile::Green);
    }
    let mut all_solid: Vec<usize> = (0..12).map(|y| h(2, y)).collect();
    let before = all_solid.clone();
    assert!(!compact_column(&board, &mut all_solid));
    assert_eq!(all_solid, before);
    // a single entry never moves
    board.set(h(3, 0), Tile::Red);
    let mut single = vec![h(3, 0)];
    assert!(!compact_column(&board, &mut single));
    assert_eq!(single, vec![h(3, 0)]);
}

/// The terminating pass contributes nothing: a run that clears nothing ends
/// with zero score even when the point bonus is positive, and removes
/// nothing.
#[test]
fn quick_sim_terminating_pass_adds_nothing() {
    let mut board = parse_board("rrrb");
    let before = board;
    let bonus: u64 = 5;
    let table = [1u64];
    let result = quick_sim(
        &mut board,
        4,
        &TrivialPiecesCleared,
        &bonus,
        &table,
        &(),
        &(),
    );
    assert_eq!(result.score, 0);
    assert_eq!(result.chain, 0);
    assert_eq!(result.pieces_cleared, 0);
    assert_eq!(result.max_pieces_at_once, 0);
    assert_eq!(board, before);
}

/// Each group leads with its last-enumerated member and the groups stand in
/// the order of those leading members. On this grid the enumeration is the
/// numeric handle order, so heads are numeric maxima and strictly increase.
#[test]
fn grouping_heads_are_canonical() {
    let board = parse_board(
        "
        rrb
        grb
    ",
    );
    let groups = owanimo_grouper(&board);
    let mut prev_head: Option<usize> = None;
    for g in &groups.groups {
        let head = g[0];
        for &m in g {
            assert!(m <= head);
        }
        if let Some(p) = prev_head {
            assert!(p < head);
        }
        prev_head = Some(head);
    }
}
