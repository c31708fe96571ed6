//! Bot and search-graph behaviour: statistics, work cycles, speculation
//! coverage, despeculation stability and suggestions.

use cold_clear_2::board::Board;
use cold_clear_2::bot::Bot;
use cold_clear_2::bot::BotOptions;
use cold_clear_2::bot::CellCountEvaluator;
use cold_clear_2::bot::Statistics;
use cold_clear_2::dag::state_hash;
use cold_clear_2::data::GameState;
use cold_clear_2::data::Piece;
use cold_clear_2::data::PieceSet;
use cold_clear_2::eval::IntEval;
use cold_clear_2::rng::exponential_index;
use cold_clear_2::rng::pick_index;

fn empty_state() -> GameState {
    GameState {
        board: Board::empty(),
        bag: PieceSet::all(),
        reserve: Piece::I,
        back_to_back: false,
        combo: 0,
    }
}

fn options() -> BotOptions {
    BotOptions { speculate: true, exploration_permille: 1000 }
}

const ALL_PIECES: [Piece; 7] = [
    Piece::I,
    Piece::O,
    Piece::T,
    Piece::L,
    Piece::J,
    Piece::S,
    Piece::Z,
];

#[test]
fn statistics_accumulate_adds_counts() {
    let mut a = Statistics { nodes: 3, selections: 2, expansions: 1 };
    let b = Statistics { nodes: 10, selections: 20, expansions: 30 };
    a.accumulate(b);
    assert_eq!(a, Statistics { nodes: 13, selections: 22, expansions: 31 });
    let d = Statistics::default();
    assert_eq!(d, Statistics { nodes: 0, selections: 0, expansions: 0 });
}

#[test]
fn random_indices_stay_below_their_bound() {
    for _ in 0..200 {
        assert!(pick_index(5) < 5);
        assert_eq!(pick_index(1), 0);
        assert!(exponential_index(3, 1000) < 3);
        assert_eq!(exponential_index(1, 500), 0);
    }
}

#[test]
fn speculative_cycles_cover_all_seven_pieces() {
    let mut bot: Bot<IntEval> = Bot::new(options(), empty_state(), Vec::new());
    let evaluator = CellCountEvaluator;
    for _ in 0..7000 {
        bot.do_work(&evaluator);
    }
    let h = state_hash(&bot.current);
    let layer = &bot.dag.layers[0];
    let idx = layer.lookup(h).expect("root node exists");
    let children = layer.nodes[idx].children.as_ref().expect("root expanded");
    for p in ALL_PIECES {
        assert!(
            !children.lists[p.index()].is_empty(),
            "no children for {:?}",
            p
        );
    }
}

#[test]
fn despeculation_fixes_the_piece_and_keeps_handles() {
    let mut bot: Bot<IntEval> = Bot::new(options(), empty_state(), Vec::new());
    let evaluator = CellCountEvaluator;
    for _ in 0..300 {
        bot.do_work(&evaluator);
    }
    assert!(bot.dag.layers[0].piece.is_none());
    let nodes_before = bot.dag.layers[0].nodes.len();
    let h = state_hash(&bot.current);
    let idx_before = bot.dag.layers[0].lookup(h).expect("root node exists");
    bot.new_piece(Piece::T);
    let layer = &bot.dag.layers[0];
    assert_eq!(layer.piece, Some(Piece::T));
    assert_eq!(layer.nodes.len(), nodes_before);
    // The same state key resolves to the same slot.
    assert_eq!(layer.lookup(h), Some(idx_before));
    // Child lists for pieces other than T are empty everywhere.
    for node in &layer.nodes {
        if let Some(children) = &node.children {
            for p in ALL_PIECES {
                if p != Piece::T {
                    assert!(children.lists[p.index()].is_empty());
                }
            }
        }
    }
}

#[test]
fn child_lists_stay_sorted_best_first() {
    let mut bot: Bot<IntEval> = Bot::new(options(), empty_state(), Vec::new());
    let evaluator = CellCountEvaluator;
    for _ in 0..400 {
        bot.do_work(&evaluator);
    }
    for layer in &bot.dag.layers {
        for node in &layer.nodes {
            if let Some(children) = &node.children {
                for p in ALL_PIECES {
                    let list = &children.lists[p.index()];
                    for w in list.windows(2) {
                        assert!(w[1].cached_eval.value <= w[0].cached_eval.value);
                    }
                }
            }
        }
    }
}

#[test]
fn suggestions_come_best_first() {
    let mut bot: Bot<IntEval> = Bot::new(options(), empty_state(), Vec::new());
    let evaluator = CellCountEvaluator;
    for _ in 0..300 {
        bot.do_work(&evaluator);
    }
    let suggestions = bot.suggest();
    assert!(!suggestions.is_empty());
    // Each suggestion is the head of some piece's child list of the root
    // node; recover those heads and check their evaluations never increase.
    let h = state_hash(&bot.current);
    let layer = &bot.dag.layers[0];
    let idx = layer.lookup(h).expect("root node exists");
    let children = layer.nodes[idx].children.as_ref().expect("root expanded");
    let mut last: Option<i64> = None;
    for mv in &suggestions {
        let head = ALL_PIECES
            .iter()
            .filter_map(|&p| children.lists[p.index()].first())
            .find(|head| head.mv == *mv)
            .expect("suggestion is the head of a per-piece list");
        if let Some(prev) = last {
            assert!(head.cached_eval.value <= prev);
        }
        last = Some(head.cached_eval.value);
    }
}

#[test]
fn suggest_returns_candidates_after_work() {
    let mut bot: Bot<IntEval> = Bot::new(options(), empty_state(), vec![Piece::T, Piece::L]);
    let evaluator = CellCountEvaluator;
    assert!(bot.suggest().is_empty());
    for _ in 0..50 {
        bot.do_work(&evaluator);
    }
    let suggestions = bot.suggest();
    assert!(!suggestions.is_empty());
    assert!(suggestions.len() <= 7);
}

#[test]
fn advancing_moves_the_root_forward() {
    let mut bot: Bot<IntEval> = Bot::new(options(), empty_state(), vec![Piece::T]);
    let evaluator = CellCountEvaluator;
    for _ in 0..30 {
        bot.do_work(&evaluator);
    }
    let suggestions = bot.suggest();
    let mv = suggestions[0];
    bot.advance(mv);
    assert!(bot.queue.is_empty());
    // The only remaining layer is the speculated one.
    assert!(bot.dag.layers[0].piece.is_none());
    // A single placement on an empty board cannot clear a line, so its four
    // cells remain on the root board.
    let filled: u32 = bot.current.board.cols.iter().map(|&c| c.count_ones()).sum();
    assert_eq!(filled, 4);
}

#[test]
fn do_work_counts_one_selection_per_cycle() {
    let mut bot: Bot<IntEval> = Bot::new(options(), empty_state(), vec![Piece::S]);
    let evaluator = CellCountEvaluator;
    let stats = bot.do_work(&evaluator);
    assert_eq!(stats.selections, 1);
    assert_eq!(stats.expansions, 1);
    assert!(stats.nodes > 0);
}
