use std::cell::Cell;

use enchant_calc::registry;
use enchant_calc::solver::{Enchant, Path, ResolvedStepItem, Solver, SolverResult};
use enchant_calc::units::{ItemKey, ItemKeyCombination};

fn catalogue_entry(name: &str, weight: u32) -> registry::Enchant {
    registry::Enchant {
        name: name.to_string(),
        level_max: 5,
        weight,
        incompatible: Vec::new(),
        items: vec![registry::Item::Sword],
    }
}

fn sel(name: &str, weight: u32, level: u32) -> Enchant {
    Enchant::new(catalogue_entry(name, weight), level)
}

fn run(selections: Vec<Enchant>) -> SolverResult {
    let solver = Solver::new(selections);
    solver.solve(|_tries: u32| {})
}

/// An exhaustive reference search over every legal merge order, with the
/// same cost rules: sacrificed side's score sum plus both repair penalties.
#[derive(Clone)]
struct BruteUnit {
    has_item: bool,
    scores: Vec<u32>,
    uses: u32,
}

fn brute_penalty(uses: u32) -> u32 {
    if uses >= 32 {
        u32::MAX
    } else {
        (1u32 << uses) - 1
    }
}

fn brute_min(units: &[BruteUnit]) -> Option<u32> {
    if units.len() <= 1 {
        return None;
    }
    let mut best: Option<u32> = None;
    for l in 0..units.len() {
        for r in 0..units.len() {
            if l == r || units[r].has_item {
                continue;
            }
            let step = units[r].scores.iter().sum::<u32>()
                + brute_penalty(units[l].uses)
                + brute_penalty(units[r].uses);
            let mut next: Vec<BruteUnit> = Vec::new();
            for (i, u) in units.iter().enumerate() {
                if i != l && i != r {
                    next.push(u.clone());
                }
            }
            let mut scores = units[l].scores.clone();
            scores.extend(units[r].scores.iter().copied());
            next.push(BruteUnit {
                has_item: units[l].has_item || units[r].has_item,
                scores,
                uses: units[l].uses.max(units[r].uses) + 1,
            });
            let total = if next.len() == 1 {
                step
            } else {
                match brute_min(&next) {
                    Some(rest) => step + rest,
                    None => continue,
                }
            };
            best = Some(match best {
                Some(b) => b.min(total),
                None => total,
            });
        }
    }
    best
}

fn brute_initial(weights_levels: &[(u32, u32)]) -> Vec<BruteUnit> {
    let mut units = vec![BruteUnit { has_item: true, scores: Vec::new(), uses: 0 }];
    for (w, l) in weights_levels {
        units.push(BruteUnit { has_item: false, scores: vec![w * l], uses: 0 });
    }
    units
}

#[test]
fn empty_selection_returns_no_path() {
    let result = run(Vec::new());
    assert!(result.path.is_none());
    assert_eq!(result.paths_tried, 0);
}

#[test]
fn one_step_per_selection() {
    for n in 1..=4usize {
        let selections: Vec<Enchant> =
            (0..n).map(|i| sel(&format!("E{i}"), 1, (i + 1) as u32)).collect();
        let result = run(selections);
        let path = result.path.expect("a non-empty selection must yield a path");
        assert_eq!(path.steps.len(), n);
    }
}

#[test]
fn bare_item_never_sacrificed() {
    let selections = vec![sel("A", 1, 3), sel("B", 2, 1), sel("C", 1, 1), sel("D", 4, 1)];
    let result = run(selections);
    let path = result.path.unwrap();
    for step in &path.steps {
        for entry in &step.right {
            assert!(!matches!(entry, ResolvedStepItem::Item));
        }
    }
}

#[test]
fn two_selections_cost_the_same_in_either_order() {
    // Scores 3 and 2 merged directly onto the item: the sacrificed sides
    // carry no penalty, and the item's second use costs one more, whichever
    // selection goes first.
    let order_a = run(vec![sel("A", 1, 3), sel("B", 2, 1)]);
    let order_b = run(vec![sel("B", 2, 1), sel("A", 1, 3)]);
    let cost_a = order_a.path.unwrap().cost;
    let cost_b = order_b.path.unwrap().cost;
    assert_eq!(cost_a, cost_b);
    assert_eq!(cost_a, 3 + 2 + 1);
}

#[test]
fn three_selections_prefer_an_intermediate_carrier() {
    // Weights 1, 1, 4 at level 1. Merging everything straight onto the item
    // costs 10; pairing the two cheap enchantments on a book first costs 9.
    let result = run(vec![sel("A", 1, 1), sel("B", 1, 1), sel("C", 4, 1)]);
    let path = result.path.unwrap();
    assert_eq!(path.cost, 9);
    // The winning sequence really uses an intermediate carrier: some step
    // merges enchantments without the target item on either side.
    let off_item_merge = path.steps.iter().any(|step| {
        step.left.iter().all(|e| !matches!(e, ResolvedStepItem::Item))
            && step.right.iter().all(|e| !matches!(e, ResolvedStepItem::Item))
    });
    assert!(off_item_merge);
}

#[test]
fn solver_cost_is_the_minimum_over_all_merge_orders() {
    let cases: Vec<Vec<(u32, u32)>> = vec![
        vec![(1, 3)],
        vec![(1, 3), (2, 1)],
        vec![(1, 1), (1, 1), (4, 1)],
        vec![(2, 2), (1, 5), (3, 1)],
        vec![(1, 1), (1, 1), (1, 1), (1, 1)],
        vec![(1, 4), (2, 3), (4, 1), (1, 1)],
    ];
    for case in cases {
        let selections: Vec<Enchant> = case
            .iter()
            .enumerate()
            .map(|(i, (w, l))| sel(&format!("E{i}"), *w, *l))
            .collect();
        let result = run(selections);
        let got = result.path.unwrap().cost;
        let want = brute_min(&brute_initial(&case)).unwrap();
        assert_eq!(got, want, "selections {case:?}");
    }
}

fn rendered_steps(result: &SolverResult) -> Vec<(Vec<String>, Vec<String>)> {
    let render = |entries: &Vec<ResolvedStepItem>| -> Vec<String> {
        entries
            .iter()
            .map(|e| match e {
                ResolvedStepItem::Item => "item".to_string(),
                ResolvedStepItem::Enchant(s) => format!("{}:{}", s.enchant.name, s.level),
            })
            .collect()
    };
    result
        .path
        .as_ref()
        .unwrap()
        .steps
        .iter()
        .map(|s| (render(&s.left), render(&s.right)))
        .collect()
}

#[test]
fn repeated_runs_return_the_same_answer() {
    let make = || vec![sel("A", 1, 4), sel("B", 2, 3), sel("C", 4, 1), sel("D", 1, 1)];
    let first = run(make());
    let second = run(make());
    assert_eq!(
        first.path.as_ref().unwrap().cost,
        second.path.as_ref().unwrap().cost
    );
    assert_eq!(rendered_steps(&first), rendered_steps(&second));
    assert_eq!(first.paths_tried, second.paths_tried);
}

#[test]
fn progress_callback_reports_examined_pairs() {
    let calls = Cell::new(0u32);
    let total = Cell::new(0u64);
    let solver = Solver::new(vec![sel("A", 1, 2), sel("B", 2, 1), sel("C", 1, 1)]);
    let result = solver.solve(|tries: u32| {
        calls.set(calls.get() + 1);
        total.set(total.get() + tries as u64);
    });
    assert!(calls.get() > 0);
    assert!(total.get() >= 1);
    assert_eq!(result.paths_tried as u64, total.get());
}

#[test]
fn levels_required_multiplies_weight_by_level() {
    let entry = catalogue_entry("Sharpness", 2);
    assert_eq!(entry.levels_required(3), 6);
}

#[test]
fn selection_keeps_its_catalogue_entry_and_level() {
    let s = sel("Mending", 2, 1);
    assert_eq!(s.enchant.name, "Mending");
    assert_eq!(s.level, 1);
}

#[test]
fn tie_break_compares_against_the_incumbent_total() {
    // With equal totals, a challenger wins when its worst single step is
    // below the incumbent's *total* cost; the incumbent's own worst step
    // never enters the comparison. This mirrors the established behaviour
    // and is kept as an open question rather than silently corrected.
    let challenger = Path::with_capacity(10, 9, 0, 0);
    let incumbent = Path::with_capacity(10, 3, 0, 0);
    assert!(challenger.is_more_effective(&incumbent));
    let level_challenger = Path::with_capacity(10, 10, 0, 0);
    assert!(!level_challenger.is_more_effective(&incumbent));
}

#[test]
fn explode_deduplicates_equivalent_future_states() {
    // The bare item plus two enchantments: four legal ordered pairs, of
    // which the two book-on-book merges leave the same units to merge.
    let state = Path {
        cost: 0,
        max_cost: 0,
        remaining: vec![
            ItemKeyCombination::single_item(ItemKey::Item, 0),
            ItemKeyCombination::single_item(ItemKey::Enchant(3, 0), 0),
            ItemKeyCombination::single_item(ItemKey::Enchant(2, 1), 0),
        ],
        steps: Vec::new(),
    };
    let (successors, tries) = state.explode();
    assert_eq!(tries, 4);
    assert_eq!(successors.len(), 3);
    for s in &successors {
        assert_eq!(s.remaining.len(), 2);
        assert_eq!(s.steps.len(), 1);
    }
}
