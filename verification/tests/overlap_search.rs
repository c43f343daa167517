use rect_packing::bin::{Bin, Placement};
use rect_packing::evaluator::evaluate;
use rect_packing::generator::generate_instance;
use rect_packing::greedy::{run_greedy, GreedyStrategy, PackingSolution};
use rect_packing::gui::PackingApp;
use rect_packing::instance::Instance;
use rect_packing::local_search_overlap::{
    best_overlap_candidate, is_overlap_admissible, score_tuple_below, tries_per_iteration, OverlapSearch,
};
use rect_packing::rectangle::Rectangle;

fn conflict(a: &Placement, b: &Placement) -> bool {
    !(a.x + a.width <= b.x || b.x + b.width <= a.x || a.y + a.height <= b.y || b.y + b.height <= a.y)
}

fn assert_overlap_free_and_complete(instance: &Instance, solution: &PackingSolution) {
    for (index, bin) in solution.bins.iter().enumerate() {
        assert_eq!(bin.id, index);
        assert!(!bin.placements.is_empty());
        for (i, p) in bin.placements.iter().enumerate() {
            for q in bin.placements.iter().skip(i + 1) {
                assert!(!conflict(p, q));
            }
        }
    }
    for r in &instance.rectangles {
        let count = solution.bins.iter().flat_map(|b| b.placements.iter()).filter(|p| p.rect_id == r.id).count();
        assert_eq!(count, 1);
    }
}

/// Runs the search with improving moves only.
fn run_improving(instance: &Instance, start: PackingSolution, rounds: usize) -> rect_packing::local_search_overlap::OverlapResult {
    let side = instance.box_size as usize;
    let allowed: Vec<u32> = (0..=side * side).map(|a| (a / 2) as u32).collect();
    let mut search = OverlapSearch::start_checked(instance, start).expect("admissible start");
    let mut rng = rand::thread_rng();
    for _ in 0..rounds {
        if !search.has_bins() {
            break;
        }
        let current = search.current_score(10);
        let accept = match search.propose(&mut rng, tries_per_iteration(instance), &allowed, 10) {
            Some(tuple) => score_tuple_below(&tuple, &current),
            None => false,
        };
        search.advance(accept);
    }
    search.finish()
}

#[test]
fn overlap_search_from_greedy_ends_overlap_free_and_no_worse() {
    let instance = generate_instance(14, 1, 8, 1, 8, 10);
    let start = run_greedy(&instance, GreedyStrategy::AreaDescending);
    let start_score = evaluate(&start, 10);
    let result = run_improving(&instance, start, 25);
    assert_overlap_free_and_complete(&instance, &result.solution);
    for bin in &result.solution.bins {
        assert_eq!(bin.size, 10);
        for p in &bin.placements {
            assert!(p.x + p.width <= 10 && p.y + p.height <= 10);
            let r = &instance.rectangles[p.rect_id];
            if p.rotated {
                assert_eq!((p.width, p.height), (r.height, r.width));
            } else {
                assert_eq!((p.width, p.height), (r.width, r.height));
            }
        }
    }
    assert_eq!(result.score, evaluate(&result.solution, 10));
    assert!(result.score <= start_score);
    assert_eq!(result.iterations, 25);
    assert_eq!(evaluate(result.history.first().unwrap(), 10), start_score);
    for pair in result.history.windows(2) {
        assert!(evaluate(&pair[1], 10) < evaluate(&pair[0], 10));
    }
}

#[test]
fn overlap_search_from_scattered_start() {
    let instance = Instance {
        box_size: 5,
        rectangles: vec![
            Rectangle { id: 0, width: 8, height: 3 },
            Rectangle { id: 1, width: 2, height: 2 },
            Rectangle { id: 2, width: 4, height: 1 },
        ],
    };
    let start = PackingApp::build_scattered_solution(&instance);
    assert!(is_overlap_admissible(&start, 5));
    let result = run_improving(&instance, start, 10);
    assert_overlap_free_and_complete(&instance, &result.solution);
}

#[test]
fn overlapping_start_falls_back_to_greedy() {
    let instance = Instance {
        box_size: 10,
        rectangles: vec![Rectangle { id: 0, width: 6, height: 6 }, Rectangle { id: 1, width: 6, height: 6 }],
    };
    let start = PackingSolution {
        bins: vec![Bin {
            id: 0,
            size: 10,
            placements: vec![
                Placement { rect_id: 0, x: 0, y: 0, width: 6, height: 6, rotated: false },
                Placement { rect_id: 1, x: 2, y: 2, width: 6, height: 6, rotated: false },
            ],
        }],
    };
    let search = OverlapSearch::start_checked(&instance, start).unwrap();
    let result = search.finish();
    assert_eq!(result.solution.bins.len(), 2);
    assert_overlap_free_and_complete(&instance, &result.solution);
    assert_eq!(result.iterations, 0);
    assert_eq!(result.history.len(), 1);
}

#[test]
fn start_is_refused_where_it_cannot_work() {
    let zero = Instance { box_size: 10, rectangles: vec![Rectangle { id: 0, width: 0, height: 3 }] };
    let overlapping = PackingSolution {
        bins: vec![Bin {
            id: 0,
            size: 10,
            placements: vec![
                Placement { rect_id: 0, x: 0, y: 0, width: 2, height: 2, rotated: false },
                Placement { rect_id: 1, x: 1, y: 1, width: 2, height: 2, rotated: false },
            ],
        }],
    };
    // a rectangle of width zero is packed like any other: the search can start
    assert!(OverlapSearch::start_checked(&zero, overlapping).is_some());
    let huge = PackingSolution {
        bins: vec![Bin {
            id: 0,
            size: 70000,
            placements: vec![Placement { rect_id: 0, x: 0, y: 0, width: 70000, height: 70000, rotated: false }],
        }],
    };
    assert!(!is_overlap_admissible(&huge, 10));
    let far = PackingSolution {
        bins: vec![Bin {
            id: 0,
            size: 10,
            placements: vec![Placement { rect_id: 0, x: u32::MAX - 1, y: 0, width: 2, height: 1, rotated: false }],
        }],
    };
    assert!(!is_overlap_admissible(&far, 10));
    let inst = Instance { box_size: 10, rectangles: vec![Rectangle { id: 0, width: 1, height: 1 }] };
    assert!(OverlapSearch::start_checked(&inst, far).is_none());
}

#[test]
fn admissibility_of_ordinary_packings() {
    let instance = generate_instance(30, 1, 8, 1, 8, 10);
    let greedy = run_greedy(&instance, GreedyStrategy::AreaDescending);
    assert!(is_overlap_admissible(&greedy, 10));
    assert!(is_overlap_admissible(&PackingSolution { bins: Vec::new() }, 0));
}

#[test]
fn proposals_need_tries_and_bins() {
    let instance = generate_instance(6, 1, 8, 1, 8, 10);
    let greedy = run_greedy(&instance, GreedyStrategy::AreaDescending);
    let allowed: Vec<u32> = vec![0; 101];
    let mut rng = rand::thread_rng();
    assert!(best_overlap_candidate(&greedy, &mut rng, 0, &allowed, 10, 4).is_none());
    let empty = PackingSolution { bins: Vec::new() };
    assert!(best_overlap_candidate(&empty, &mut rng, 50, &allowed, 10, 4).is_none());
}

#[test]
fn proposals_keep_every_rectangle_once() {
    let instance = generate_instance(12, 1, 6, 1, 6, 10);
    let greedy = run_greedy(&instance, GreedyStrategy::AreaDescending);
    let allowed: Vec<u32> = (0..=100u32).collect();
    let mut rng = rand::thread_rng();
    for _ in 0..20 {
        if let Some((candidate, _)) = best_overlap_candidate(&greedy, &mut rng, 30, &allowed, 10, 4) {
            for r in &instance.rectangles {
                let count = candidate.bins.iter().flat_map(|b| b.placements.iter()).filter(|p| p.rect_id == r.id).count();
                assert_eq!(count, 1);
            }
            for (index, bin) in candidate.bins.iter().enumerate() {
                assert_eq!(bin.id, index);
                assert!(!bin.placements.is_empty());
            }
        }
    }
}

#[test]
fn score_tuples_compare_component_by_component() {
    assert!(score_tuple_below(&(1, 500, 9, 9), &(2, 0, 0, 0)));
    assert!(score_tuple_below(&(1, 5, 0, 0), &(1, 5, 0, 1)));
    assert!(score_tuple_below(&(1, 5, 0, 7), &(1, 5, 1, 0)));
    assert!(!score_tuple_below(&(1, 5, 1, 0), &(1, 5, 1, 0)));
    assert!(!score_tuple_below(&(1, 6, 0, 0), &(1, 5, 9, 9)));
}

#[test]
fn tries_depend_on_instance_size() {
    let small = generate_instance(25, 1, 2, 1, 2, 10);
    let large = generate_instance(26, 1, 2, 1, 2, 10);
    assert_eq!(tries_per_iteration(&small), 140);
    assert_eq!(tries_per_iteration(&large), 40);
}

#[test]
fn current_score_penalises_overlap() {
    let instance = Instance {
        box_size: 10,
        rectangles: vec![Rectangle { id: 0, width: 4, height: 4 }, Rectangle { id: 1, width: 4, height: 4 }],
    };
    let start = PackingSolution {
        bins: vec![Bin {
            id: 0,
            size: 10,
            placements: vec![
                Placement { rect_id: 0, x: 0, y: 0, width: 4, height: 4, rotated: false },
                Placement { rect_id: 1, x: 2, y: 2, width: 4, height: 4, rotated: false },
            ],
        }],
    };
    let search = OverlapSearch::start_checked(&instance, start).unwrap();
    // waste 100 - 32 = 68, overlap 2x2 = 4, coordinates 0 + 4 plus half a box 5
    assert_eq!(search.current_score(3), (1, 68 + 12 + 9, 4, 9));
    assert_eq!(search.iterations(), 0);
}

#[test]
fn accepted_proposals_become_current() {
    let instance = generate_instance(10, 1, 6, 1, 6, 10);
    let start = run_greedy(&instance, GreedyStrategy::AreaDescending);
    let mut search = OverlapSearch::start_checked(&instance, start).unwrap();
    let allowed: Vec<u32> = (0..=100u32).collect();
    let mut rng = rand::thread_rng();
    let before = search.current_score(7);
    let mut adopted = false;
    for _ in 0..20 {
        if let Some(tuple) = search.propose(&mut rng, 40, &allowed, 7) {
            search.advance(false);
            assert_eq!(search.current_score(7), before);
            if let Some(again) = search.propose(&mut rng, 40, &allowed, 7) {
                search.advance(true);
                assert_eq!(search.current_score(7), again);
                adopted = true;
                let _ = tuple;
                break;
            }
        } else {
            search.advance(true);
            assert_eq!(search.current_score(7), before);
        }
    }
    assert!(adopted);
    let result = search.finish();
    for r in &instance.rectangles {
        let count = result.solution.bins.iter().flat_map(|b| b.placements.iter()).filter(|p| p.rect_id == r.id).count();
        assert_eq!(count, 1);
    }
}
