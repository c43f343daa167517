use rect_packing::algorithm::PackingAlgorithm;
use rect_packing::bin::Placement;
use rect_packing::evaluator::{evaluate, Score};
use rect_packing::generator::generate_instance;
use rect_packing::generic_greedy::run_generic_greedy;
use rect_packing::greedy::{pack_rectangles, run_greedy, GreedyAreaAlgorithm, GreedyMaxSideAlgorithm, GreedyStrategy, PackingSolution};
use rect_packing::instance::Instance;
use rect_packing::local_search::{run_local_search_swap, run_local_search_swap_tuned, LocalSearchStart};
use rect_packing::bin::Bin;
use rect_packing::gui::PackingApp;
use rect_packing::local_search_geometry::{is_geometry_admissible, run_geometry_local_search};
use rect_packing::packing_problem::PackingProblem;
use rect_packing::rect_order::{areas_fit, sort_rectangles, RectOrder};
use rect_packing::rectangle::Rectangle;

fn rect(id: usize, width: u32, height: u32) -> Rectangle {
    Rectangle { id, width, height }
}

fn key(p: &Placement) -> (usize, u32, u32, u32, u32, bool) {
    (p.rect_id, p.x, p.y, p.width, p.height, p.rotated)
}

fn conflict(a: &Placement, b: &Placement) -> bool {
    !(a.x + a.width <= b.x || b.x + b.width <= a.x || a.y + a.height <= b.y || b.y + b.height <= a.y)
}

/// Every rectangle of the instance that fits an empty box is placed exactly
/// once with its own dimensions (possibly turned), inside its bin, without
/// conflicts; bins are numbered in order and none is empty.
fn assert_valid_packing(instance: &Instance, solution: &PackingSolution) {
    let size = instance.box_size;
    for (index, bin) in solution.bins.iter().enumerate() {
        assert_eq!(bin.id, index);
        assert_eq!(bin.size, size);
        assert!(!bin.placements.is_empty());
        for (i, p) in bin.placements.iter().enumerate() {
            assert!(p.x + p.width <= size && p.y + p.height <= size);
            for q in bin.placements.iter().skip(i + 1) {
                assert!(!conflict(p, q), "{:?} and {:?} overlap", p, q);
            }
        }
    }
    for r in &instance.rectangles {
        let fits = (r.width <= size && r.height <= size) || (r.height <= size && r.width <= size);
        let found: Vec<&Placement> =
            solution.bins.iter().flat_map(|b| b.placements.iter()).filter(|p| p.rect_id == r.id).collect();
        if fits {
            assert_eq!(found.len(), 1, "rectangle {} placed {} times", r.id, found.len());
            let p = found[0];
            if p.rotated {
                assert_eq!((p.width, p.height), (r.height, r.width));
            } else {
                assert_eq!((p.width, p.height), (r.width, r.height));
            }
        } else {
            assert!(found.is_empty());
        }
    }
}

fn sample_instance() -> Instance {
    Instance {
        box_size: 10,
        rectangles: vec![rect(0, 4, 3), rect(1, 5, 5), rect(2, 6, 6), rect(3, 2, 9), rect(4, 7, 2), rect(5, 3, 3)],
    }
}

#[test]
fn greedy_area_packs_largest_first() {
    let instance = Instance { box_size: 10, rectangles: vec![rect(0, 4, 3), rect(1, 5, 5)] };
    let solution = run_greedy(&instance, GreedyStrategy::AreaDescending);
    assert_eq!(solution.bins.len(), 1);
    assert_eq!(key(&solution.bins[0].placements[0]), (1, 0, 0, 5, 5, false));
    assert_eq!(key(&solution.bins[0].placements[1]), (0, 5, 0, 4, 3, false));
    assert_eq!(evaluate(&solution, 10), Score { bins_used: 1, wasted_area: 63 });
}

#[test]
fn greedy_opens_a_bin_when_none_has_room() {
    let instance = Instance { box_size: 10, rectangles: vec![rect(0, 6, 6), rect(1, 6, 6)] };
    let solution = run_greedy(&instance, GreedyStrategy::MaxSideDescending);
    assert_eq!(solution.bins.len(), 2);
    assert_eq!(key(&solution.bins[0].placements[0]), (0, 0, 0, 6, 6, false));
    assert_eq!(key(&solution.bins[1].placements[0]), (1, 0, 0, 6, 6, false));
    assert_eq!(evaluate(&solution, 10), Score { bins_used: 2, wasted_area: 128 });
}

#[test]
fn pack_rectangles_leaves_out_what_never_fits() {
    let instance = Instance { box_size: 10, rectangles: vec![rect(0, 11, 1), rect(1, 3, 3)] };
    let solution = pack_rectangles(&instance, &instance.rectangles);
    assert_eq!(solution.bins.len(), 1);
    assert_eq!(solution.bins[0].placements.len(), 1);
    assert_eq!(solution.bins[0].placements[0].rect_id, 1);
    let none = pack_rectangles(&instance, &[]);
    assert!(none.bins.is_empty());
}

#[test]
fn greedy_results_are_valid_packings() {
    let instance = sample_instance();
    for strategy in [GreedyStrategy::AreaDescending, GreedyStrategy::MaxSideDescending] {
        let solution = run_greedy(&instance, strategy);
        assert_valid_packing(&instance, &solution);
    }
}

#[test]
fn generic_greedy_matches_run_greedy() {
    let instance = sample_instance();
    let problem = PackingProblem { instance: instance.clone() };
    let a = run_generic_greedy(&problem, &GreedyStrategy::AreaDescending);
    let b = run_greedy(&instance, GreedyStrategy::AreaDescending);
    let ka: Vec<_> = a.bins.iter().map(|b| b.placements.iter().map(key).collect::<Vec<_>>()).collect();
    let kb: Vec<_> = b.bins.iter().map(|b| b.placements.iter().map(key).collect::<Vec<_>>()).collect();
    assert_eq!(ka, kb);
}

#[test]
fn algorithms_have_names_and_run_their_strategy() {
    let instance = sample_instance();
    assert_eq!(GreedyAreaAlgorithm.name(), "Greedy Area");
    assert_eq!(GreedyMaxSideAlgorithm.name(), "Greedy Max Side");
    let a = GreedyAreaAlgorithm.run(&instance);
    let b = run_greedy(&instance, GreedyStrategy::AreaDescending);
    assert_eq!(GreedyAreaAlgorithm.evaluate(&a, 10), evaluate(&b, 10));
    let m = GreedyMaxSideAlgorithm.run(&instance);
    assert_valid_packing(&instance, &m);
}

#[test]
fn sorting_is_stable() {
    let mut rects = vec![rect(0, 2, 2), rect(1, 1, 4), rect(2, 3, 3), rect(3, 4, 1), rect(4, 1, 1)];
    sort_rectangles(&mut rects, RectOrder::AreaDescending);
    let ids: Vec<usize> = rects.iter().map(|r| r.id).collect();
    assert_eq!(ids, vec![2, 0, 1, 3, 4]);
    sort_rectangles(&mut rects, RectOrder::AreaAscending);
    let ids: Vec<usize> = rects.iter().map(|r| r.id).collect();
    assert_eq!(ids, vec![4, 0, 1, 3, 2]);
    sort_rectangles(&mut rects, RectOrder::MaxSideThenAreaDescending);
    let ids: Vec<usize> = rects.iter().map(|r| r.id).collect();
    assert_eq!(ids, vec![1, 3, 2, 0, 4]);
}

#[test]
fn areas_fit_detects_overflow() {
    assert!(areas_fit(&[rect(0, 65535, 65537)]));
    assert!(!areas_fit(&[rect(0, 3, 3), rect(1, 65536, 65536)]));
    assert!(areas_fit(&[]));
}

#[test]
fn generated_instances_respect_ranges() {
    let instance = generate_instance(40, 1, 8, 2, 3, 10);
    assert_eq!(instance.box_size, 10);
    assert_eq!(instance.rectangles.len(), 40);
    for (i, r) in instance.rectangles.iter().enumerate() {
        assert_eq!(r.id, i);
        assert!((1..=8).contains(&r.width));
        assert!((2..=3).contains(&r.height));
    }
    assert!(generate_instance(0, 5, 1, 5, 1, 10).rectangles.is_empty());
}

#[test]
fn permutation_search_keeps_valid_packings_and_improves() {
    let instance = generate_instance(15, 1, 8, 1, 8, 10);
    for start in [LocalSearchStart::GreedyAreaDescending, LocalSearchStart::BadAscendingArea] {
        let result = run_local_search_swap(&instance, 30, start);
        assert_valid_packing(&instance, &result.solution);
        assert_eq!(result.score, evaluate(&result.solution, 10));
        assert!(result.iterations <= 30);
        assert!(!result.history.is_empty());
        for pair in result.history.windows(2) {
            assert!(evaluate(&pair[1], 10) < evaluate(&pair[0], 10));
        }
        for snapshot in &result.history {
            assert_valid_packing(&instance, snapshot);
        }
    }
}

#[test]
fn tuned_permutation_search_with_no_neighbours_stops_at_once() {
    let instance = sample_instance();
    let result = run_local_search_swap_tuned(&instance, 10, LocalSearchStart::GreedyAreaDescending, 0);
    assert_eq!(result.history.len(), 1);
    let greedy = run_greedy(&instance, GreedyStrategy::AreaDescending);
    assert_eq!(result.score, evaluate(&greedy, 10));
}

#[test]
fn geometry_search_keeps_valid_packings_and_improves() {
    let instance = generate_instance(20, 1, 8, 1, 8, 10);
    let start = run_greedy(&instance, GreedyStrategy::AreaDescending);
    let start_score = evaluate(&start, 10);
    let result = run_geometry_local_search(&instance, start, 50);
    assert_valid_packing(&instance, &result.solution);
    assert_eq!(result.score, evaluate(&result.solution, 10));
    assert!(result.score <= start_score);
    assert!(result.iterations <= 50);
    for pair in result.history.windows(2) {
        assert!(evaluate(&pair[1], 10) < evaluate(&pair[0], 10));
    }
    for snapshot in &result.history {
        assert_valid_packing(&instance, snapshot);
    }
}

#[test]
fn geometry_search_with_no_rounds_returns_start() {
    let instance = sample_instance();
    let start = run_greedy(&instance, GreedyStrategy::AreaDescending);
    let expected: Vec<_> = start.bins.iter().map(|b| b.placements.iter().map(key).collect::<Vec<_>>()).collect();
    let result = run_geometry_local_search(&instance, start, 0);
    let got: Vec<_> = result.solution.bins.iter().map(|b| b.placements.iter().map(key).collect::<Vec<_>>()).collect();
    assert_eq!(got, expected);
    assert_eq!(result.history.len(), 1);
    assert_eq!(result.iterations, 0);
}

#[test]
fn geometry_search_from_scattered_start_with_oversized_rectangles() {
    let instance = Instance { box_size: 5, rectangles: vec![rect(0, 8, 5), rect(1, 2, 2), rect(2, 3, 1)] };
    let start = PackingApp::build_scattered_solution(&instance);
    assert!(is_geometry_admissible(&start, 5));
    let result = run_geometry_local_search(&instance, start, 20);
    assert_eq!(result.score, evaluate(&result.solution, 5));
    for r in &instance.rectangles {
        let count = result.solution.bins.iter().flat_map(|b| b.placements.iter()).filter(|p| p.rect_id == r.id).count();
        assert_eq!(count, 1);
    }
}

#[test]
fn geometry_admissibility() {
    let instance = sample_instance();
    let greedy = run_greedy(&instance, GreedyStrategy::AreaDescending);
    assert!(is_geometry_admissible(&greedy, 10));
    let far = PackingSolution {
        bins: vec![Bin {
            id: 0,
            size: 10,
            placements: vec![Placement { rect_id: 0, x: u32::MAX, y: 0, width: 1, height: 1, rotated: false }],
        }],
    };
    assert!(!is_geometry_admissible(&far, 10));
    let wide = PackingSolution { bins: vec![Bin { id: 0, size: 70000, placements: Vec::new() }] };
    assert!(is_geometry_admissible(&wide, 10));
    let many_bins = PackingSolution {
        bins: (0..50).map(|id| Bin { id, size: 10000, placements: Vec::new() }).collect(),
    };
    assert!(is_geometry_admissible(&many_bins, 10000));
    assert!(is_geometry_admissible(&many_bins, 9000));
    let big = Placement { rect_id: 0, x: 0, y: 0, width: 50000, height: 50000, rotated: false };
    let large_areas = PackingSolution {
        bins: vec![Bin { id: 0, size: 60000, placements: vec![big, Placement { rect_id: 1, ..big }] }],
    };
    assert!(is_geometry_admissible(&large_areas, 10));
    let one_large = PackingSolution { bins: vec![Bin { id: 0, size: 60000, placements: vec![big] }] };
    assert!(is_geometry_admissible(&one_large, 10));
    assert!(is_geometry_admissible(&PackingSolution { bins: Vec::new() }, 65535));
}

#[test]
fn generated_sides_vary() {
    let instance = generate_instance(60, 1, 8, 1, 8, 10);
    let first = (instance.rectangles[0].width, instance.rectangles[0].height);
    assert!(instance.rectangles.iter().any(|r| (r.width, r.height) != first));
    assert!(instance.rectangles.iter().any(|r| r.width != 1));
}
