use rect_packing::bin::{Bin, Placement};
use rect_packing::evaluator::{evaluate, score_packing, Score};
use rect_packing::framework::first_improving;
use rect_packing::greedy::{pack_rectangles, run_greedy, unplaced_rectangles, GreedyStrategy, PackingSolution};
use rect_packing::instance::Instance;
use rect_packing::local_search::{run_local_search_swap_tuned, LocalSearchStart, PermutationProblem};
use rect_packing::local_search_geometry::{is_geometry_admissible, run_geometry_local_search};
use rect_packing::local_search_overlap::OverlapSearch;
use rect_packing::rectangle::Rectangle;

fn placement(rect_id: usize, x: u32, y: u32, width: u32, height: u32, rotated: bool) -> Placement {
    Placement { rect_id, x, y, width, height, rotated }
}

fn ids(order: &[Rectangle]) -> Vec<usize> {
    order.iter().map(|r| r.id).collect()
}

fn key(p: &Placement) -> (usize, u32, u32, u32, u32, bool) {
    (p.rect_id, p.x, p.y, p.width, p.height, p.rotated)
}

#[test]
fn overlapping_start_falls_back_to_area_greedy_packing() {
    let instance = Instance {
        rectangles: vec![Rectangle { id: 0, width: 2, height: 2 }, Rectangle { id: 1, width: 2, height: 2 }],
        box_size: 4,
    };
    let start = PackingSolution {
        bins: vec![Bin {
            id: 0,
            size: 4,
            placements: vec![placement(1, 0, 0, 2, 2, false), placement(0, 0, 0, 2, 2, false)],
        }],
    };
    let search = OverlapSearch::start_checked(&instance, start).expect("the search can start");
    let result = search.finish();
    assert_eq!(result.solution.bins.len(), 1);
    assert_eq!(result.solution.bins[0].id, 0);
    assert_eq!(result.solution.bins[0].size, 4);
    let keys: Vec<_> = result.solution.bins[0].placements.iter().map(key).collect();
    assert_eq!(keys, vec![(0, 0, 0, 2, 2, false), (1, 2, 0, 2, 2, false)]);
    assert_eq!(result.score, Score { bins_used: 1, wasted_area: 8 });
    assert_eq!(result.iterations, 0);
    assert_eq!(result.history.len(), 1);
}

#[test]
fn overlap_search_starts_on_three_hundred_rectangles_of_side_three_hundred() {
    let rectangles: Vec<Rectangle> = (0..300).map(|id| Rectangle { id, width: 10, height: 10 }).collect();
    let instance = Instance { rectangles, box_size: 300 };
    let start = rect_packing::greedy::run_greedy(&instance, rect_packing::greedy::GreedyStrategy::AreaDescending);
    assert!(OverlapSearch::start_checked(&instance, start).is_some());
}

#[test]
fn unplaced_rectangles_are_those_fitting_no_box() {
    let instance = Instance {
        rectangles: vec![
            Rectangle { id: 0, width: 3, height: 3 },
            Rectangle { id: 1, width: 6, height: 2 },
            Rectangle { id: 2, width: 2, height: 6 },
            Rectangle { id: 3, width: 5, height: 4 },
        ],
        box_size: 5,
    };
    assert_eq!(unplaced_rectangles(&instance, &instance.rectangles), vec![1, 2]);
    let packed = pack_rectangles(&instance, &instance.rectangles);
    let ids: Vec<usize> = packed.bins.iter().flat_map(|b| b.placements.iter().map(|p| p.rect_id)).collect();
    assert_eq!(ids.len(), 2);
    assert!(ids.contains(&0) && ids.contains(&3));
}

#[test]
fn first_improving_takes_the_first_strictly_better() {
    let instance = Instance {
        rectangles: vec![Rectangle { id: 0, width: 2, height: 4 }, Rectangle { id: 1, width: 2, height: 4 }],
        box_size: 4,
    };
    let problem = PermutationProblem { instance: instance.clone() };
    let first = vec![instance.rectangles[0], instance.rectangles[1]];
    let second = vec![instance.rectangles[1], instance.rectangles[0]];
    let score = evaluate(&pack_rectangles(&instance, &first), 4);
    assert_eq!(score, Score { bins_used: 1, wasted_area: 0 });
    // nothing is strictly below a score that every candidate reaches
    assert!(first_improving(&problem, vec![first.clone(), second.clone()], &score).is_none());
    // against a worse score the first candidate is taken
    let worse = Score { bins_used: 2, wasted_area: 0 };
    let (taken, taken_score) = first_improving(&problem, vec![first.clone(), second.clone()], &worse).expect("improves");
    assert_eq!(ids(&taken), ids(&first));
    assert_eq!(taken_score, score);
    let (taken, _) = first_improving(&problem, vec![second.clone(), first.clone()], &worse).expect("improves");
    assert_eq!(ids(&taken), ids(&second));
    assert!(first_improving(&problem, Vec::new(), &worse).is_none());
}

#[test]
fn searches_run_on_many_unit_squares_in_a_large_box() {
    let rectangles: Vec<Rectangle> = (0..1000).map(|id| Rectangle { id, width: 1, height: 1 }).collect();
    let instance = Instance { rectangles, box_size: 2100 };
    let result = run_local_search_swap_tuned(&instance, 1, LocalSearchStart::GreedyAreaDescending, 3);
    assert_eq!(result.solution.bins.len(), 1);
    assert_eq!(result.score, evaluate(&result.solution, 2100));
    let start = run_greedy(&instance, GreedyStrategy::AreaDescending);
    assert!(is_geometry_admissible(&start, 2100));
    let stacked = PackingSolution {
        bins: vec![Bin { id: 0, size: 2100, placements: (0..1000).map(|id| placement(id, 0, 0, 1, 1, false)).collect() }],
    };
    let search = OverlapSearch::start_checked(&instance, stacked).expect("the search can start");
    let result = search.finish();
    assert_eq!(result.solution.bins.len(), 1);
    assert_eq!(result.solution.bins[0].placements.len(), 1000);
    assert_eq!(result.score, evaluate(&result.solution, 2100));
}

#[test]
fn scores_saturate_where_the_capacity_does_not_fit() {
    let bins: Vec<Bin> = (0..2).map(|id| Bin { id, size: 50000, placements: Vec::new() }).collect();
    let solution = PackingSolution { bins };
    assert_eq!(score_packing(&solution, 50000), Score { bins_used: 2, wasted_area: u32::MAX });
    let one = PackingSolution { bins: vec![Bin { id: 0, size: 10, placements: vec![placement(0, 0, 0, 3, 3, false)] }] };
    assert_eq!(score_packing(&one, 10), evaluate(&one, 10));
    assert_eq!(score_packing(&one, 10), Score { bins_used: 1, wasted_area: 91 });
}

#[test]
fn geometry_search_takes_a_large_rectangle_with_many_small_ones() {
    let mut rectangles = vec![Rectangle { id: 0, width: 2000, height: 2000 }];
    rectangles.extend((1..1101).map(|id| Rectangle { id, width: 1, height: 1 }));
    let instance = Instance { rectangles, box_size: 2100 };
    let start = run_greedy(&instance, GreedyStrategy::AreaDescending);
    assert!(is_geometry_admissible(&start, 2100));
    let result = run_geometry_local_search(&instance, start, 1);
    assert_eq!(result.solution.bins.len(), 1);
    assert_eq!(result.score, evaluate(&result.solution, 2100));
    assert_eq!(result.history.len(), 1);
}
