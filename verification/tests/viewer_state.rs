use rect_packing::bin::{Bin, Placement};
use rect_packing::greedy::PackingSolution;
use rect_packing::gui::{largest_placement_area, parse_id_list, PackingApp, StrokeStyle};
use rect_packing::instance::Instance;
use rect_packing::rectangle::Rectangle;

fn p(rect_id: usize, x: u32, y: u32, width: u32, height: u32) -> Placement {
    Placement { rect_id, x, y, width, height, rotated: false }
}

fn solution(bins: Vec<Vec<Placement>>) -> PackingSolution {
    PackingSolution {
        bins: bins.into_iter().enumerate().map(|(id, placements)| Bin { id, size: 10, placements }).collect(),
    }
}

fn layout(s: &PackingSolution) -> Vec<Vec<(usize, u32, u32, u32, u32, bool)>> {
    s.bins.iter().map(|b| b.placements.iter().map(|q| (q.rect_id, q.x, q.y, q.width, q.height, q.rotated)).collect()).collect()
}

#[test]
fn default_viewer_state() {
    let app = PackingApp::default();
    assert!(app.instance.is_none());
    assert!(app.solution.is_none());
    assert_eq!(app.selected_algo, 0);
    assert_eq!(app.status, "Ready");
    assert_eq!((app.num_rects, app.min_size, app.max_size, app.box_size), (10, 1, 8, 10));
    assert!(app.history.is_empty());
    assert_eq!(app.history_index, 0);
    assert!(app.tracked_rectangles_input.is_empty());
    assert!(app.tracked_rectangles.is_empty());
    assert!(app.auto_track_most_changed);
}

#[test]
fn id_lists_are_parsed_sorted_and_deduplicated() {
    assert_eq!(parse_id_list(" 3, 1,x, +2 ,1,"), vec![1, 2, 3]);
    assert_eq!(parse_id_list(""), Vec::<usize>::new());
    assert_eq!(parse_id_list(" , ,"), Vec::<usize>::new());
    assert_eq!(parse_id_list("-1,+,++4,4a"), Vec::<usize>::new());
    assert_eq!(parse_id_list("\u{3000}7\t,0,00"), vec![0, 7]);
    assert_eq!(parse_id_list("18446744073709551615"), vec![usize::MAX]);
    assert_eq!(parse_id_list("18446744073709551616,5"), vec![5]);
}

#[test]
fn tracked_input_is_read_into_ids() {
    let mut app = PackingApp::default();
    app.tracked_rectangles_input = "9, 2,2".to_string();
    app.parse_tracked_rectangles();
    assert_eq!(app.tracked_rectangles, vec![2, 9]);
    assert_eq!(app.effective_tracked_rectangles(), vec![2, 9]);
}

#[test]
fn display_follows_history_index() {
    let mut app = PackingApp::default();
    assert!(app.current_display_solution().is_none());
    let a = solution(vec![vec![p(0, 0, 0, 1, 1)]]);
    let b = solution(vec![vec![p(0, 1, 0, 1, 1)]]);
    app.set_history_raw(vec![a.clone(), b.clone()]);
    assert_eq!(app.history_index, 1);
    assert_eq!(layout(app.current_display_solution().unwrap()), layout(&b));
    assert_eq!(layout(app.previous_display_solution().unwrap()), layout(&a));
    assert_eq!(layout(app.solution.as_ref().unwrap()), layout(&b));
    app.history_index = 0;
    assert!(app.previous_display_solution().is_none());
    app.set_history_raw(Vec::new());
    assert!(app.history.is_empty());
    assert!(app.solution.is_none());
    app.solution = Some(a.clone());
    assert_eq!(layout(app.current_display_solution().unwrap()), layout(&a));
}

#[test]
fn filtering_drops_snapshots_that_look_the_same() {
    let mut app = PackingApp::default();
    let a = solution(vec![vec![p(0, 0, 0, 2, 2), p(1, 2, 0, 2, 2)]]);
    let a_reordered = solution(vec![vec![p(1, 2, 0, 2, 2), p(0, 0, 0, 2, 2)]]);
    let b = solution(vec![vec![p(0, 0, 0, 2, 2), p(1, 0, 2, 2, 2)]]);
    let c = solution(vec![vec![p(0, 0, 0, 2, 2)], vec![p(1, 0, 0, 2, 2)]]);
    app.set_history_filtered(vec![a.clone(), a_reordered, a.clone(), b.clone(), b.clone(), c.clone()]);
    assert_eq!(app.history.len(), 3);
    assert_eq!(layout(&app.history[0]), layout(&a));
    assert_eq!(layout(&app.history[1]), layout(&b));
    assert_eq!(layout(&app.history[2]), layout(&c));
    assert_eq!(app.history_index, 2);
    assert!(app.should_keep_snapshot(&b, &c));
    assert!(!app.should_keep_snapshot(&b, &b));
    app.set_history_filtered(Vec::new());
    assert!(app.history.is_empty());
    assert!(app.solution.is_none());
}

#[test]
fn positions_and_changes_between_snapshots() {
    let prev = solution(vec![vec![p(0, 0, 0, 2, 2), p(2, 5, 5, 1, 1)], vec![p(3, 0, 0, 1, 1)]]);
    let curr = solution(vec![vec![p(0, 1, 0, 2, 2), p(2, 5, 5, 1, 1)], vec![p(1, 0, 0, 3, 3)]]);
    assert_eq!(PackingApp::find_rect_position(&curr, 1), Some((1, 0, 0, 3, 3, false)));
    assert_eq!(PackingApp::find_rect_position(&curr, 9), None);
    assert_eq!(PackingApp::changed_rectangles_between(&prev, &curr), vec![0, 1, 3]);
    assert!(PackingApp::changed_rectangles_between(&prev, &prev).is_empty());
}

#[test]
fn most_changed_ranks_by_score_then_identifier() {
    let mut app = PackingApp::default();
    let s0 = solution(vec![vec![p(0, 0, 0, 1, 1), p(1, 0, 0, 1, 1)], vec![p(2, 0, 0, 1, 1)]]);
    // 0 moves to the other bin (5), 1 moves within its bin (1), 2 is turned (2)
    let s1 = solution(vec![vec![p(1, 1, 0, 1, 1)], vec![p(2, 0, 0, 1, 1), p(0, 0, 0, 1, 1)]]);
    let mut turned = p(2, 0, 0, 1, 1);
    turned.rotated = true;
    let s2 = solution(vec![vec![p(1, 1, 0, 1, 1)], vec![turned, p(0, 0, 0, 1, 1)]]);
    app.history = vec![s0, s1, s2];
    assert_eq!(app.most_changed_rectangles(3), vec![0, 2, 1]);
    assert_eq!(app.most_changed_rectangles(1), vec![0]);
    assert_eq!(app.effective_tracked_rectangles(), vec![0]);
    app.auto_track_most_changed = false;
    assert!(app.effective_tracked_rectangles().is_empty());
    app.history.truncate(1);
    assert!(app.most_changed_rectangles(3).is_empty());
}

#[test]
fn focus_in_step_mode_shows_changed_rectangles() {
    let mut app = PackingApp::default();
    app.instance = Some(Instance { box_size: 10, rectangles: vec![Rectangle { id: 0, width: 1, height: 1 }] });
    app.selected_algo = 3;
    assert!(app.is_small_demo_mode());
    let a = solution(vec![vec![p(0, 0, 0, 1, 1), p(1, 0, 1, 1, 1)]]);
    let b = solution(vec![vec![p(0, 0, 0, 1, 1), p(1, 4, 1, 1, 1)]]);
    app.set_history_raw(vec![a.clone(), b]);
    assert_eq!(app.visual_focus_rectangles(), vec![1]);
    app.set_history_raw(vec![a.clone(), a]);
    assert!(app.visual_focus_rectangles().is_empty() || app.visual_focus_rectangles() == app.effective_tracked_rectangles());
    app.selected_algo = 1;
    assert!(!app.is_small_demo_mode());
}

#[test]
fn scattered_solution_puts_each_rectangle_alone() {
    let instance = Instance {
        box_size: 5,
        rectangles: vec![
            Rectangle { id: 0, width: 3, height: 4 },
            Rectangle { id: 1, width: 8, height: 2 },
            Rectangle { id: 2, width: 3, height: 9 },
            Rectangle { id: 3, width: 7, height: 9 },
        ],
    };
    let s = PackingApp::build_scattered_solution(&instance);
    assert_eq!(
        layout(&s),
        vec![
            vec![(0, 0, 0, 3, 4, false)],
            vec![(1, 0, 0, 2, 8, true)],
            vec![(2, 0, 0, 3, 5, false)],
            vec![(3, 0, 0, 5, 5, false)],
        ]
    );
    for (i, bin) in s.bins.iter().enumerate() {
        assert_eq!((bin.id, bin.size), (i, 5));
    }
}

#[test]
fn colours_and_strokes() {
    let mut app = PackingApp::default();
    assert_eq!(PackingApp::highlighted_color(9), (255, 99, 132));
    assert_eq!(PackingApp::highlighted_color(0), (0, 102, 255));
    assert_eq!(PackingApp::normal_rect_color(1), (153, 197, 251));
    assert_eq!(PackingApp::normal_rect_color(3), (104, 236, 243));
    assert_eq!(PackingApp::faded_rect_color(), (130, 130, 130));
    assert_eq!(app.color_for_rect(3, &[]), (104, 236, 243));
    assert_eq!(app.color_for_rect(3, &[5, 3]), (255, 99, 132));
    assert_eq!(app.color_for_rect(4, &[5, 3]), (130, 130, 130));
    assert_eq!(app.stroke_for_rect(3, true, &[5, 3]), StrokeStyle::Focus(1));
    assert_eq!(app.stroke_for_rect(4, true, &[]), StrokeStyle::Largest);
    assert_eq!(app.stroke_for_rect(4, false, &[]), StrokeStyle::Plain);
    assert_eq!(app.stroke_for_rect(4, true, &[5]), StrokeStyle::Plain);
    app.instance = Some(Instance { box_size: 10, rectangles: Vec::new() });
    app.selected_algo = 2;
    assert_eq!(app.color_for_rect(3, &[]), (130, 130, 130));
    assert_eq!(app.stroke_for_rect(4, true, &[]), StrokeStyle::Plain);
    assert!(app.should_draw_label(0, 1, 1, &[]));
}

#[test]
fn largest_area_of_a_bin() {
    let bin = Bin { id: 0, size: 10, placements: vec![p(0, 0, 0, 2, 3), p(1, 0, 0, 4, 1), p(2, 0, 0, 1, 5)] };
    assert_eq!(largest_placement_area(&bin), 6);
    assert_eq!(largest_placement_area(&Bin { id: 0, size: 10, placements: Vec::new() }), 0);
}

#[test]
fn small_instances_show_every_step() {
    let rects = |n: usize| Instance {
        box_size: 10,
        rectangles: (0..n).map(|id| Rectangle { id, width: 1, height: 1 }).collect(),
    };
    assert!(PackingApp::shows_every_step(&rects(25)));
    assert!(!PackingApp::shows_every_step(&rects(26)));
}

#[test]
fn stepping_through_snapshots_stays_in_range() {
    let mut app = PackingApp::default();
    app.set_history_raw(vec![
        PackingSolution { bins: Vec::new() },
        PackingSolution { bins: Vec::new() },
        PackingSolution { bins: Vec::new() },
    ]);
    assert_eq!(app.history_index, 2);
    assert!(!app.can_step_forward());
    assert!(app.can_step_back());
    app.step_forward();
    assert_eq!(app.history_index, 2);
    app.step_back();
    app.step_back();
    assert_eq!(app.history_index, 0);
    assert!(!app.can_step_back());
    app.step_back();
    assert_eq!(app.history_index, 0);
    app.step_forward();
    assert_eq!(app.history_index, 1);
    assert!(app.can_step_forward());
}

#[test]
fn loading_an_instance_clears_the_snapshots() {
    let mut app = PackingApp::default();
    app.set_history_raw(vec![PackingSolution { bins: Vec::new() }, PackingSolution { bins: Vec::new() }]);
    assert_eq!(app.history_index, 1);
    app.load_instance(Instance { box_size: 10, rectangles: vec![Rectangle { id: 0, width: 2, height: 3 }] });
    assert!(app.history.is_empty());
    assert_eq!(app.history_index, 0);
    assert!(app.solution.is_none());
    assert_eq!(app.instance.as_ref().map(|i| i.rectangles.len()), Some(1));
    assert!(!app.can_step_back());
    assert!(!app.can_step_forward());
}
