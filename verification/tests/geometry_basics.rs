use rect_packing::bin::{Bin, Placement};
use rect_packing::evaluator::{evaluate, fits_evaluation, Score};
use rect_packing::greedy::PackingSolution;
use rect_packing::rectangle::Rectangle;
use rect_packing::skyline::SkylineBin;

fn placement(rect_id: usize, x: u32, y: u32, width: u32, height: u32, rotated: bool) -> Placement {
    Placement { rect_id, x, y, width, height, rotated }
}

fn key(p: &Placement) -> (usize, u32, u32, u32, u32, bool) {
    (p.rect_id, p.x, p.y, p.width, p.height, p.rotated)
}

#[test]
fn rectangle_area_is_width_times_height() {
    assert_eq!(Rectangle { id: 0, width: 4, height: 3 }.area(), 12);
    assert_eq!(Rectangle { id: 1, width: 0, height: 7 }.area(), 0);
}

#[test]
fn can_place_checks_box_and_overlap() {
    let mut bin = Bin { id: 0, size: 10, placements: Vec::new() };
    assert!(bin.can_place_dimensions(5, 5, 5, 5, 0));
    assert!(!bin.can_place_dimensions(5, 5, 6, 0, 0));
    assert!(!bin.can_place_dimensions(5, 5, 0, 6, 0));
    bin.place_dimensions(7, 5, 10, 0, 0, false);
    assert!(!bin.can_place_dimensions(1, 1, 4, 9, 0));
    assert!(bin.can_place_dimensions(1, 1, 5, 9, 0));
    // touching edges do not conflict
    assert!(bin.can_place_dimensions(5, 10, 5, 0, 0));
}

#[test]
fn can_place_ignoring_skips_same_identifier() {
    let mut bin = Bin { id: 0, size: 10, placements: Vec::new() };
    bin.place_dimensions(3, 4, 4, 0, 0, false);
    assert!(!bin.can_place_dimensions_ignoring(4, 4, 2, 2, 9));
    assert!(bin.can_place_dimensions_ignoring(4, 4, 2, 2, 3));
    assert!(!bin.can_place_dimensions_ignoring(4, 4, 7, 2, 3));
}

#[test]
fn place_dimensions_appends() {
    let mut bin = Bin { id: 2, size: 10, placements: Vec::new() };
    bin.place_dimensions(1, 2, 3, 4, 5, true);
    bin.place_dimensions(2, 1, 1, 0, 0, false);
    assert_eq!(bin.placements.len(), 2);
    assert_eq!(key(&bin.placements[0]), (1, 4, 5, 2, 3, true));
    assert_eq!(key(&bin.placements[1]), (2, 0, 0, 1, 1, false));
    assert_eq!(bin.id, 2);
}

#[test]
fn first_fit_scans_columns_then_rows() {
    let mut bin = Bin { id: 0, size: 10, placements: Vec::new() };
    bin.place_dimensions(0, 5, 10, 0, 0, false);
    let placed = bin.try_place_first_fit(&Rectangle { id: 1, width: 4, height: 4 });
    assert!(placed);
    assert_eq!(key(&bin.placements[1]), (1, 5, 0, 4, 4, false));
    // an upright 6x3 does not fit in the 1-wide strip left at x = 9, nor in
    // the 5x6 hole above (5,4): at x = 5 the first free row is y = 4, where
    // 6 + 5 > 10, so it is turned to 3x6.
    let placed = bin.try_place_first_fit(&Rectangle { id: 2, width: 6, height: 3 });
    assert!(placed);
    assert_eq!(key(&bin.placements[2]), (2, 5, 4, 3, 6, true));
    let placed = bin.try_place_first_fit(&Rectangle { id: 3, width: 6, height: 6 });
    assert!(!placed);
    assert_eq!(bin.placements.len(), 3);
}

#[test]
fn remove_and_get_use_first_match() {
    let mut bin = Bin { id: 0, size: 10, placements: Vec::new() };
    bin.place_dimensions(4, 1, 1, 0, 0, false);
    bin.place_dimensions(5, 2, 2, 3, 3, false);
    bin.place_dimensions(4, 3, 3, 6, 6, false);
    assert_eq!(key(bin.get_placement_by_rect_id(4).unwrap()), (4, 0, 0, 1, 1, false));
    assert!(bin.get_placement_by_rect_id(9).is_none());
    let removed = bin.remove_placement_by_rect_id(4).unwrap();
    assert_eq!(key(&removed), (4, 0, 0, 1, 1, false));
    assert_eq!(bin.placements.len(), 2);
    assert_eq!(key(&bin.placements[0]), (5, 3, 3, 2, 2, false));
    assert_eq!(key(&bin.placements[1]), (4, 6, 6, 3, 3, false));
    assert!(bin.remove_placement_by_rect_id(9).is_none());
    assert_eq!(bin.placements.len(), 2);
    assert!(!bin.is_empty());
    bin.remove_placement_by_rect_id(5);
    bin.remove_placement_by_rect_id(4);
    assert!(bin.is_empty());
}

#[test]
fn evaluate_counts_bins_and_waste() {
    let empty = PackingSolution { bins: Vec::new() };
    assert_eq!(evaluate(&empty, 10), Score { bins_used: 0, wasted_area: 0 });
    let solution = PackingSolution {
        bins: vec![
            Bin { id: 0, size: 10, placements: vec![placement(0, 0, 0, 5, 5, false), placement(1, 5, 0, 4, 3, false)] },
            Bin { id: 1, size: 10, placements: vec![placement(2, 0, 0, 10, 10, false)] },
        ],
    };
    assert_eq!(evaluate(&solution, 10), Score { bins_used: 2, wasted_area: 63 });
}

#[test]
fn evaluate_waste_is_zero_when_overfull() {
    let solution = PackingSolution {
        bins: vec![Bin {
            id: 0,
            size: 4,
            placements: vec![placement(0, 0, 0, 4, 4, false), placement(1, 0, 0, 4, 4, false)],
        }],
    };
    assert_eq!(evaluate(&solution, 4), Score { bins_used: 1, wasted_area: 0 });
}

#[test]
fn scores_order_by_bins_then_waste() {
    let a = Score { bins_used: 1, wasted_area: 90 };
    let b = Score { bins_used: 2, wasted_area: 0 };
    let c = Score { bins_used: 2, wasted_area: 5 };
    assert!(a < b);
    assert!(b < c);
    assert!(!(c < b));
    assert!(a <= a);
}

#[test]
fn skyline_places_lowest_then_leftmost() {
    let mut bin = SkylineBin::new(10);
    assert!(bin.place(&Rectangle { id: 0, width: 4, height: 3 }));
    assert!(bin.place(&Rectangle { id: 1, width: 5, height: 5 }));
    let out = bin.into_bin(7);
    assert_eq!(out.id, 7);
    assert_eq!(out.size, 10);
    assert_eq!(out.placements.len(), 2);
    assert_eq!(key(&out.placements[0]), (0, 0, 0, 4, 3, false));
    assert_eq!(key(&out.placements[1]), (1, 4, 0, 5, 5, false));
}

#[test]
fn skyline_turns_when_only_turned_fits() {
    let mut bin = SkylineBin::new(10);
    assert!(bin.place(&Rectangle { id: 0, width: 10, height: 8 }));
    // 10x2 lies flat on top; 2x10 would not fit anywhere else
    assert!(bin.place(&Rectangle { id: 1, width: 2, height: 10 }));
    let out = bin.into_bin(0);
    assert_eq!(key(&out.placements[1]), (1, 0, 8, 10, 2, true));
}

#[test]
fn skyline_refuses_what_has_no_room() {
    let mut bin = SkylineBin::new(10);
    assert!(bin.place(&Rectangle { id: 0, width: 10, height: 10 }));
    assert!(!bin.place(&Rectangle { id: 1, width: 1, height: 1 }));
    assert!(!SkylineBin::new(10).place(&Rectangle { id: 2, width: 11, height: 1 }));
    assert_eq!(bin.into_bin(0).placements.len(), 1);
}

#[test]
fn evaluation_range_check() {
    let small = PackingSolution { bins: vec![Bin { id: 0, size: 10, placements: vec![placement(0, 0, 0, 5, 5, false)] }] };
    assert!(fits_evaluation(&small, 10));
    assert!(fits_evaluation(&small, 65535));
    assert!(!fits_evaluation(&small, 65536));
    let heavy = PackingSolution {
        bins: vec![Bin {
            id: 0,
            size: 10,
            placements: vec![placement(0, 0, 0, 65535, 65535, false), placement(1, 0, 0, 3, 65535, false)],
        }],
    };
    assert!(!fits_evaluation(&heavy, 1));
    assert!(fits_evaluation(&PackingSolution { bins: Vec::new() }, u32::MAX));
}
