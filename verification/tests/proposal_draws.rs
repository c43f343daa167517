use rect_packing::bin::{Bin, Placement};
use rect_packing::greedy::PackingSolution;
use rect_packing::local_search_geometry::geometry_draw_proposals;
use rect_packing::local_search_overlap::first_overlap_move_at;

fn placement(rect_id: usize, x: u32, y: u32, width: u32, height: u32, rotated: bool) -> Placement {
    Placement { rect_id, x, y, width, height, rotated }
}

fn key(p: &Placement) -> (usize, u32, u32, u32, u32, bool) {
    (p.rect_id, p.x, p.y, p.width, p.height, p.rotated)
}

fn two_bins() -> PackingSolution {
    PackingSolution {
        bins: vec![
            Bin { id: 0, size: 10, placements: vec![placement(1, 0, 0, 4, 2, false)] },
            Bin { id: 1, size: 10, placements: vec![placement(2, 0, 0, 3, 3, false)] },
        ],
    }
}

#[test]
fn geometry_draw_proposes_plain_then_turned() {
    let solution = two_bins();
    let proposals = geometry_draw_proposals(&solution, (0, 0, 1, 3, 0));
    assert_eq!(proposals.len(), 2);
    for proposal in &proposals {
        assert_eq!(proposal.bins.len(), 1);
        assert_eq!(proposal.bins[0].id, 0);
        assert_eq!(proposal.bins[0].placements.len(), 2);
        assert_eq!(key(&proposal.bins[0].placements[0]), (2, 0, 0, 3, 3, false));
    }
    assert_eq!(key(&proposals[0].bins[0].placements[1]), (1, 3, 0, 4, 2, false));
    assert_eq!(key(&proposals[1].bins[0].placements[1]), (1, 3, 0, 2, 4, true));
}

#[test]
fn geometry_draw_without_placement_proposes_nothing() {
    let solution = two_bins();
    assert!(geometry_draw_proposals(&solution, (0, 5, 1, 3, 0)).is_empty());
    assert!(geometry_draw_proposals(&solution, (7, 0, 1, 3, 0)).is_empty());
}

#[test]
fn geometry_draw_skips_moves_that_overlap() {
    let solution = two_bins();
    // at (1, 0) the plain 4x2 overlaps the 3x3 square, and so does the turned 2x4
    assert!(geometry_draw_proposals(&solution, (0, 0, 1, 1, 0)).is_empty());
    // at (0, 3) the plain 4x2 fits above the square; the turned 2x4 fits too
    assert_eq!(geometry_draw_proposals(&solution, (0, 0, 1, 0, 3)).len(), 2);
}

#[test]
fn overlap_move_takes_first_position_that_fits() {
    let solution = two_bins();
    let allowed: Vec<u32> = vec![0; 101];
    let positions = vec![(9, 9), (3, 0), (0, 3)];
    let moved = first_overlap_move_at(&solution, 0, 0, 1, &positions, &allowed, 10).expect("a position fits");
    let all: Vec<(usize, u32, u32, u32, u32, bool)> =
        moved.bins.iter().flat_map(|b| b.placements.iter().map(key)).collect();
    assert!(all.contains(&(1, 3, 0, 4, 2, false)));
    assert!(all.contains(&(2, 0, 0, 3, 3, false)));
    assert_eq!(moved.bins.len(), 1);
}

#[test]
fn overlap_move_tries_only_twelve_positions() {
    let solution = two_bins();
    let allowed: Vec<u32> = vec![0; 101];
    let mut positions = vec![(9, 9); 12];
    positions.push((3, 0));
    assert!(first_overlap_move_at(&solution, 0, 0, 1, &positions, &allowed, 10).is_none());
    positions.remove(0);
    assert!(first_overlap_move_at(&solution, 0, 0, 1, &positions, &allowed, 10).is_some());
}
