use dti_field::grid::{Dims, Grid, Tensor};
use dti_field::seeding::{Point, SearchError, SeedSearch};

fn cube(n: usize) -> Dims {
    Dims::new(n, n, n).unwrap()
}

#[test]
fn new_rejects_bad_steps() {
    assert!(matches!(SeedSearch::new(cube(8), 3, 0), Err(SearchError::ZeroStep)));
    assert!(matches!(
        SeedSearch::new(cube(4), 3, 2),
        Err(SearchError::StepTooLarge { step: 2, limit: 2 })
    ));
    assert!(matches!(
        SeedSearch::new(Dims::new(20, 20, 5).unwrap(), 3, 3),
        Err(SearchError::StepTooLarge { step: 3, limit: 2 })
    ));
    assert!(SeedSearch::new(cube(4), 3, 1).is_ok());
}

#[test]
fn new_search_is_empty() {
    let s = SeedSearch::new(cube(8), 3, 2).unwrap();
    assert_eq!(s.rounds(), 0);
    assert_eq!(s.n_points(), 3);
    assert_eq!(s.step(), 2);
    assert_eq!(s.dims(), cube(8));
    assert!(s.seeds().is_empty());
    assert!(s.has_round_left());
}

#[test]
fn candidates_in_scan_order() {
    let s = SeedSearch::new(cube(8), 3, 2).unwrap();
    let expected: Vec<Point> = vec![
        (2, 2, 2),
        (4, 2, 2),
        (2, 2, 4),
        (4, 2, 4),
        (2, 4, 2),
        (4, 4, 2),
        (2, 4, 4),
        (4, 4, 4),
    ];
    assert_eq!(s.candidates(), expected);
}

#[test]
fn candidates_skip_border_on_uneven_grid() {
    let s = SeedSearch::new(Dims::new(9, 7, 6).unwrap(), 1, 2).unwrap();
    let c = s.candidates();
    // x in {2, 4, 6}, y in {2, 4}, z in {2}
    assert_eq!(c.len(), 6);
    assert_eq!(c[0], (2, 2, 2));
    assert_eq!(c[5], (6, 4, 2));
}

#[test]
fn candidates_are_deterministic() {
    let s = SeedSearch::new(cube(10), 4, 2).unwrap();
    let t = SeedSearch::new(cube(10), 4, 2).unwrap();
    assert_eq!(s.candidates(), t.candidates());
    assert_eq!(s.candidates(), s.candidates());
}

#[test]
fn probe_is_the_cube_below_the_candidate() {
    let s = SeedSearch::new(cube(8), 1, 2).unwrap();
    let expected: Vec<Point> = vec![
        (1, 1, 1),
        (1, 1, 2),
        (1, 2, 1),
        (1, 2, 2),
        (2, 1, 1),
        (2, 1, 2),
        (2, 2, 1),
        (2, 2, 2),
    ];
    assert_eq!(s.probe((2, 2, 2)), expected);
}

#[test]
fn voxel_at_clamps_and_ids_are_row_major() {
    let s = SeedSearch::new(cube(8), 1, 2).unwrap();
    assert_eq!(s.voxel_at(9, 3, 100), (7, 3, 7));
    assert_eq!(s.voxel_at(0, 7, 2), (0, 7, 2));
    assert_eq!(s.voxel_id((1, 2, 3)), 209);
    assert_eq!(s.voxel_id((0, 0, 0)), 0);
    assert_eq!(s.voxel_id((7, 7, 7)), 511);
}

#[test]
fn enter_voxel_records_and_detects_collisions() {
    let mut s = SeedSearch::new(cube(8), 3, 2).unwrap();
    let mut trail: Vec<usize> = Vec::new();
    assert_eq!(s.enter_voxel(&mut trail, 1, 2, 3), ((1, 2, 3), false));
    assert_eq!(s.enter_voxel(&mut trail, 20, 0, 0), ((7, 0, 0), false));
    assert_eq!(trail, vec![209, 7]);
    assert!(s.finish_round(Some(((2, 2, 2), trail))));
    let mut other: Vec<usize> = vec![5];
    assert_eq!(s.enter_voxel(&mut other, 7, 0, 0), ((7, 0, 0), true));
    assert_eq!(other, vec![5, 7]);
}

#[test]
fn round_accepts_admissible_seed() {
    let mut s = SeedSearch::new(cube(8), 3, 2).unwrap();
    assert!(s.finish_round(Some(((2, 2, 2), vec![1, 2, 3]))));
    assert_eq!(s.rounds(), 1);
    assert_eq!(s.seeds(), &vec![(2, 2, 2)]);
    assert!(s.visited(3));
    assert!(!s.visited(4));
    assert!(s.has_seed((2, 2, 2)));
    assert!(!s.candidates().contains(&(2, 2, 2)));
    assert_eq!(s.candidates().len(), 7);
}

#[test]
fn round_rejects_known_seed() {
    let mut s = SeedSearch::new(cube(8), 3, 2).unwrap();
    assert!(s.finish_round(Some(((2, 2, 2), vec![1]))));
    assert!(!s.finish_round(Some(((2, 2, 2), vec![9]))));
    assert_eq!(s.seeds().len(), 1);
    assert_eq!(s.rounds(), 2);
}

#[test]
fn round_rejects_colliding_trail() {
    let mut s = SeedSearch::new(cube(8), 3, 2).unwrap();
    assert!(s.finish_round(Some(((2, 2, 2), vec![1, 2, 3]))));
    assert!(!s.finish_round(Some(((4, 2, 2), vec![7, 3]))));
    assert!(s.finish_round(Some(((4, 2, 2), vec![7, 8]))));
    assert_eq!(s.seeds(), &vec![(2, 2, 2), (4, 2, 2)]);
}

#[test]
fn round_rejects_point_off_lattice() {
    let mut s = SeedSearch::new(cube(8), 3, 2).unwrap();
    assert!(!s.finish_round(Some(((3, 2, 2), vec![50]))));
    assert!(!s.finish_round(Some(((6, 2, 2), vec![50]))));
    assert!(s.seeds().is_empty());
}

#[test]
fn round_without_candidate_still_counts() {
    let mut s = SeedSearch::new(cube(8), 2, 2).unwrap();
    assert!(!s.finish_round(None));
    assert_eq!(s.rounds(), 1);
    assert!(s.seeds().is_empty());
    assert!(s.has_round_left());
}

#[test]
fn seed_count_never_exceeds_request() {
    let mut s = SeedSearch::new(cube(8), 2, 2).unwrap();
    let mut trail: usize = 100;
    for p in s.candidates() {
        s.finish_round(Some((p, vec![trail])));
        trail += 1;
    }
    assert_eq!(s.seeds().len(), 2);
    assert_eq!(s.rounds(), 2);
    assert!(!s.has_round_left());
    assert!(!s.finish_round(Some(((4, 4, 4), vec![1]))));
    assert_eq!(s.rounds(), 2);
}

#[test]
fn seeds_are_distinct_and_trails_disjoint() {
    let mut s = SeedSearch::new(cube(10), 6, 2).unwrap();
    let offers: Vec<(Point, Vec<usize>)> = vec![
        ((2, 2, 2), vec![10, 11, 12]),
        ((2, 2, 2), vec![20]),
        ((4, 2, 2), vec![13, 12]),
        ((4, 2, 2), vec![13, 14]),
        ((6, 2, 2), vec![14, 15]),
        ((6, 2, 2), vec![16]),
    ];
    for o in offers {
        s.finish_round(Some(o));
    }
    let seeds = s.seeds().clone();
    assert_eq!(seeds, vec![(2, 2, 2), (4, 2, 2), (6, 2, 2)]);
    for i in 0..seeds.len() {
        for j in i + 1..seeds.len() {
            assert_ne!(seeds[i], seeds[j]);
        }
    }
    assert!(s.visited(16));
    assert!(!s.visited(15));
}

fn needle_along_x(t: Tensor<f32>) -> (f32, f32, f32, f32) {
    if t.0 > t.3 && t.0 > t.5 {
        (1.0, 0.0, 0.0, 0.894)
    } else {
        (0.0, 0.0, 0.0, 0.0)
    }
}

#[test]
fn single_seed_on_needle_field() {
    let dims = cube(4);
    let mut samples: Vec<f32> = Vec::new();
    for _ in 0..64 {
        samples.extend_from_slice(&[1.0, 10.0, 0.0, 0.0, 1.0, 0.0, 1.0]);
    }
    let g = Grid::from_samples(dims, &samples, |c: f32| c == 1.0, needle_along_x, (0.0, 0.0, 0.0, 0.0))
        .unwrap();
    let mut s = SeedSearch::new(g.dims(), 1, 1).unwrap();
    let start = s.candidates()[0];
    assert_eq!(start, (1, 1, 1));
    let coherence: f32 = s.probe(start).iter().map(|q| g.get(*q).3).product();
    assert!(coherence >= 0.0);
    let mut pos = (start.0 as f32, start.1 as f32, start.2 as f32);
    let mut trail: Vec<usize> = Vec::new();
    let mut xs: Vec<usize> = Vec::new();
    for _ in 0..1000 {
        let v = s.voxel_at(pos.0 as usize, pos.1 as usize, pos.2 as usize);
        let id = s.voxel_id(v);
        trail.push(id);
        assert!(!s.visited(id));
        xs.push(v.0);
        let c = *g.get(v);
        assert!(c.3 != 0.0);
        pos = (pos.0 + c.3 * c.0, pos.1 + c.3 * c.1, pos.2 + c.3 * c.2);
    }
    assert!(xs.windows(2).all(|w| w[0] <= w[1]));
    assert_eq!(*xs.last().unwrap(), 3);
    assert!(s.finish_round(Some((start, trail))));
    assert_eq!(s.seeds(), &vec![(1, 1, 1)]);
    assert!(!s.has_round_left());
}
