use aeth::setting::MapError;
use aeth::setting::Streetmap;
use rand::rngs::StdRng;
use rand::Rng;
use rand::SeedableRng;

fn least_sq_dist(points: &[(u16, u16)]) -> u64 {
    let mut least = u64::MAX;
    for (i, a) in points.iter().enumerate() {
        for b in &points[i + 1..] {
            let dx = (a.0 as i64 - b.0 as i64).unsigned_abs();
            let dy = (a.1 as i64 - b.1 as i64).unsigned_abs();
            least = least.min(dx * dx + dy * dy);
        }
    }
    least
}

fn positions(sm: &Streetmap) -> Vec<(u16, u16)> {
    sm.blocks().iter().map(|block| (block.x, block.y)).collect()
}

#[test]
fn candidate_score_without_blocks_is_the_boundary_score() {
    let sm = Streetmap::new(60, 60);
    assert_eq!(sm.candidate_score(21, 24), Ok(441));
    assert_eq!(sm.candidate_score(30, 30), Ok(900));
    assert_eq!(sm.candidate_score(0, 30), Ok(0));
    assert_eq!(sm.candidate_score(59, 30), Ok(1));
}

#[test]
fn candidate_score_is_the_distance_to_the_nearest_block() {
    let mut sm = Streetmap::new(60, 60);
    sm.add_block(18, 20).unwrap();
    assert_eq!(sm.candidate_score(21, 24), Ok(25));
    sm.add_block(22, 24).unwrap();
    assert_eq!(sm.candidate_score(21, 24), Ok(1));
    sm.add_block(21, 24).unwrap();
    assert_eq!(sm.candidate_score(21, 24), Ok(0));
}

#[test]
fn candidate_score_keeps_the_boundary_score_when_it_is_smaller() {
    let mut sm = Streetmap::new(60, 60);
    sm.add_block(30, 30).unwrap();
    assert_eq!(sm.candidate_score(2, 30), Ok(4));
    assert_eq!(sm.candidate_score(30, 57), Ok(9));
}

#[test]
fn candidate_score_sees_blocks_in_the_chunks_around() {
    let mut sm = Streetmap::new(200, 200);
    sm.add_block(95, 95).unwrap();
    assert_eq!(sm.blocks()[0].chunk_index, 2 + 2 * 7);
    assert_eq!(sm.find_chunk(100, 100), Ok(3 + 3 * 7));
    assert_eq!(sm.candidate_score(100, 100), Ok(50));
    assert_eq!(sm.find_chunk(100, 90), Ok(3 + 2 * 7));
    assert_eq!(sm.candidate_score(100, 90), Ok(50));
    assert_eq!(sm.find_chunk(90, 100), Ok(2 + 3 * 7));
    assert_eq!(sm.candidate_score(90, 100), Ok(50));
}

#[test]
fn candidate_score_ignores_blocks_two_chunks_away() {
    let mut sm = Streetmap::new(200, 200);
    sm.add_block(90, 100).unwrap();
    assert_eq!(sm.blocks()[0].chunk_index, 2 + 3 * 7);
    assert_eq!(sm.find_chunk(130, 100), Ok(4 + 3 * 7));
    assert_eq!(sm.sq_dist_from_block(0, 130, 100), Ok(1600));
    assert_eq!(sm.sq_dist_from_edge(130, 100), Ok(4900));
    assert_eq!(sm.candidate_score(130, 100), Ok(4900));
    assert_eq!(sm.find_chunk(127, 100), Ok(3 + 3 * 7));
    assert_eq!(sm.candidate_score(127, 100), Ok(1369));
}

#[test]
fn candidate_score_does_not_look_across_the_end_of_a_row() {
    let mut sm = Streetmap::new(128, 128);
    sm.add_block(2, 64).unwrap();
    assert_eq!(sm.blocks()[0].chunk_index, 8);
    assert_eq!(sm.find_chunk(126, 34), Ok(7));
    assert_eq!(sm.sq_dist_from_edge(126, 34), Ok(4));
    assert_eq!(sm.candidate_score(126, 34), Ok(4));
    assert_eq!(sm.find_chunk(100, 40), Ok(7));
    assert_eq!(sm.candidate_score(100, 40), Ok(784));
}

#[test]
fn candidate_score_outside_the_area_is_refused() {
    let mut sm = Streetmap::new(60, 60);
    sm.add_block(18, 20).unwrap();
    assert_eq!(sm.candidate_score(60, 20), Err(MapError::OutOfArea));
    assert_eq!(sm.candidate_score(20, 60), Err(MapError::OutOfArea));
}

#[test]
fn best_candidate_has_the_greatest_score() {
    let mut sm = Streetmap::new(60, 60);
    sm.add_block(18, 20).unwrap();
    let candidates = vec![(19, 20), (21, 24), (40, 40), (59, 59)];
    assert_eq!(sm.candidate_score(19, 20), Ok(1));
    assert_eq!(sm.candidate_score(21, 24), Ok(25));
    assert_eq!(sm.candidate_score(40, 40), Ok(400));
    assert_eq!(sm.candidate_score(59, 59), Ok(1));
    assert_eq!(sm.best_candidate(&candidates), Ok(2));
}

#[test]
fn best_candidate_of_equals_is_the_first() {
    let sm = Streetmap::new(60, 60);
    assert_eq!(sm.best_candidate(&vec![(5, 30), (30, 5), (55, 30), (30, 55)]), Ok(0));
    assert_eq!(sm.best_candidate(&vec![(1, 30), (30, 5), (55, 30), (30, 6)]), Ok(3));
    assert_eq!(sm.best_candidate(&vec![(1, 30), (30, 5), (55, 30), (30, 6), (6, 30)]), Ok(3));
    assert_eq!(sm.best_candidate(&vec![(0, 30), (30, 0), (0, 0)]), Ok(0));
    assert_eq!(sm.best_candidate(&vec![(0, 30)]), Ok(0));
    assert_eq!(sm.best_candidate(&vec![(0, 30), (0, 31), (1, 30), (1, 31)]), Ok(2));
}

#[test]
fn best_candidate_of_none_is_refused() {
    let sm = Streetmap::new(60, 60);
    assert_eq!(sm.best_candidate(&Vec::new()), Err(MapError::NoCandidates));
}

#[test]
fn best_candidate_with_one_outside_the_area_is_refused() {
    let sm = Streetmap::new(60, 60);
    assert_eq!(sm.best_candidate(&vec![(30, 30), (60, 30)]), Err(MapError::OutOfArea));
    assert_eq!(sm.best_candidate(&vec![(30, 60), (30, 30)]), Err(MapError::OutOfArea));
    assert_eq!(sm.best_candidate(&vec![(30, 30), (59, 59)]), Ok(0));
}

#[test]
fn add_best_among_places_the_best_candidate() {
    let mut sm = Streetmap::new(60, 60);
    sm.add_block(18, 20).unwrap();
    let candidates = vec![(19, 20), (21, 24), (40, 40), (59, 59)];
    assert_eq!(sm.add_best_among(&candidates), Ok(1));
    assert_eq!(sm.blocks().len(), 2);
    assert_eq!(sm.blocks()[1].x, 40);
    assert_eq!(sm.blocks()[1].y, 40);
    assert_eq!(sm.blocks()[1].chunk_index, 3);
    assert_eq!(sm.blocks()[1].first_edge, None);
    assert_eq!(sm.chunks()[3].blocks, vec![1]);
    assert_eq!(sm.add_best_among(&candidates), Ok(2));
    assert_eq!(positions(&sm), vec![(18, 20), (40, 40), (21, 24)]);
}

#[test]
fn add_best_among_accepts_a_candidate_on_the_edge_of_the_area() {
    let mut sm = Streetmap::new(60, 60);
    assert_eq!(sm.add_best_among(&vec![(0, 30)]), Ok(0));
    assert_eq!(sm.add_best_among(&vec![(59, 0), (0, 0)]), Ok(1));
    assert_eq!(positions(&sm), vec![(0, 30), (59, 0)]);
}

#[test]
fn add_best_among_leaves_the_map_alone_when_it_refuses() {
    let mut sm = Streetmap::new(60, 60);
    sm.add_block(18, 20).unwrap();
    assert_eq!(sm.add_best_among(&Vec::new()), Err(MapError::NoCandidates));
    assert_eq!(sm.add_best_among(&vec![(30, 30), (60, 60)]), Err(MapError::OutOfArea));
    assert_eq!(positions(&sm), vec![(18, 20)]);
    assert_eq!(sm.chunks()[0].blocks, vec![0]);
}

#[test]
fn add_best_among_gives_the_same_map_for_the_same_candidates() {
    let rounds = vec![
        vec![(5, 5), (30, 30), (50, 10)],
        vec![(31, 31), (10, 50), (50, 50), (29, 29)],
        vec![(45, 45), (15, 15), (15, 45), (45, 15)],
    ];
    let mut first = Streetmap::new(60, 60);
    let mut second = Streetmap::new(60, 60);
    for candidates in &rounds {
        first.add_best_among(candidates).unwrap();
    }
    for candidates in &rounds {
        second.add_best_among(candidates).unwrap();
    }
    assert_eq!(first.blocks(), second.blocks());
    assert_eq!(first.chunks(), second.chunks());
    assert_eq!(positions(&first), vec![(30, 30), (10, 50), (45, 45)]);
}

#[test]
fn draw_candidates_gives_the_number_asked_for_inside_the_area() {
    let mut rng = StdRng::seed_from_u64(17);
    let sm = Streetmap::new(7, 3);
    for num in [0usize, 1, 10, 500] {
        let candidates = sm.draw_candidates(&mut rng, num);
        assert_eq!(candidates.len(), num);
        for (x, y) in candidates {
            assert!(x < 7 && y < 3);
        }
    }
}

#[test]
fn draw_candidates_reaches_every_point_of_a_small_area() {
    let mut rng = StdRng::seed_from_u64(17);
    let sm = Streetmap::new(3, 2);
    let candidates = sm.draw_candidates(&mut rng, 400);
    for x in 0..3 {
        for y in 0..2 {
            assert!(candidates.contains(&(x, y)));
        }
    }
}

#[test]
fn draw_candidates_in_an_area_without_points_gives_none() {
    let mut rng = StdRng::seed_from_u64(17);
    for (width, height) in [(0u16, 0u16), (0, 3), (7, 0)] {
        let sm = Streetmap::new(width, height);
        assert_eq!(sm.draw_candidates(&mut rng, 10), Vec::new());
    }
}

#[test]
fn add_best_candidate_places_one_block_inside_the_area() {
    let mut rng = StdRng::seed_from_u64(11);
    let mut sm = Streetmap::new(50, 20);
    for round in 0..40 {
        assert_eq!(sm.add_best_candidate(&mut rng, 3), Some(round));
        assert_eq!(sm.blocks().len(), round + 1);
        let block = sm.blocks()[round];
        assert!(block.x < 50 && block.y < 20);
        assert_eq!(sm.find_chunk(block.x, block.y), Ok(block.chunk_index));
        assert_eq!(block.first_edge, None);
    }
}

#[test]
fn add_best_candidate_without_candidates_places_nothing() {
    let mut rng = StdRng::seed_from_u64(11);
    let mut sm = Streetmap::new(50, 20);
    assert_eq!(sm.add_best_candidate(&mut rng, 0), None);
    assert_eq!(sm.blocks().len(), 0);
}

#[test]
fn add_best_candidate_in_an_area_without_points_places_nothing() {
    let mut rng = StdRng::seed_from_u64(11);
    for (width, height) in [(0u16, 0u16), (0, 20), (50, 0)] {
        let mut sm = Streetmap::new(width, height);
        assert_eq!(sm.add_best_candidate(&mut rng, 10), None);
        assert_eq!(sm.blocks().len(), 0);
    }
}

#[test]
fn add_best_candidate_in_a_single_point_area_places_that_point() {
    let mut rng = StdRng::seed_from_u64(3);
    let mut sm = Streetmap::new(1, 1);
    assert_eq!(sm.add_best_candidate(&mut rng, 5), Some(0));
    assert_eq!(sm.add_best_candidate(&mut rng, 5), Some(1));
    assert_eq!(positions(&sm), vec![(0, 0), (0, 0)]);
}

#[test]
fn populate_places_exactly_the_number_asked_for() {
    for (seed, width, height, count) in [
        (1u64, 300u16, 200u16, 30usize),
        (2, 60, 60, 1),
        (3, 1, 1, 7),
        (4, 33, 500, 25),
        (5, 10, 10, 0),
    ] {
        let mut rng = StdRng::seed_from_u64(seed);
        let mut sm = Streetmap::new(width, height);
        sm.populate_blue_noise(&mut rng, count);
        assert_eq!(sm.blocks().len(), count);
    }
}

#[test]
fn populate_adds_to_the_blocks_that_are_there() {
    let mut rng = StdRng::seed_from_u64(21);
    let mut sm = Streetmap::new(100, 100);
    sm.add_block(10, 10).unwrap();
    sm.add_block(90, 90).unwrap();
    sm.add_edge(0, 1).unwrap();
    sm.populate_blue_noise(&mut rng, 12);
    assert_eq!(sm.blocks().len(), 14);
    assert_eq!((sm.blocks()[0].x, sm.blocks()[0].y), (10, 10));
    assert_eq!((sm.blocks()[1].x, sm.blocks()[1].y), (90, 90));
    assert_eq!(sm.blocks()[0].first_edge, Some(0));
    assert_eq!(sm.edges().len(), 1);
    for block in &sm.blocks()[2..] {
        assert_eq!(block.first_edge, None);
    }
    sm.populate_blue_noise(&mut rng, 3);
    assert_eq!(sm.blocks().len(), 17);
}

#[test]
fn populate_keeps_every_block_inside_the_area_and_in_its_chunk() {
    let mut rng = StdRng::seed_from_u64(5);
    let mut sm = Streetmap::new(300, 200);
    sm.populate_blue_noise(&mut rng, 60);
    let mut listed = 0;
    for (cell, chunk) in sm.chunks().iter().enumerate() {
        for pair in chunk.blocks.windows(2) {
            assert!(pair[0] < pair[1]);
        }
        for &index in &chunk.blocks {
            assert_eq!(sm.blocks()[index].chunk_index, cell);
        }
        listed += chunk.blocks.len();
    }
    assert_eq!(listed, 60);
    for block in sm.blocks() {
        assert!(block.x < 300 && block.y < 200);
        assert_eq!(block.chunk_index, (block.x / 32) as usize + (block.y / 32) as usize * 10);
    }
}

#[test]
fn populate_of_zero_blocks_changes_nothing() {
    let mut rng = StdRng::seed_from_u64(5);
    let mut sm = Streetmap::new(300, 200);
    sm.populate_blue_noise(&mut rng, 0);
    assert_eq!(sm.blocks().len(), 0);
    let mut untouched = StdRng::seed_from_u64(5);
    assert_eq!(rng.gen::<u64>(), untouched.gen::<u64>());
}

#[test]
fn populate_in_an_area_without_points_places_nothing() {
    let mut rng = StdRng::seed_from_u64(5);
    for (width, height) in [(0u16, 0u16), (0, 200), (300, 0)] {
        let mut sm = Streetmap::new(width, height);
        sm.populate_blue_noise(&mut rng, 30);
        assert_eq!(sm.blocks().len(), 0);
    }
}

#[test]
fn populate_with_the_same_seed_gives_the_same_map() {
    let mut first = Streetmap::new(300, 200);
    let mut second = Streetmap::new(300, 200);
    first.populate_blue_noise(&mut StdRng::seed_from_u64(99), 40);
    second.populate_blue_noise(&mut StdRng::seed_from_u64(99), 40);
    assert_eq!(first.blocks(), second.blocks());
    assert_eq!(first.chunks(), second.chunks());
    let mut third = Streetmap::new(300, 200);
    third.populate_blue_noise(&mut StdRng::seed_from_u64(100), 40);
    assert_ne!(first.blocks(), third.blocks());
}

#[test]
fn populate_draws_ten_more_candidates_each_round() {
    let mut rng = StdRng::seed_from_u64(8);
    let mut sm = Streetmap::new(300, 200);
    sm.populate_blue_noise(&mut rng, 4);
    let mut replay = StdRng::seed_from_u64(8);
    let mut by_hand = Streetmap::new(300, 200);
    for round in 0..4 {
        let mut candidates = Vec::new();
        for _ in 0..round * 10 + 10 {
            let x: u16 = replay.gen_range(0..300);
            let y: u16 = replay.gen_range(0..200);
            candidates.push((x, y));
        }
        by_hand.add_best_among(&candidates).unwrap();
    }
    assert_eq!(sm.blocks(), by_hand.blocks());
    assert_eq!(rng.gen::<u64>(), replay.gen::<u64>());
}

#[test]
fn populate_spreads_blocks_wider_than_uniform_draws() {
    for seed in [1u64, 2, 3, 4, 5, 6, 7, 8] {
        let mut rng = StdRng::seed_from_u64(seed);
        let mut sm = Streetmap::new(300, 300);
        sm.populate_blue_noise(&mut rng, 50);
        let mut uniform = Vec::new();
        for _ in 0..50 {
            let x: u16 = rng.gen_range(0..300);
            let y: u16 = rng.gen_range(0..300);
            uniform.push((x, y));
        }
        assert!(least_sq_dist(&positions(&sm)) > least_sq_dist(&uniform));
    }
}
