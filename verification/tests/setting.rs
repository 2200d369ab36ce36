use aeth::setting::Streetmap;
use rand::rngs::StdRng;
use rand::SeedableRng;

#[test]
fn streetmap_chunk_dim() {
    let basic_sm = Streetmap::new(60, 120);
    assert_eq!(basic_sm.x_chunks(), 2);
    assert_eq!(basic_sm.y_chunks(), 4);
    assert_eq!(basic_sm.chunks().len(), 8);
}

#[test]
fn streetmap_chunk_locs() {
    let basic_sm = Streetmap::new(60, 120);
    assert_eq!(basic_sm.chunks()[0].center_x, 16);
    assert_eq!(basic_sm.chunks()[0].center_y, 16);
    assert_eq!(basic_sm.chunks()[1].center_x, 48);
    assert_eq!(basic_sm.chunks()[1].center_y, 16);
    assert_eq!(basic_sm.chunks()[2].center_x, 16);
    assert_eq!(basic_sm.chunks()[2].center_y, 48);
    assert_eq!(basic_sm.chunks()[4].center_x, 16);
    assert_eq!(basic_sm.chunks()[4].center_y, 80);
}

#[test]
fn streetmap_with_blocks() {
    let mut basic_sm = Streetmap::new(60, 60);
    basic_sm.add_block(18, 20).unwrap();
    basic_sm.add_block(40, 20).unwrap();
    basic_sm.add_block(45, 40).unwrap();
    basic_sm.add_block(30, 42).unwrap();
    assert_eq!(basic_sm.blocks().len(), 4);
    assert_eq!(basic_sm.blocks()[0].chunk_index, 0);
    assert_eq!(basic_sm.blocks()[1].chunk_index, 1);
    assert_eq!(basic_sm.blocks()[2].chunk_index, 3);
    assert_eq!(basic_sm.blocks()[3].chunk_index, 2);
}

#[test]
fn streetmap_with_edges() {
    let mut basic_sm = Streetmap::new(60, 60);
    basic_sm.add_block(18, 20).unwrap();
    basic_sm.add_block(40, 20).unwrap();
    basic_sm.add_block(45, 40).unwrap();
    basic_sm.add_block(30, 42).unwrap();
    basic_sm.add_edge(0, 1).unwrap();

    assert_eq!(
        basic_sm.edges()[basic_sm.blocks()[0].first_edge.unwrap()].target,
        1
    );

    basic_sm.add_edge(0, 2).unwrap();
    basic_sm.add_edge(0, 3).unwrap();

    let mut count = 0;

    let mut walk = basic_sm.block_edges(0).unwrap();
    while let Some(_edge) = walk.next() {
        count += 1;
    }

    assert_eq!(count, 3);
}

#[test]
fn blue_noise() {
    let mut rng = StdRng::seed_from_u64(7);
    let mut sm = Streetmap::new(300, 200);
    sm.populate_blue_noise(&mut rng, 30);
    assert_eq!(sm.blocks().len(), 30);
}
