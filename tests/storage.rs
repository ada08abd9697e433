use voxel_world::{Block, Chunk, Coordinate, World, AIR_ID};

fn world_with(keys: &[Coordinate]) -> World {
    let mut w = World::new();
    for k in keys {
        assert!(w.insert_chunk(*k, Chunk::new()).is_none());
    }
    w
}

fn origin() -> Coordinate {
    Coordinate { x: 0, y: 0, z: 0 }
}

#[test]
fn default_block_is_air() {
    assert_eq!(Block::default(), Block { id: 0 });
    assert_eq!(Block::default().id, AIR_ID);
}

#[test]
fn new_chunk_is_all_air() {
    let c = Chunk::new();
    for x in [0i64, 5, 31] {
        let i = Coordinate { x, y: x, z: 31 - x }.get_chunk_index();
        assert_eq!(*c.get_block(&i), Block { id: 0 });
    }
}

#[test]
fn chunk_set_get_remove() {
    let mut c = Chunk::new();
    let i = Coordinate { x: 3, y: 4, z: 5 }.get_chunk_index();
    let j = Coordinate { x: 4, y: 4, z: 5 }.get_chunk_index();
    c.set_block(&i, Block { id: 7 });
    assert_eq!(*c.get_block(&i), Block { id: 7 });
    assert_eq!(*c.get_block(&j), Block { id: 0 });
    c.get_mut_block(&j).id = 9;
    assert_eq!(*c.get_block(&j), Block { id: 9 });
    c.remove_block(&i);
    assert_eq!(*c.get_block(&i), Block { id: 0 });
    assert_eq!(*c.get_block(&j), Block { id: 9 });
}

#[test]
fn world_set_then_get_and_remove() {
    let mut w = world_with(&[origin(), Coordinate { x: -1, y: 0, z: 0 }]);
    let p = Coordinate { x: -1, y: 5, z: 6 };
    w.set_block(&p, Block { id: 42 });
    assert_eq!(*w.get_block(&p), Block { id: 42 });
    w.remove_block(&p);
    assert_eq!(*w.get_block(&p), Block { id: 0 });
}

#[test]
fn world_mutable_borrow_writes_through() {
    let mut w = world_with(&[origin()]);
    let p = Coordinate { x: 1, y: 2, z: 3 };
    *w.get_borrow_mut_block(&p) = Block { id: 11 };
    assert_eq!(*w.get_block(&p), Block { id: 11 });
    w.get_mut_chunk_containing(&p).set_block(&p.get_chunk_index(), Block { id: 12 });
    assert_eq!(*w.get_chunk_containing(&p).get_block(&p.get_chunk_index()), Block { id: 12 });
}

#[test]
fn writes_are_isolated_across_chunk_boundaries() {
    let mut w = world_with(&[origin(), Coordinate { x: -1, y: 0, z: 0 }]);
    let a = Coordinate { x: 0, y: 0, z: 0 };
    let b = Coordinate { x: -1, y: 0, z: 0 };
    let c = Coordinate { x: 1, y: 0, z: 0 };
    let d = Coordinate { x: -32, y: 0, z: 0 };
    w.set_block(&a, Block { id: 1 });
    w.set_block(&b, Block { id: 2 });
    assert_eq!(*w.get_block(&a), Block { id: 1 });
    assert_eq!(*w.get_block(&b), Block { id: 2 });
    assert_eq!(*w.get_block(&c), Block { id: 0 });
    assert_eq!(*w.get_block(&d), Block { id: 0 });
    w.set_block(&d, Block { id: 3 });
    assert_eq!(*w.get_block(&b), Block { id: 2 });
    assert_eq!(*w.get_block(&d), Block { id: 3 });
}

#[test]
fn residency_is_by_chunk_coordinate() {
    let w = world_with(&[origin()]);
    assert!(w.has_chunk_containing(&Coordinate { x: 31, y: 31, z: 31 }));
    assert!(!w.has_chunk_containing(&Coordinate { x: -1, y: 0, z: 0 }));
    assert!(!w.has_chunk_containing(&Coordinate { x: 32, y: 0, z: 0 }));
}

#[test]
fn chunks_can_be_replaced_and_removed() {
    let mut w = world_with(&[origin()]);
    let p = Coordinate { x: 2, y: 2, z: 2 };
    w.set_block(&p, Block { id: 5 });
    let previous = w.insert_chunk(origin(), Chunk::new());
    assert_eq!(*previous.unwrap().get_block(&p.get_chunk_index()), Block { id: 5 });
    assert_eq!(*w.get_block(&p), Block { id: 0 });
    assert!(w.remove_chunk(&origin()).is_some());
    assert!(!w.has_chunk_containing(&p));
    assert!(w.remove_chunk(&origin()).is_none());
}
