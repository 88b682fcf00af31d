use archivist::address::Address;
use archivist::address::ADDRESS_SZ;
use archivist::chunk_storage::Engine;
use archivist::chunk_storage::MemStorage;
use archivist::chunk_storage::StorageError;
use archivist::gc::sweep;
use archivist::gc::Marked;
use archivist::htree::encode_node;
use archivist::htree::read_leaves;
use archivist::htree::HTreeError;
use archivist::htree_writer::TreeWriter;
use archivist::htree_writer::MINIMUM_ADDR_CHUNK_SIZE;

fn leaf(n: u8) -> Address {
    Address { bytes: [n; ADDRESS_SZ] }
}

/// A stand-in for a digest: good enough to give the few nodes of a small
/// tree addresses of their own.
fn toy_hash(data: &Vec<u8>) -> Address {
    let mut state: u64 = 0xcbf29ce484222325;
    for b in data {
        state = (state ^ (*b as u64)).wrapping_mul(0x100000001b3);
    }
    let mut bytes = [0u8; ADDRESS_SZ];
    for (i, byte) in bytes.iter_mut().enumerate() {
        state = state.wrapping_mul(6364136223846793005).wrapping_add(1442695040888963407);
        *byte = (state >> 33) as u8 ^ (i as u8);
    }
    bytes[0] = 0xff;
    Address { bytes }
}

fn write_tree(engine: &mut MemStorage, node_size: usize, n: u8) -> (usize, Address) {
    let mut writer = TreeWriter::new(node_size);
    for i in 0..n {
        writer.add(engine, &toy_hash, &leaf(i), vec![i; 3]).unwrap();
    }
    writer.finish(engine, &toy_hash).unwrap()
}

#[test]
fn one_address_is_its_own_root() {
    let mut engine = MemStorage::new();
    let (height, root) = write_tree(&mut engine, MINIMUM_ADDR_CHUNK_SIZE, 1);
    assert_eq!(height, 0);
    assert_eq!(root, leaf(0));
    assert_eq!(engine.len(), 1);
    assert_eq!(read_leaves(&mut engine, height, &root), Ok(vec![leaf(0)]));
}

#[test]
fn two_addresses_fill_one_node() {
    let mut engine = MemStorage::new();
    let (height, root) = write_tree(&mut engine, MINIMUM_ADDR_CHUNK_SIZE, 2);
    assert_eq!(height, 1);
    assert_eq!(root, toy_hash(&encode_node(&vec![leaf(0), leaf(1)])));
    assert_eq!(engine.len(), 3);
    assert_eq!(engine.get_chunk(&root).unwrap().len(), 64);
    assert_eq!(read_leaves(&mut engine, height, &root), Ok(vec![leaf(0), leaf(1)]));
}

#[test]
fn three_addresses_need_a_second_level() {
    let mut engine = MemStorage::new();
    let (height, root) = write_tree(&mut engine, MINIMUM_ADDR_CHUNK_SIZE, 3);
    assert_eq!(height, 2);
    let left = toy_hash(&encode_node(&vec![leaf(0), leaf(1)]));
    let right = toy_hash(&encode_node(&vec![leaf(2)]));
    assert_eq!(root, toy_hash(&encode_node(&vec![left, right])));
    assert_eq!(read_leaves(&mut engine, height, &root), Ok(vec![leaf(0), leaf(1), leaf(2)]));
}

#[test]
fn what_is_written_is_read_back_in_order() {
    for node_size in [0usize, 64, 96, 100, 128, 1024] {
        for n in [1u8, 2, 3, 4, 5, 7, 8, 9, 16, 17, 31, 64, 100] {
            let mut engine = MemStorage::new();
            let (height, root) = write_tree(&mut engine, node_size, n);
            let expected: Vec<Address> = (0..n).map(leaf).collect();
            assert_eq!(read_leaves(&mut engine, height, &root), Ok(expected));
        }
    }
}

#[test]
fn wide_nodes_give_a_flat_tree() {
    let mut engine = MemStorage::new();
    let (height, root) = write_tree(&mut engine, 32 * 10, 9);
    assert_eq!(height, 1);
    assert_eq!(engine.get_chunk(&root).unwrap().len(), 32 * 9);
    let mut engine = MemStorage::new();
    let (height, _) = write_tree(&mut engine, 32 * 10, 10);
    assert_eq!(height, 1);
    let mut engine = MemStorage::new();
    let (height, _) = write_tree(&mut engine, 32 * 10, 11);
    assert_eq!(height, 2);
}

#[test]
fn collection_keeps_a_written_tree_whole() {
    let mut engine = MemStorage::new();
    let (height, root) = write_tree(&mut engine, 64, 13);
    let stored = engine.len();
    engine.add_chunk(&leaf(200), vec![1, 2, 3]).unwrap();
    engine.add_chunk(&leaf(201), vec![4, 5]).unwrap();
    let mut marked = Marked::new();
    marked.mark_tree(&mut engine, height, &root).unwrap();
    assert_eq!(marked.len(), stored);
    let stats = sweep(&mut engine, &marked).unwrap();
    assert_eq!(stats.chunks_deleted, 2);
    assert_eq!(stats.bytes_freed, 5);
    assert_eq!(engine.len(), stored);
    let expected: Vec<Address> = (0..13).map(leaf).collect();
    assert_eq!(read_leaves(&mut engine, height, &root), Ok(expected));
}

#[test]
fn reading_fails_at_a_missing_or_corrupt_node() {
    let mut engine = MemStorage::new();
    assert_eq!(
        read_leaves(&mut engine, 1, &leaf(1)),
        Err(HTreeError::Storage(StorageError::NotFound))
    );
    engine.add_chunk(&leaf(1), vec![0u8; 31]).unwrap();
    assert_eq!(read_leaves(&mut engine, 1, &leaf(1)), Err(HTreeError::CorruptNode));
    assert_eq!(read_leaves(&mut engine, 0, &leaf(1)), Ok(vec![leaf(1)]));
    engine.add_chunk(&leaf(2), Vec::new()).unwrap();
    assert_eq!(read_leaves(&mut engine, 3, &leaf(2)), Ok(Vec::new()));
}

#[test]
fn nothing_added_gives_a_root_that_lists_nothing() {
    let mut engine = MemStorage::new();
    let mut writer = TreeWriter::new(64);
    let (height, root) = writer.finish(&mut engine, &toy_hash).unwrap();
    assert_eq!(height, 1);
    assert_eq!(root, toy_hash(&Vec::new()));
    assert_eq!(engine.get_chunk(&root), Ok(Vec::new()));
    assert_eq!(read_leaves(&mut engine, height, &root), Ok(Vec::new()));
}

#[test]
fn writer_stores_the_chunk_it_is_given_and_the_nodes_it_fills() {
    let mut engine = MemStorage::new();
    let mut writer = TreeWriter::new(64);
    writer.add(&mut engine, &toy_hash, &leaf(1), vec![7, 7, 7]).unwrap();
    assert_eq!(engine.len(), 1);
    assert_eq!(engine.get_chunk(&leaf(1)), Ok(vec![7, 7, 7]));
    writer.add(&mut engine, &toy_hash, &leaf(2), vec![8]).unwrap();
    assert_eq!(engine.len(), 3);
    let node = encode_node(&vec![leaf(1), leaf(2)]);
    assert_eq!(engine.get_chunk(&toy_hash(&node)), Ok(node));
    assert_eq!(engine.get_chunk(&leaf(2)), Ok(vec![8]));
}
