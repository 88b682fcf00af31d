use archivist::address::Address;
use archivist::address::AddressSet;
use archivist::address::ADDRESS_SZ;
use archivist::chunk_storage::copy_bytes;
use archivist::chunk_storage::sweep_entry;
use archivist::chunk_storage::Engine;
use archivist::chunk_storage::MemStorage;
use archivist::chunk_storage::StorageError;
use archivist::hex::decode_digit;
use archivist::hex::digit_str;
use archivist::hex::easy_decode;
use archivist::hex::easy_encode_to_string;
use archivist::htree::decode_node;
use archivist::repository::GCStats;
use archivist::htree::encode_node;
use archivist::htree::read_address;
use archivist::htree::HTreeError;
use archivist::htree::TreeReader;

fn addr(n: u8) -> Address {
    Address { bytes: [n; ADDRESS_SZ] }
}

#[test]
fn add_get_chunk() {
    let mut storage_engine = MemStorage::new();
    let addr = Address::default();
    storage_engine.add_chunk(&addr, vec![1]).unwrap();
    storage_engine.sync().unwrap();
    storage_engine.add_chunk(&addr, vec![2]).unwrap();
    storage_engine.sync().unwrap();
    let v = storage_engine.get_chunk(&addr).unwrap();
    assert_eq!(v, vec![1]);
}

#[test]
fn second_put_leaves_store_as_first_did() {
    let mut once = MemStorage::new();
    once.add_chunk(&addr(7), vec![1, 2, 3]).unwrap();
    let mut twice = MemStorage::new();
    twice.add_chunk(&addr(7), vec![1, 2, 3]).unwrap();
    twice.add_chunk(&addr(7), vec![9, 9]).unwrap();
    assert_eq!(once.len(), 1);
    assert_eq!(twice.len(), 1);
    assert_eq!(once.get_chunk(&addr(7)).unwrap(), twice.get_chunk(&addr(7)).unwrap());
    assert_eq!(twice.get_chunk(&addr(7)).unwrap(), vec![1, 2, 3]);
}

#[test]
fn get_of_absent_chunk_is_not_found() {
    let mut engine = MemStorage::new();
    engine.add_chunk(&addr(1), vec![42]).unwrap();
    assert_eq!(engine.get_chunk(&addr(2)), Err(StorageError::NotFound));
    assert!(engine.contains(&addr(1)));
    assert!(!engine.contains(&addr(2)));
}

#[test]
fn engine_sweep_counts_what_it_deletes() {
    let mut engine = MemStorage::new();
    engine.add_chunk(&addr(1), vec![0; 10]).unwrap();
    engine.add_chunk(&addr(2), vec![0; 20]).unwrap();
    engine.add_chunk(&addr(3), vec![0; 30]).unwrap();
    let keep = |a: &Address| a.bytes[0] != 2;
    let stats = engine.gc(&keep).unwrap();
    assert_eq!(stats.chunks_deleted, 1);
    assert_eq!(stats.bytes_freed, 20);
    assert_eq!(stats.bytes_remaining, 40);
    assert_eq!(engine.len(), 2);
    assert_eq!(engine.get_chunk(&addr(2)), Err(StorageError::NotFound));
    assert_eq!(engine.get_chunk(&addr(1)).unwrap(), vec![0; 10]);
    assert_eq!(engine.get_chunk(&addr(3)).unwrap(), vec![0; 30]);
}

#[test]
fn engine_sweep_of_empty_store() {
    let mut engine = MemStorage::new();
    let keep = |_a: &Address| false;
    let stats = engine.gc(&keep).unwrap();
    assert_eq!(stats.chunks_deleted, 0);
    assert_eq!(stats.bytes_freed, 0);
    assert_eq!(stats.bytes_remaining, 0);
}

#[test]
fn copy_bytes_copies() {
    assert_eq!(copy_bytes(&vec![1, 2, 3, 4]), vec![1, 2, 3, 4]);
    assert_eq!(copy_bytes(&Vec::new()), Vec::<u8>::new());
}

#[test]
fn default_address_is_all_zero() {
    let a = Address::default();
    assert_eq!(a.bytes, [0u8; ADDRESS_SZ]);
    assert_eq!(ADDRESS_SZ, 32);
}

#[test]
fn address_equality_is_bytewise() {
    let mut bytes = [5u8; ADDRESS_SZ];
    assert!(Address::from_bytes(bytes) == addr(5));
    bytes[31] = 6;
    assert!(Address::from_bytes(bytes) != addr(5));
    assert_eq!(addr(5).to_vec(), vec![5u8; 32]);
}

#[test]
fn address_from_slice_wants_exact_length() {
    assert_eq!(Address::from_slice(&[3u8; 32]), Some(addr(3)));
    assert_eq!(Address::from_slice(&[3u8; 31]), None);
    assert_eq!(Address::from_slice(&[3u8; 33]), None);
    assert_eq!(Address::from_slice(&[]), None);
}

#[test]
fn address_set_holds_each_address_once() {
    let mut set = AddressSet::new();
    assert_eq!(set.len(), 0);
    assert!(set.insert(addr(1)));
    assert!(set.insert(addr(2)));
    assert!(!set.insert(addr(1)));
    assert_eq!(set.len(), 2);
    assert!(set.contains(&addr(1)));
    assert!(set.contains(&addr(2)));
    assert!(!set.contains(&addr(3)));
}

#[test]
fn hex_text_of_bytes() {
    assert_eq!(easy_encode_to_string(&[0x00, 0xff, 0x1a, 0x90]), "00ff1a90");
    assert_eq!(easy_encode_to_string(&[]), "");
    assert_eq!(easy_encode_to_string(&[0x0f]), "0f");
    assert_eq!(digit_str(0), "0");
    assert_eq!(digit_str(9), "9");
    assert_eq!(digit_str(10), "a");
    assert_eq!(digit_str(15), "f");
}

#[test]
fn node_content_round_trip() {
    let kids = vec![addr(1), addr(2), addr(3)];
    let data = encode_node(&kids);
    assert_eq!(data.len(), 96);
    assert_eq!(&data[0..32], &[1u8; 32]);
    assert_eq!(&data[64..96], &[3u8; 32]);
    assert_eq!(decode_node(&data), Ok(kids));
    assert_eq!(decode_node(&Vec::new()), Ok(Vec::new()));
    assert_eq!(read_address(&data, 32), addr(2));
}

#[test]
fn node_content_of_odd_length_is_corrupt() {
    assert_eq!(decode_node(&vec![0u8; 33]), Err(HTreeError::CorruptNode));
    assert_eq!(decode_node(&vec![0u8; 1]), Err(HTreeError::CorruptNode));
}

#[test]
fn reader_hands_out_children_first_to_last() {
    let mut engine = MemStorage::new();
    engine.add_chunk(&addr(10), encode_node(&vec![addr(1), addr(2), addr(3)])).unwrap();
    let mut tr = TreeReader::new(1, &addr(10));
    assert_eq!(tr.next_addr(), Some((1, addr(10))));
    assert!(tr.is_empty());
    tr.push_addr(&mut engine, 0, &addr(10)).unwrap();
    assert_eq!(tr.next_addr(), Some((0, addr(1))));
    assert_eq!(tr.next_addr(), Some((0, addr(2))));
    assert_eq!(tr.next_addr(), Some((0, addr(3))));
    assert_eq!(tr.next_addr(), None);
}

#[test]
fn reader_reports_missing_and_corrupt_nodes() {
    let mut engine = MemStorage::new();
    engine.add_chunk(&addr(10), vec![0u8; 40]).unwrap();
    let mut tr = TreeReader::new(1, &addr(10));
    assert_eq!(tr.push_addr(&mut engine, 0, &addr(10)), Err(HTreeError::CorruptNode));
    assert_eq!(
        tr.push_addr(&mut engine, 0, &addr(11)),
        Err(HTreeError::Storage(StorageError::NotFound))
    );
    assert_eq!(tr.next_addr(), Some((1, addr(10))));
    assert_eq!(tr.next_addr(), None);
}

#[test]
fn address_set_tells_apart_addresses_of_one_bucket() {
    let mut set = AddressSet::new();
    let mut first = [7u8; ADDRESS_SZ];
    let mut second = [7u8; ADDRESS_SZ];
    first[31] = 1;
    second[8] = 2;
    assert!(set.insert(Address::from_bytes(first)));
    assert!(set.insert(Address::from_bytes(second)));
    assert!(!set.insert(Address::from_bytes(first)));
    assert!(set.contains(&Address::from_bytes(second)));
    assert!(!set.contains(&addr(7)));
    assert_eq!(set.len(), 2);
}

#[test]
fn address_set_holds_many_addresses() {
    let mut set = AddressSet::new();
    for i in 0..2000u32 {
        let mut bytes = [0u8; ADDRESS_SZ];
        bytes[..4].copy_from_slice(&i.to_le_bytes());
        bytes[20..24].copy_from_slice(&i.to_be_bytes());
        assert!(set.insert(Address::from_bytes(bytes)));
    }
    assert_eq!(set.len(), 2000);
    for i in 0..2000u32 {
        let mut bytes = [0u8; ADDRESS_SZ];
        bytes[..4].copy_from_slice(&i.to_le_bytes());
        bytes[20..24].copy_from_slice(&i.to_be_bytes());
        assert!(set.contains(&Address::from_bytes(bytes)));
        assert!(!set.insert(Address::from_bytes(bytes)));
        bytes[31] = 1;
        assert!(!set.contains(&Address::from_bytes(bytes)));
    }
    assert_eq!(set.len(), 2000);
}

#[test]
fn hex_text_is_read_back() {
    assert_eq!(easy_decode("00ff1a90"), Some(vec![0x00, 0xff, 0x1a, 0x90]));
    assert_eq!(easy_decode(""), Some(Vec::new()));
    assert_eq!(easy_decode("0"), None);
    assert_eq!(easy_decode("0g"), None);
    assert_eq!(easy_decode("0F"), None);
    assert_eq!(easy_decode("zz00"), None);
    assert_eq!(decode_digit('a'), Some(10));
    assert_eq!(decode_digit('9'), Some(9));
    assert_eq!(decode_digit('A'), None);
}

#[test]
fn address_names_round_trip() {
    let name = addr(0xab).to_hex();
    assert_eq!(name, "ab".repeat(32));
    assert_eq!(Address::from_hex(&name), Some(addr(0xab)));
    assert_eq!(Address::from_hex(&"ab".repeat(31)), None);
    assert_eq!(Address::from_hex(&"ab".repeat(33)), None);
    assert_eq!(Address::from_hex("gc.lock"), None);
    let mut tmp = name.clone();
    tmp.push_str(".tmp");
    assert_eq!(Address::from_hex(&tmp), None);
}

#[test]
fn sweep_entry_counts_what_is_deleted_and_what_stays() {
    let keep = |a: &Address| a.bytes[0] == 1;
    let mut stats = GCStats { chunks_deleted: 0, bytes_freed: 0, bytes_remaining: 0 };
    assert!(!sweep_entry(&mut stats, &addr(1), 10, &keep));
    assert!(sweep_entry(&mut stats, &addr(2), 20, &keep));
    assert!(sweep_entry(&mut stats, &addr(3), 5, &keep));
    assert_eq!(stats, GCStats { chunks_deleted: 2, bytes_freed: 25, bytes_remaining: 10 });
    assert!(sweep_entry(&mut stats, &addr(4), usize::MAX, &keep));
    assert_eq!(stats.bytes_freed, usize::MAX);
    assert_eq!(stats.chunks_deleted, 3);
}
