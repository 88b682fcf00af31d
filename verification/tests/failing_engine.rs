use archivist::address::Address;
use archivist::address::ADDRESS_SZ;
use archivist::chunk_storage::Engine;
use archivist::chunk_storage::MemStorage;
use archivist::chunk_storage::StorageError;
use archivist::chunk_storage::StoreModel;
use archivist::crypto::EncryptionHeader;
use archivist::crypto::VersionedEncryptionHeader;
use archivist::gc::sweep;
use archivist::gc::Marked;
use archivist::htree::encode_node;
use archivist::htree::read_leaves;
use archivist::htree::HTreeError;
use archivist::htree_writer::TreeWriter;
use archivist::repository::GCStats;
use archivist::repository::GcAction;
use archivist::repository::GcEvent;
use archivist::repository::ItemMetadata;
use archivist::repository::Layout;
use archivist::repository::OpenEvent;
use archivist::repository::OpenMode;
use archivist::repository::Repo;
use archivist::repository::RepoError;

/// An engine over a store in memory that fails where it is told to.
struct Flaky {
    inner: MemStorage,
    fail_add: bool,
    fail_get: bool,
    fail_gc: bool,
}

fn broken() -> StorageError {
    StorageError::Io { message: String::from("device error") }
}

impl StoreModel for Flaky {}

impl Engine for Flaky {
    fn add_chunk(&mut self, addr: &Address, buf: Vec<u8>) -> Result<(), StorageError> {
        if self.fail_add && !self.inner.contains(addr) {
            return Err(broken());
        }
        self.inner.add_chunk(addr, buf)
    }

    fn get_chunk(&mut self, addr: &Address) -> Result<Vec<u8>, StorageError> {
        if self.fail_get {
            return Err(broken());
        }
        self.inner.get_chunk(addr)
    }

    fn sync(&mut self) -> Result<(), StorageError> {
        self.inner.sync()
    }

    fn gc<F: Fn(&Address) -> bool>(&mut self, reachable: &F) -> Result<GCStats, StorageError> {
        if self.fail_gc {
            return Err(broken());
        }
        self.inner.gc(reachable)
    }
}

fn addr(n: u8) -> Address {
    Address { bytes: [n; ADDRESS_SZ] }
}

fn flaky() -> Flaky {
    let mut inner = MemStorage::new();
    inner.add_chunk(&addr(1), vec![1]).unwrap();
    inner.add_chunk(&addr(10), encode_node(&vec![addr(1)])).unwrap();
    inner.add_chunk(&addr(99), vec![9]).unwrap();
    Flaky { inner, fail_add: false, fail_get: false, fail_gc: false }
}

fn item(height: usize, root: Address) -> ItemMetadata {
    ItemMetadata {
        tree_height: height,
        encrypt_header: VersionedEncryptionHeader::V1(EncryptionHeader {
            master_key_id: [0; 32],
            packet1: [0; 48],
        }),
        encrypted_tags: Vec::new(),
        address: root,
    }
}

fn exclusive() -> Repo {
    let mut plan = Repo::open(String::from("repo"), OpenMode::Exclusive);
    plan.step(OpenEvent::Begin);
    plan.step(OpenEvent::Found(Layout {
        repo_exists: true,
        data_exists: true,
        catalog_exists: true,
        lock_exists: true,
    }));
    plan.step(OpenEvent::Locked);
    plan.step(OpenEvent::SchemaVersion(0));
    plan.finish().ok().unwrap()
}

#[test]
fn gc_aborts_when_the_sweep_fails() {
    let mut engine = flaky();
    engine.fail_gc = true;
    let mut run = exclusive().gc(engine);
    assert_eq!(run.step(GcEvent::Begin), GcAction::RotateGeneration);
    assert_eq!(run.step(GcEvent::Done), GcAction::NextItem);
    assert_eq!(run.step(GcEvent::Item(item(1, addr(10)))), GcAction::NextItem);
    assert_eq!(run.step(GcEvent::EndOfItems), GcAction::Commit);
    assert_eq!(run.step(GcEvent::Done), GcAction::Abort);
    let (engine, result) = run.finish();
    assert_eq!(result, Err(RepoError::Storage(broken())));
    assert_eq!(engine.inner.len(), 3);
}

#[test]
fn gc_aborts_when_a_node_cannot_be_fetched() {
    let mut engine = flaky();
    engine.fail_get = true;
    let mut run = exclusive().gc(engine);
    run.step(GcEvent::Begin);
    run.step(GcEvent::Done);
    assert_eq!(run.step(GcEvent::Item(item(0, addr(1)))), GcAction::NextItem);
    assert_eq!(run.step(GcEvent::Item(item(1, addr(10)))), GcAction::Abort);
    let (engine, result) = run.finish();
    assert_eq!(result, Err(RepoError::Tree(HTreeError::Storage(broken()))));
    assert_eq!(engine.inner.len(), 3);
}

#[test]
fn mark_and_read_pass_on_the_failure_of_the_engine() {
    let mut engine = flaky();
    engine.fail_get = true;
    let mut marked = Marked::new();
    assert_eq!(marked.mark_tree(&mut engine, 1, &addr(10)), Err(HTreeError::Storage(broken())));
    assert_eq!(read_leaves(&mut engine, 1, &addr(10)), Err(HTreeError::Storage(broken())));
    assert_eq!(read_leaves(&mut engine, 0, &addr(10)), Ok(vec![addr(10)]));
    engine.fail_get = false;
    engine.fail_gc = true;
    assert_eq!(sweep(&mut engine, &Marked::new()), Err(broken()));
    assert_eq!(engine.inner.len(), 3);
}

#[test]
fn writer_passes_on_the_failure_of_the_engine() {
    let mut engine = flaky();
    engine.fail_add = true;
    let name = |data: &Vec<u8>| Address { bytes: [data.len() as u8; ADDRESS_SZ] };
    let mut writer = TreeWriter::new(64);
    assert_eq!(writer.add_addr(&mut engine, &name, &addr(1)), Ok(()));
    assert_eq!(
        writer.add_addr(&mut engine, &name, &addr(2)),
        Err(HTreeError::Storage(broken()))
    );
    let mut writer = TreeWriter::new(64);
    assert_eq!(
        writer.add(&mut engine, &name, &addr(3), vec![1, 2, 3]),
        Err(HTreeError::Storage(broken()))
    );
}
