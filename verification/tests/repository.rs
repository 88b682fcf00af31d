use archivist::address::Address;
use archivist::address::ADDRESS_SZ;
use archivist::chunk_storage::Engine;
use archivist::chunk_storage::MemStorage;
use archivist::chunk_storage::StorageError;
use archivist::crypto::EncryptionHeader;
use archivist::crypto::VersionedEncryptionHeader;
use archivist::gc::sweep;
use archivist::gc::Marked;
use archivist::htree::encode_node;
use archivist::htree::HTreeError;
use archivist::hydrogen::filled;
use archivist::hydrogen::hash_output_fits;
use archivist::hydrogen::key_from;
use archivist::hydrogen::kx_psk_keygen;
use archivist::hydrogen::random;
use archivist::hydrogen::random_buf;
use archivist::hydrogen::random_outcome;
use archivist::hydrogen::secretbox_decrypt_check;
use archivist::hydrogen::secretbox_decrypt_fits;
use archivist::hydrogen::DecryptCheck;
use archivist::hydrogen::secretbox_encrypt_fits;
use archivist::hydrogen::RandomError;
use archivist::hydrogen::KX_N_PACKET1BYTES;
use archivist::hydrogen::KX_PSKBYTES;
use archivist::hydrogen::SECRETBOX_HEADERBYTES;
use archivist::repository::new_random_token;
use archivist::repository::staging_name;
use archivist::repository::token_from;
use archivist::repository::GCStats;
use archivist::repository::GcAction;
use archivist::repository::GcEvent;
use archivist::repository::InitAction;
use archivist::repository::InitEvent;
use archivist::repository::Item;
use archivist::repository::ItemMetadata;
use archivist::repository::Layout;
use archivist::repository::OpenAction;
use archivist::repository::OpenEvent;
use archivist::repository::OpenMode;
use archivist::repository::Repo;
use archivist::repository::RepoError;
use archivist::repository::StorageEngineSpec;

fn addr(n: u8) -> Address {
    Address { bytes: [n; ADDRESS_SZ] }
}

fn metadata(height: usize, root: Address) -> ItemMetadata {
    ItemMetadata {
        tree_height: height,
        encrypt_header: VersionedEncryptionHeader::V1(EncryptionHeader {
            master_key_id: [0; 32],
            packet1: [0; KX_N_PACKET1BYTES],
        }),
        encrypted_tags: vec![1, 2, 3],
        address: root,
    }
}

fn good_layout() -> Layout {
    Layout { repo_exists: true, data_exists: true, catalog_exists: true, lock_exists: true }
}

fn open_repo(mode: OpenMode) -> Repo {
    let mut plan = Repo::open(String::from("/tmp/repo"), mode);
    assert_eq!(plan.step(OpenEvent::Begin), OpenAction::ProbeLayout);
    assert_eq!(plan.step(OpenEvent::Found(good_layout())), OpenAction::Lock(mode));
    assert_eq!(plan.step(OpenEvent::Locked), OpenAction::ReadSchemaVersion);
    assert_eq!(plan.step(OpenEvent::SchemaVersion(0)), OpenAction::Ready);
    plan.finish().ok().unwrap()
}

/// Leaves 1 and 2 under node 10, leaf 3 under node 11, both nodes under
/// root 20; chunk 99 belongs to nothing.
fn store_with_one_tree() -> MemStorage {
    let mut engine = MemStorage::new();
    engine.add_chunk(&addr(1), vec![0xaa; 5]).unwrap();
    engine.add_chunk(&addr(2), vec![0xbb; 6]).unwrap();
    engine.add_chunk(&addr(3), vec![0xcc; 7]).unwrap();
    engine.add_chunk(&addr(10), encode_node(&vec![addr(1), addr(2)])).unwrap();
    engine.add_chunk(&addr(11), encode_node(&vec![addr(3)])).unwrap();
    engine.add_chunk(&addr(20), encode_node(&vec![addr(10), addr(11)])).unwrap();
    engine.add_chunk(&addr(99), vec![0xdd; 11]).unwrap();
    engine.sync().unwrap();
    engine
}

#[test]
fn gc_keeps_what_items_need_and_deletes_the_rest() {
    let repo = open_repo(OpenMode::Exclusive);
    let mut run = repo.gc(store_with_one_tree());
    assert_eq!(run.step(GcEvent::Begin), GcAction::RotateGeneration);
    let token = run.new_generation().clone().unwrap();
    assert_eq!(token.len(), 64);
    assert_eq!(run.step(GcEvent::Done), GcAction::NextItem);
    assert_eq!(run.step(GcEvent::Item(metadata(2, addr(20)))), GcAction::NextItem);
    assert_eq!(run.step(GcEvent::EndOfItems), GcAction::Commit);
    assert_eq!(run.step(GcEvent::Done), GcAction::Finished);
    let (mut engine, result) = run.finish();
    assert_eq!(
        result,
        Ok(GCStats { chunks_deleted: 1, bytes_freed: 11, bytes_remaining: 5 + 6 + 7 + 64 + 32 + 64 })
    );
    assert_eq!(engine.len(), 6);
    assert_eq!(engine.get_chunk(&addr(99)), Err(StorageError::NotFound));
    assert_eq!(engine.get_chunk(&addr(1)).unwrap(), vec![0xaa; 5]);
    assert_eq!(engine.get_chunk(&addr(3)).unwrap(), vec![0xcc; 7]);
    assert_eq!(engine.get_chunk(&addr(20)).unwrap().len(), 64);
}

#[test]
fn gc_with_no_items_deletes_everything() {
    let repo = open_repo(OpenMode::Exclusive);
    let mut run = repo.gc(store_with_one_tree());
    assert_eq!(run.step(GcEvent::Begin), GcAction::RotateGeneration);
    assert_eq!(run.step(GcEvent::Done), GcAction::NextItem);
    assert_eq!(run.step(GcEvent::EndOfItems), GcAction::Commit);
    assert_eq!(run.step(GcEvent::Done), GcAction::Finished);
    let (engine, result) = run.finish();
    assert_eq!(result.unwrap().chunks_deleted, 7);
    assert_eq!(engine.len(), 0);
}

#[test]
fn gc_marks_shared_subtrees_once() {
    let repo = open_repo(OpenMode::Exclusive);
    let mut run = repo.gc(store_with_one_tree());
    run.step(GcEvent::Begin);
    run.step(GcEvent::Done);
    assert_eq!(run.step(GcEvent::Item(metadata(1, addr(10)))), GcAction::NextItem);
    assert_eq!(run.step(GcEvent::Item(metadata(1, addr(10)))), GcAction::NextItem);
    assert_eq!(run.step(GcEvent::Item(metadata(1, addr(11)))), GcAction::NextItem);
    assert_eq!(run.step(GcEvent::EndOfItems), GcAction::Commit);
    assert_eq!(run.step(GcEvent::Done), GcAction::Finished);
    let (mut engine, result) = run.finish();
    assert_eq!(result.unwrap().chunks_deleted, 2);
    assert_eq!(engine.get_chunk(&addr(20)), Err(StorageError::NotFound));
    assert_eq!(engine.get_chunk(&addr(99)), Err(StorageError::NotFound));
    assert!(engine.contains(&addr(10)));
    assert!(engine.contains(&addr(11)));
    assert!(engine.contains(&addr(1)));
    assert!(engine.contains(&addr(2)));
    assert!(engine.contains(&addr(3)));
}

#[test]
fn gc_without_exclusive_lock_fails_and_deletes_nothing() {
    let repo = open_repo(OpenMode::Shared);
    assert!(!repo.is_exclusive());
    let mut run = repo.gc(store_with_one_tree());
    assert_eq!(run.step(GcEvent::Begin), GcAction::Abort);
    assert_eq!(run.step(GcEvent::Done), GcAction::Abort);
    let (engine, result) = run.finish();
    assert_eq!(result, Err(RepoError::OutOfTurn));
    assert_eq!(engine.len(), 7);

    let mut run = repo.gc(engine);
    assert_eq!(run.step(GcEvent::Begin), GcAction::Abort);
    let (engine, result) = run.finish();
    assert_eq!(result, Err(RepoError::GcWithoutExclusiveLock));
    assert_eq!(engine.len(), 7);
    assert!(engine.contains(&addr(99)));
}

#[test]
fn gc_stops_at_a_missing_node_and_deletes_nothing() {
    let repo = open_repo(OpenMode::Exclusive);
    let mut run = repo.gc(store_with_one_tree());
    run.step(GcEvent::Begin);
    run.step(GcEvent::Done);
    assert_eq!(run.step(GcEvent::Item(metadata(1, addr(50)))), GcAction::Abort);
    assert_eq!(run.step(GcEvent::EndOfItems), GcAction::Abort);
    let (engine, _) = run.finish();
    assert_eq!(engine.len(), 7);

    let mut run = repo.gc(engine);
    run.step(GcEvent::Begin);
    run.step(GcEvent::Done);
    assert_eq!(run.step(GcEvent::Item(metadata(1, addr(50)))), GcAction::Abort);
    let (engine, result) = run.finish();
    assert_eq!(result, Err(RepoError::Tree(HTreeError::Storage(StorageError::NotFound))));
    assert_eq!(engine.len(), 7);
}

#[test]
fn gc_stops_at_a_corrupt_node() {
    let repo = open_repo(OpenMode::Exclusive);
    let mut engine = store_with_one_tree();
    engine.add_chunk(&addr(60), vec![0u8; 33]).unwrap();
    let mut run = repo.gc(engine);
    run.step(GcEvent::Begin);
    run.step(GcEvent::Done);
    assert_eq!(run.step(GcEvent::Item(metadata(3, addr(60)))), GcAction::Abort);
    let (engine, result) = run.finish();
    assert_eq!(result, Err(RepoError::Tree(HTreeError::CorruptNode)));
    assert_eq!(engine.len(), 8);
}

#[test]
fn gc_passes_on_a_failure_of_the_catalog() {
    let repo = open_repo(OpenMode::Exclusive);
    let mut run = repo.gc(store_with_one_tree());
    run.step(GcEvent::Begin);
    let failure = RepoError::SqliteError { err: String::from("database is locked") };
    assert_eq!(run.step(GcEvent::Failed(failure)), GcAction::Abort);
    let (engine, result) = run.finish();
    assert_eq!(result, Err(RepoError::SqliteError { err: String::from("database is locked") }));
    assert_eq!(engine.len(), 7);
}

#[test]
fn gc_refuses_a_commit_that_was_not_asked_for() {
    let repo = open_repo(OpenMode::Exclusive);
    let mut run = repo.gc(store_with_one_tree());
    run.step(GcEvent::Begin);
    assert_eq!(run.step(GcEvent::EndOfItems), GcAction::Abort);
    let (engine, result) = run.finish();
    assert_eq!(result, Err(RepoError::OutOfTurn));
    assert_eq!(engine.len(), 7);
}

#[test]
fn interrupted_sweep_is_made_good_by_a_second_run() {
    let mut engine = store_with_one_tree();
    engine.add_chunk(&addr(98), vec![0xee; 3]).unwrap();
    let mut marked = Marked::new();
    marked.mark_tree(&mut engine, 2, &addr(20)).unwrap();
    assert_eq!(marked.len(), 6);
    // the first sweep got as far as deleting one of the two unmarked chunks
    let only_98 = |a: &Address| a.bytes[0] != 98;
    engine.gc(&only_98).unwrap();
    let mut again = Marked::new();
    again.mark_tree(&mut engine, 2, &addr(20)).unwrap();
    assert_eq!(again.len(), 6);
    for n in [1u8, 2, 3, 10, 11, 20] {
        assert!(again.contains(&addr(n)));
        assert!(marked.contains(&addr(n)));
    }
    let stats = sweep(&mut engine, &again).unwrap();
    assert_eq!(stats.chunks_deleted, 1);
    assert_eq!(engine.len(), 6);
    assert!(!engine.contains(&addr(99)));
}

#[test]
fn mark_records_a_leaf_without_fetching_it() {
    let mut engine = MemStorage::new();
    let mut marked = Marked::new();
    assert_eq!(marked.mark_tree(&mut engine, 0, &addr(5)), Ok(()));
    assert!(marked.contains(&addr(5)));
    assert_eq!(marked.len(), 1);
}

#[test]
fn open_goes_through_probe_lock_and_schema() {
    let repo = open_repo(OpenMode::Exclusive);
    assert!(repo.is_exclusive());
    assert_eq!(repo.repo_path(), "/tmp/repo");
    let config = repo.storage_engine(StorageEngineSpec::Local);
    assert_eq!(config.data_dir, "data");
    assert_eq!(config.workers, 4);
}

#[test]
fn open_fails_on_another_schema_version() {
    for version in [1, -1, 7] {
        let mut plan = Repo::open(String::from("r"), OpenMode::Shared);
        plan.step(OpenEvent::Begin);
        plan.step(OpenEvent::Found(good_layout()));
        plan.step(OpenEvent::Locked);
        assert_eq!(plan.step(OpenEvent::SchemaVersion(version)), OpenAction::Fail);
        assert_eq!(plan.finish().err(), Some(RepoError::UnsupportedSchemaVersion));
    }
}

#[test]
fn open_fails_on_a_missing_or_unfinished_repository() {
    let mut plan = Repo::open(String::from("r"), OpenMode::Shared);
    plan.step(OpenEvent::Begin);
    let nothing = Layout { repo_exists: false, data_exists: false, catalog_exists: false, lock_exists: true };
    assert_eq!(plan.step(OpenEvent::Found(nothing)), OpenAction::Fail);
    assert_eq!(plan.finish().err(), Some(RepoError::RepoDoesNotExist));

    let mut plan = Repo::open(String::from("r"), OpenMode::Shared);
    plan.step(OpenEvent::Begin);
    let no_catalog = Layout { repo_exists: true, data_exists: true, catalog_exists: false, lock_exists: true };
    assert_eq!(plan.step(OpenEvent::Found(no_catalog)), OpenAction::Fail);
    assert_eq!(plan.finish().err(), Some(RepoError::NotInitializedProperly));
}

#[test]
fn open_passes_on_a_failure_to_lock() {
    let mut plan = Repo::open(String::from("r"), OpenMode::Exclusive);
    plan.step(OpenEvent::Begin);
    plan.step(OpenEvent::Found(good_layout()));
    let failure = RepoError::Io { message: String::from("no locks available") };
    assert_eq!(plan.step(OpenEvent::Failed(failure)), OpenAction::Fail);
    assert_eq!(
        plan.finish().err(),
        Some(RepoError::Io { message: String::from("no locks available") })
    );
}

#[test]
fn open_without_every_step_gives_no_handle() {
    let mut plan = Repo::open(String::from("r"), OpenMode::Exclusive);
    plan.step(OpenEvent::Begin);
    assert_eq!(plan.step(OpenEvent::SchemaVersion(0)), OpenAction::Fail);
    assert_eq!(plan.finish().err(), Some(RepoError::OutOfTurn));
    let plan = Repo::open(String::from("r"), OpenMode::Exclusive);
    assert_eq!(plan.finish().err(), Some(RepoError::OutOfTurn));
}

#[test]
fn check_sane_judges_the_layout() {
    assert_eq!(Repo::check_sane(good_layout()), Ok(()));
    assert_eq!(
        Repo::check_sane(Layout { repo_exists: false, data_exists: true, catalog_exists: true, lock_exists: true }),
        Err(RepoError::RepoDoesNotExist)
    );
    assert_eq!(
        Repo::check_sane(Layout { repo_exists: true, data_exists: false, catalog_exists: true, lock_exists: true }),
        Err(RepoError::NotInitializedProperly)
    );
    assert_eq!(
        Repo::check_sane(Layout { repo_exists: true, data_exists: true, catalog_exists: false, lock_exists: true }),
        Err(RepoError::NotInitializedProperly)
    );
}

#[test]
fn init_builds_in_staging_and_renames_last() {
    let mut plan =
        Repo::init(String::from("/x/repo"), String::from("/x/repo.tmp"), StorageEngineSpec::Local);
    assert_eq!(plan.target_path(), "/x/repo");
    assert_eq!(plan.staging_path(), "/x/repo.tmp");
    assert_eq!(plan.repository_id(), &None);
    assert_eq!(plan.first_generation(), &None);
    assert_eq!(plan.schema_version(), 0);
    assert_eq!(plan.engine_spec(), StorageEngineSpec::Local);
    assert_eq!(plan.step(InitEvent::Begin), InitAction::ProbeTarget);
    assert_eq!(plan.step(InitEvent::Absent), InitAction::ProbeStaging);
    assert_eq!(plan.step(InitEvent::Absent), InitAction::CreateStagingDir);
    assert_eq!(plan.step(InitEvent::Done), InitAction::CreateDataDir);
    assert_eq!(plan.step(InitEvent::Done), InitAction::CreateLockFile);
    assert_eq!(plan.step(InitEvent::Done), InitAction::CreateCatalog);
    let id = plan.repository_id().clone().unwrap();
    let generation = plan.first_generation().clone().unwrap();
    assert_eq!(id.len(), 64);
    assert_eq!(generation.len(), 64);
    assert_ne!(id, generation);
    assert_eq!(plan.step(InitEvent::Done), InitAction::SyncStagingDir);
    assert_eq!(plan.repository_id(), &Some(id));
    assert_eq!(plan.step(InitEvent::Done), InitAction::RenameIntoPlace);
    assert_eq!(plan.step(InitEvent::Done), InitAction::Finished);
    assert_eq!(plan.finish(), Ok(()));
}

#[test]
fn init_refuses_a_taken_target_or_staging_path() {
    let mut plan =
        Repo::init(String::from("/x/repo"), String::from("/x/repo.tmp"), StorageEngineSpec::Local);
    plan.step(InitEvent::Begin);
    assert_eq!(plan.step(InitEvent::Present), InitAction::Fail);
    assert_eq!(plan.finish(), Err(RepoError::AlreadyExists { path: String::from("/x/repo") }));

    let mut plan =
        Repo::init(String::from("/x/repo"), String::from("/x/repo.tmp"), StorageEngineSpec::Local);
    plan.step(InitEvent::Begin);
    plan.step(InitEvent::Absent);
    assert_eq!(plan.step(InitEvent::Present), InitAction::Fail);
    assert_eq!(plan.finish(), Err(RepoError::AlreadyExists { path: String::from("/x/repo.tmp") }));
}

#[test]
fn init_that_fails_midway_never_renames() {
    let mut plan =
        Repo::init(String::from("/x/repo"), String::from("/x/repo.tmp"), StorageEngineSpec::Local);
    plan.step(InitEvent::Begin);
    plan.step(InitEvent::Absent);
    plan.step(InitEvent::Absent);
    plan.step(InitEvent::Done);
    let failure = RepoError::Io { message: String::from("disk full") };
    assert_eq!(plan.step(InitEvent::Failed(failure)), InitAction::Fail);
    for _ in 0..10 {
        assert_eq!(plan.step(InitEvent::Done), InitAction::Fail);
    }
    assert_eq!(plan.finish(), Err(RepoError::OutOfTurn));
}

#[test]
fn init_reports_the_failure_of_a_step() {
    let mut plan =
        Repo::init(String::from("/x/repo"), String::from("/x/repo.tmp"), StorageEngineSpec::Local);
    plan.step(InitEvent::Begin);
    plan.step(InitEvent::Absent);
    plan.step(InitEvent::Absent);
    let failure = RepoError::Io { message: String::from("permission denied") };
    assert_eq!(plan.step(InitEvent::Failed(failure)), InitAction::Fail);
    assert_eq!(
        plan.finish(),
        Err(RepoError::Io { message: String::from("permission denied") })
    );
}

#[test]
fn staging_name_appends_the_suffix() {
    assert_eq!(staging_name("repo"), "repo.archivist-repo-init-tmp");
    assert_eq!(staging_name(""), ".archivist-repo-init-tmp");
}

#[test]
fn walk_hands_out_full_batches_and_the_rest() {
    let repo = open_repo(OpenMode::Shared);
    let mut batcher = repo.walk_all_items();
    let mut batches: Vec<Vec<Item>> = Vec::new();
    for id in 0..250i64 {
        let item = Item { id, metadata: metadata(0, addr(1)) };
        if let Some(batch) = batcher.push(item) {
            batches.push(batch);
        }
    }
    if let Some(batch) = batcher.finish() {
        batches.push(batch);
    }
    assert_eq!(batches.len(), 3);
    assert_eq!(batches[0].len(), 101);
    assert_eq!(batches[1].len(), 101);
    assert_eq!(batches[2].len(), 48);
    let ids: Vec<i64> = batches.iter().flatten().map(|item| item.id).collect();
    assert_eq!(ids, (0..250i64).collect::<Vec<i64>>());
}

#[test]
fn walk_of_nothing_hands_out_nothing() {
    let repo = open_repo(OpenMode::Shared);
    assert_eq!(repo.walk_all_items().finish(), None);
    let mut batcher = repo.walk_all_items();
    assert_eq!(batcher.push(Item { id: 1, metadata: metadata(0, addr(1)) }), None);
    assert_eq!(batcher.finish().unwrap().len(), 1);
}

#[test]
fn lookup_joins_id_and_row() {
    let repo = open_repo(OpenMode::Shared);
    assert_eq!(repo.lookup_item_by_id(4, None), None);
    assert_eq!(
        repo.lookup_item_by_id(4, Some(metadata(1, addr(2)))),
        Some(Item { id: 4, metadata: metadata(1, addr(2)) })
    );
}

#[test]
fn random_tokens_are_hex_and_differ() {
    let a = new_random_token().unwrap();
    let b = new_random_token().unwrap();
    assert_eq!(a.len(), 64);
    assert!(a.chars().all(|c| c.is_ascii_digit() || ('a'..='f').contains(&c)));
    assert_ne!(a, b);
    assert_ne!(a, "0".repeat(64));
}

#[test]
fn random_bytes_have_the_length_asked_for() {
    assert_eq!(random(0).unwrap().len(), 0);
    let v = random(64).unwrap();
    assert_eq!(v.len(), 64);
    assert_ne!(v, vec![0u8; 64]);
    let mut buf = [0u8; 48];
    random_buf(&mut buf).unwrap();
    assert_ne!(buf, [0u8; 48]);
}

#[test]
fn psk_keys_are_fresh() {
    let a = kx_psk_keygen().unwrap();
    let b = kx_psk_keygen().unwrap();
    assert_eq!(a.len(), KX_PSKBYTES);
    assert_ne!(a, [0u8; KX_PSKBYTES]);
    assert_ne!(a, b);
}

#[test]
fn buffer_checks() {
    assert_eq!(SECRETBOX_HEADERBYTES, 36);
    assert!(secretbox_encrypt_fits(36, 0));
    assert!(secretbox_encrypt_fits(136, 100));
    assert!(!secretbox_encrypt_fits(135, 100));
    assert!(!secretbox_encrypt_fits(10, usize::MAX));
    assert!(secretbox_decrypt_fits(100, 136));
    assert!(secretbox_decrypt_fits(0, 36));
    assert!(!secretbox_decrypt_fits(99, 136));
    assert!(!secretbox_decrypt_fits(1000, 35));
    assert!(hash_output_fits(16));
    assert!(hash_output_fits(32));
    assert!(hash_output_fits(65535));
    assert!(!hash_output_fits(15));
    assert!(!hash_output_fits(65536));
}

#[test]
fn random_outcome_turns_the_code_into_the_error() {
    assert_eq!(random_outcome(Ok(())), Ok(()));
    assert_eq!(random_outcome(Err(5)), Err(RandomError { code: 5 }));
    assert_eq!(filled(vec![1, 2], Ok(())), Ok(vec![1, 2]));
    assert_eq!(filled(vec![1, 2], Err(RandomError { code: 9 })), Err(RandomError { code: 9 }));
    let bytes: Vec<u8> = (0..32).collect();
    let key = key_from(&bytes);
    assert_eq!(key.to_vec(), bytes);
    assert_eq!(token_from(Ok(vec![0x01, 0xab])), Ok(String::from("01ab")));
    assert_eq!(token_from(Err(RandomError { code: 2 })), Err(RandomError { code: 2 }));
}

#[test]
fn nothing_random_is_always_had() {
    assert_eq!(random(0), Ok(Vec::new()));
    let mut empty: [u8; 0] = [];
    assert_eq!(random_buf(&mut empty), Ok(()));
}

#[test]
fn open_fails_on_a_missing_lock_file() {
    let mut plan = Repo::open(String::from("r"), OpenMode::Shared);
    plan.step(OpenEvent::Begin);
    let no_lock =
        Layout { repo_exists: true, data_exists: true, catalog_exists: true, lock_exists: false };
    assert_eq!(Repo::check_sane(no_lock), Err(RepoError::NotInitializedProperly));
    assert_eq!(plan.step(OpenEvent::Found(no_lock)), OpenAction::Fail);
    assert_eq!(plan.finish().err(), Some(RepoError::NotInitializedProperly));
}

#[test]
fn init_finds_a_taken_path_before_it_draws_anything() {
    let mut plan =
        Repo::init(String::from("/x/repo"), String::from("/x/repo.tmp"), StorageEngineSpec::Local);
    plan.step(InitEvent::Begin);
    assert_eq!(plan.step(InitEvent::Present), InitAction::Fail);
    assert_eq!(plan.repository_id(), &None);
    assert_eq!(plan.first_generation(), &None);
}

#[test]
fn gc_of_an_empty_catalog_sweeps_the_one_chunk() {
    let repo = open_repo(OpenMode::Exclusive);
    let mut engine = MemStorage::new();
    engine.add_chunk(&Address::default(), vec![1]).unwrap();
    engine.sync().unwrap();
    let mut run = repo.gc(engine);
    run.step(GcEvent::Begin);
    run.step(GcEvent::Done);
    run.step(GcEvent::EndOfItems);
    assert_eq!(run.step(GcEvent::Done), GcAction::Finished);
    let (mut engine, result) = run.finish();
    assert_eq!(result, Ok(GCStats { chunks_deleted: 1, bytes_freed: 1, bytes_remaining: 0 }));
    assert_eq!(engine.get_chunk(&Address::default()), Err(StorageError::NotFound));
}

#[test]
fn second_gc_finds_nothing_to_do() {
    let repo = open_repo(OpenMode::Exclusive);
    let mut run = repo.gc(store_with_one_tree());
    run.step(GcEvent::Begin);
    run.step(GcEvent::Done);
    run.step(GcEvent::Item(metadata(2, addr(20))));
    run.step(GcEvent::EndOfItems);
    run.step(GcEvent::Done);
    let (engine, first) = run.finish();
    let first = first.unwrap();
    let mut run = repo.gc(engine);
    run.step(GcEvent::Begin);
    run.step(GcEvent::Done);
    run.step(GcEvent::Item(metadata(2, addr(20))));
    run.step(GcEvent::EndOfItems);
    run.step(GcEvent::Done);
    let (engine, second) = run.finish();
    assert_eq!(
        second,
        Ok(GCStats { chunks_deleted: 0, bytes_freed: 0, bytes_remaining: first.bytes_remaining })
    );
    assert_eq!(engine.len(), 6);
}

#[test]
fn gc_keeps_the_generation_it_drew() {
    let repo = open_repo(OpenMode::Exclusive);
    let mut run = repo.gc(store_with_one_tree());
    run.step(GcEvent::Begin);
    let token = run.new_generation().clone();
    run.step(GcEvent::Done);
    run.step(GcEvent::Item(metadata(2, addr(20))));
    assert_eq!(run.new_generation(), &token);
    run.step(GcEvent::EndOfItems);
    run.step(GcEvent::Done);
    assert_eq!(run.new_generation(), &token);
}

#[test]
fn decrypt_check_tells_a_short_text_from_a_small_buffer() {
    assert_eq!(secretbox_decrypt_check(100, 35), DecryptCheck::NotSealed);
    assert_eq!(secretbox_decrypt_check(0, 0), DecryptCheck::NotSealed);
    assert_eq!(secretbox_decrypt_check(99, 136), DecryptCheck::BufferTooSmall);
    assert_eq!(secretbox_decrypt_check(100, 136), DecryptCheck::Fits);
    assert_eq!(secretbox_decrypt_check(0, 36), DecryptCheck::Fits);
}
