//! The repository: access modes, item records, and the protocols by which
//! a repository is created, opened and garbage collected.

use crate::address::Address;
use crate::chunk_storage::total_bytes;
use crate::chunk_storage::valid;
use crate::chunk_storage::Chunks;
use crate::chunk_storage::Engine;
use crate::chunk_storage::StorageError;
use crate::crypto::VersionedEncryptionHeader;
use crate::gc::leveled;
use crate::gc::lemma_marked_is_live;
use crate::gc::live;
use crate::gc::marking;
use crate::gc::sweep;
use crate::gc::swept;
use crate::gc::Marked;
use crate::gc::Roots;
use crate::hex::easy_encode_to_string;
use crate::hex::hex_encoding;
use crate::htree::complete;
use crate::htree::occurs;
use crate::htree::valid_node;
use crate::htree::HTreeError;
use crate::hydrogen::random;
use crate::hydrogen::RandomError;
use vstd::prelude::*;
use vstd::string::StringExecFns;

verus! {

/// The one schema version that this implementation reads and writes.
pub const SCHEMA_VERSION: i32 = 0;

/// Number of random bytes behind a token.
pub const TOKEN_BYTES: usize = 32;

/// More than this many items are never held back from the walker.
pub const WALK_BATCH: usize = 100;

/// Number of workers that a local storage engine is given.
pub const LOCAL_WORKERS: usize = 4;

/// Why a repository operation failed.
#[derive(Debug, PartialEq, Eq)]
pub enum RepoError {
    /// The path is taken; nothing is overwritten.
    AlreadyExists { path: String },
    /// The directory is there, but not all that belongs in it.
    NotInitializedProperly,
    /// There is nothing at the path.
    RepoDoesNotExist,
    /// The catalog reported an error.
    SqliteError { err: String },
    /// The catalog was written by another version of the schema.
    UnsupportedSchemaVersion,
    /// Garbage was to be collected without the exclusive lock.
    GcWithoutExclusiveLock,
    /// The file system reported an error.
    Io { message: String },
    /// The chunk store failed.
    Storage(StorageError),
    /// A hash tree could not be walked.
    Tree(HTreeError),
    /// No random bytes could be had.
    Random(RandomError),
    /// A step was reported that the protocol did not ask for.
    OutOfTurn,
}

/// Which storage engine keeps the chunks of a repository.
#[derive(Debug, Clone, Copy, PartialEq, Eq, Structural)]
pub enum StorageEngineSpec {
    Local,
}

/// How a repository is opened: shared with other openers, or alone.
#[derive(Debug, Clone, Copy, PartialEq, Eq, Structural)]
pub enum OpenMode {
    Shared,
    Exclusive,
}

/// What is recorded of one retained backup.
#[derive(Debug, PartialEq, Clone)]
pub struct ItemMetadata {
    pub tree_height: usize,
    pub encrypt_header: VersionedEncryptionHeader,
    pub encrypted_tags: Vec<u8>,
    pub address: Address,
}

/// A retained backup under the identifier that the catalog gave it.
#[derive(Debug, PartialEq, Clone)]
pub struct Item {
    pub id: i64,
    pub metadata: ItemMetadata,
}

/// What one sweep of the chunk store removed and left behind.
#[derive(Debug, PartialEq, Eq, Clone, Copy, Structural)]
pub struct GCStats {
    pub chunks_deleted: usize,
    pub bytes_freed: usize,
    pub bytes_remaining: usize,
}

/// The text is the hexadecimal form of `TOKEN_BYTES` bytes.
pub open spec fn is_token(text: Seq<char>) -> bool {
    exists|bytes: Seq<u8>| bytes.len() == TOKEN_BYTES && text == #[trigger] hex_encoding(bytes)
}

/// The token that is made of random bytes, if they were had: their
/// hexadecimal text.
pub fn token_from(drawn: Result<Vec<u8>, RandomError>) -> (r: Result<String, RandomError>)
    ensures
        match drawn {
            Ok(bytes) => r matches Ok(token) && token@ == hex_encoding(bytes@),
            Err(e) => r == Err::<String, RandomError>(e),
        },
{
    match drawn {
        Ok(bytes) => Ok(easy_encode_to_string(bytes.as_slice())),
        Err(e) => Err(e),
    }
}

/// A fresh random token: the hexadecimal text of `TOKEN_BYTES` random
/// bytes. A failure carries the code, never zero, that the system's random
/// source reported.
pub fn new_random_token() -> (r: Result<String, RandomError>)
    ensures
        r matches Ok(token) ==> is_token(token@),
        r matches Err(e) ==> e.code != 0,
{
    token_from(random(TOKEN_BYTES))
}

/// The name of the staging directory in which a repository called `name`
/// is built before it is moved into place.
pub fn staging_name(name: &str) -> (staging: String)
    ensures
        staging@ == name@ + ".archivist-repo-init-tmp"@,
{
    let mut staging = String::from_str(name);
    staging.append(".archivist-repo-init-tmp");
    staging
}

/// Where a local storage engine keeps its chunks, below the repository's
/// directory, and how many workers it runs.
#[derive(Debug, PartialEq, Eq, Clone, Copy)]
pub struct LocalEngineConfig {
    pub data_dir: &'static str,
    pub workers: usize,
}

/// What of a repository's layout is found on disk.
#[derive(Debug, Clone, Copy, PartialEq, Eq, Structural)]
pub struct Layout {
    pub repo_exists: bool,
    pub data_exists: bool,
    pub catalog_exists: bool,
    pub lock_exists: bool,
}

/// The verdict on a layout: the error that opening must fail with, if any.
pub open spec fn layout_verdict(layout: Layout) -> Result<(), RepoError> {
    if !layout.repo_exists {
        Err(RepoError::RepoDoesNotExist)
    } else if !layout.data_exists || !layout.catalog_exists || !layout.lock_exists {
        Err(RepoError::NotInitializedProperly)
    } else {
        Ok(())
    }
}

/// A repository that has been opened.
pub struct Repo {
    open_mode: OpenMode,
    repo_path: String,
}

impl Repo {
    /// The mode in which the repository was opened.
    pub closed spec fn mode(&self) -> OpenMode {
        self.open_mode
    }

    /// The path at which the repository was opened.
    pub closed spec fn path(&self) -> Seq<char> {
        self.repo_path@
    }

    /// Whether the repository was opened alone.
    pub fn is_exclusive(&self) -> (r: bool)
        ensures
            r == (self.mode() is Exclusive),
    {
        match self.open_mode {
            OpenMode::Exclusive => true,
            OpenMode::Shared => false,
        }
    }

    /// The path at which the repository was opened.
    pub fn repo_path(&self) -> (p: &String)
        ensures
            p@ == self.path(),
    {
        &self.repo_path
    }

    /// Judges what was found at a repository's path.
    pub fn check_sane(layout: Layout) -> (r: Result<(), RepoError>)
        ensures
            r == layout_verdict(layout),
    {
        if !layout.repo_exists {
            return Err(RepoError::RepoDoesNotExist);
        }
        if !layout.data_exists {
            return Err(RepoError::NotInitializedProperly);
        }
        if !layout.catalog_exists {
            return Err(RepoError::NotInitializedProperly);
        }
        if !layout.lock_exists {
            return Err(RepoError::NotInitializedProperly);
        }
        Ok(())
    }

    /// The engine that the stored specification asks for.
    pub fn storage_engine(&self, spec: StorageEngineSpec) -> (config: LocalEngineConfig)
        ensures
            config.data_dir@ == "data"@,
            config.workers == LOCAL_WORKERS,
    {
        match spec {
            StorageEngineSpec::Local => LocalEngineConfig { data_dir: "data", workers: LOCAL_WORKERS },
        }
    }
}

} // verus!

verus! {

/// How far the opening of a repository has come.
#[derive(Debug, Clone, Copy, PartialEq, Eq, Structural)]
pub enum OpenStage {
    Start,
    Probing,
    Locking,
    ReadingSchema,
    Opened,
    Failed,
}

/// What the caller of an opening is to do next.
#[derive(Debug, Clone, Copy, PartialEq, Eq, Structural)]
pub enum OpenAction {
    /// Find out what of the layout is on disk.
    ProbeLayout,
    /// Take the repository's lock, shared or exclusive, waiting for it.
    Lock(OpenMode),
    /// Read the schema version from the catalog.
    ReadSchemaVersion,
    /// The repository is open: take the handle.
    Ready,
    /// The opening failed: release what was taken and report the failure.
    Fail,
}

/// What the caller of an opening reports back.
pub enum OpenEvent {
    Begin,
    Found(Layout),
    Locked,
    SchemaVersion(i32),
    Failed(RepoError),
}

/// The stage and the action that follow a stage and an event.
pub open spec fn open_next(stage: OpenStage, mode: OpenMode, event: OpenEvent) -> (
    OpenStage,
    OpenAction,
) {
    match (stage, event) {
        (OpenStage::Start, OpenEvent::Begin) => (OpenStage::Probing, OpenAction::ProbeLayout),
        (OpenStage::Probing, OpenEvent::Found(layout)) => if layout_verdict(layout) is Ok {
            (OpenStage::Locking, OpenAction::Lock(mode))
        } else {
            (OpenStage::Failed, OpenAction::Fail)
        },
        (OpenStage::Locking, OpenEvent::Locked) => (
            OpenStage::ReadingSchema,
            OpenAction::ReadSchemaVersion,
        ),
        (OpenStage::ReadingSchema, OpenEvent::SchemaVersion(v)) => if v == SCHEMA_VERSION {
            (OpenStage::Opened, OpenAction::Ready)
        } else {
            (OpenStage::Failed, OpenAction::Fail)
        },
        _ => (OpenStage::Failed, OpenAction::Fail),
    }
}

/// The failure that a stage and an event lead to, if they lead to one.
pub open spec fn open_failure(stage: OpenStage, event: OpenEvent) -> Option<RepoError> {
    match (stage, event) {
        (OpenStage::Start, OpenEvent::Begin) => None,
        (OpenStage::Probing, OpenEvent::Found(layout)) => match layout_verdict(layout) {
            Ok(()) => None,
            Err(e) => Some(e),
        },
        (OpenStage::Locking, OpenEvent::Locked) => None,
        (OpenStage::ReadingSchema, OpenEvent::SchemaVersion(v)) => if v == SCHEMA_VERSION {
            None
        } else {
            Some(RepoError::UnsupportedSchemaVersion)
        },
        (OpenStage::Opened, _) => Some(RepoError::OutOfTurn),
        (OpenStage::Failed, _) => Some(RepoError::OutOfTurn),
        (_, OpenEvent::Failed(e)) => Some(e),
        _ => Some(RepoError::OutOfTurn),
    }
}

/// The opening of a repository, step by step. The caller does what each
/// step asks for and reports how it went.
pub struct OpenPlan {
    stage: OpenStage,
    open_mode: OpenMode,
    repo_path: String,
    failure: Option<RepoError>,
}

impl OpenPlan {
    /// How far the opening has come.
    pub closed spec fn stage(&self) -> OpenStage {
        self.stage
    }

    /// The mode in which the repository is to be opened.
    pub closed spec fn mode(&self) -> OpenMode {
        self.open_mode
    }

    /// The path of the repository.
    pub closed spec fn path(&self) -> Seq<char> {
        self.repo_path@
    }

    /// Why the opening failed, once it has.
    pub closed spec fn failure(&self) -> Option<RepoError> {
        self.failure
    }

    /// Takes the caller's report and says what to do next.
    pub fn step(&mut self, event: OpenEvent) -> (action: OpenAction)
        ensures
            (final(self).stage(), action) == open_next(old(self).stage(), old(self).mode(), event),
            final(self).mode() == old(self).mode(),
            final(self).path() == old(self).path(),
            final(self).failure() == match open_failure(old(self).stage(), event) {
                Some(e) => Some(e),
                None => old(self).failure(),
            },
    {
        match (self.stage, event) {
            (OpenStage::Start, OpenEvent::Begin) => {
                self.stage = OpenStage::Probing;
                OpenAction::ProbeLayout
            },
            (OpenStage::Probing, OpenEvent::Found(layout)) => {
                match Repo::check_sane(layout) {
                    Ok(()) => {
                        self.stage = OpenStage::Locking;
                        OpenAction::Lock(self.open_mode)
                    },
                    Err(e) => {
                        self.stage = OpenStage::Failed;
                        self.failure = Some(e);
                        OpenAction::Fail
                    },
                }
            },
            (OpenStage::Locking, OpenEvent::Locked) => {
                self.stage = OpenStage::ReadingSchema;
                OpenAction::ReadSchemaVersion
            },
            (OpenStage::ReadingSchema, OpenEvent::SchemaVersion(v)) => {
                if v == SCHEMA_VERSION {
                    self.stage = OpenStage::Opened;
                    OpenAction::Ready
                } else {
                    self.stage = OpenStage::Failed;
                    self.failure = Some(RepoError::UnsupportedSchemaVersion);
                    OpenAction::Fail
                }
            },
            (OpenStage::Opened, _) => {
                self.stage = OpenStage::Failed;
                self.failure = Some(RepoError::OutOfTurn);
                OpenAction::Fail
            },
            (OpenStage::Failed, _) => {
                self.failure = Some(RepoError::OutOfTurn);
                OpenAction::Fail
            },
            (_, OpenEvent::Failed(e)) => {
                self.stage = OpenStage::Failed;
                self.failure = Some(e);
                OpenAction::Fail
            },
            _ => {
                self.stage = OpenStage::Failed;
                self.failure = Some(RepoError::OutOfTurn);
                OpenAction::Fail
            },
        }
    }

    /// The handle of the opened repository, or the reason why there is
    /// none. There is a handle only when every step went well.
    pub fn finish(self) -> (r: Result<Repo, RepoError>)
        ensures
            r is Ok <==> self.stage() is Opened,
            r matches Ok(repo) ==> repo.mode() == self.mode() && repo.path() == self.path(),
            r matches Err(e) ==> e == match self.failure() {
                Some(e) => e,
                None => RepoError::OutOfTurn,
            },
    {
        match self.stage {
            OpenStage::Opened => Ok(Repo { open_mode: self.open_mode, repo_path: self.repo_path }),
            _ => match self.failure {
                Some(e) => Err(e),
                None => Err(RepoError::OutOfTurn),
            },
        }
    }
}

impl Repo {
    /// Starts the opening of the repository at `repo_path`.
    pub fn open(repo_path: String, open_mode: OpenMode) -> (plan: OpenPlan)
        ensures
            plan.stage() is Start,
            plan.mode() == open_mode,
            plan.path() == repo_path@,
            plan.failure() is None,
    {
        OpenPlan { stage: OpenStage::Start, open_mode, repo_path, failure: None }
    }
}

/// The schema gate: an opening never gets past a catalog of another schema
/// version, and it arrives at an open repository in one way only, from
/// reading the version that this implementation supports.
pub proof fn lemma_schema_gate(stage: OpenStage, mode: OpenMode, event: OpenEvent)
    ensures
        forall|v: i32|
            v != SCHEMA_VERSION ==> #[trigger] open_next(
                OpenStage::ReadingSchema,
                mode,
                OpenEvent::SchemaVersion(v),
            ) == (OpenStage::Failed, OpenAction::Fail) && open_failure(
                OpenStage::ReadingSchema,
                OpenEvent::SchemaVersion(v),
            ) == Some(RepoError::UnsupportedSchemaVersion),
        open_next(stage, mode, event).0 is Opened ==> stage is ReadingSchema && event
            == OpenEvent::SchemaVersion(SCHEMA_VERSION),
        open_next(stage, mode, event).1 is Lock ==> stage is Probing && open_next(
            stage,
            mode,
            event,
        ).1 == OpenAction::Lock(mode),
{
}

} // verus!

verus! {

/// How far the creation of a repository has come.
#[derive(Debug, Clone, Copy, PartialEq, Eq, Structural)]
pub enum InitStage {
    Start,
    ProbingTarget,
    ProbingStaging,
    MakingStaging,
    MakingData,
    MakingLock,
    MakingCatalog,
    Syncing,
    Renaming,
    Done,
    Failed,
}

/// What the caller of a creation is to do next. All that is created is
/// created below the staging directory; only the renaming touches the
/// target path.
#[derive(Debug, Clone, Copy, PartialEq, Eq, Structural)]
pub enum InitAction {
    /// Find out whether anything is at the target path.
    ProbeTarget,
    /// Find out whether anything is at the staging path.
    ProbeStaging,
    /// Create the staging directory.
    CreateStagingDir,
    /// Create the directory of the chunk store in the staging directory.
    CreateDataDir,
    /// Create the empty lock file in the staging directory.
    CreateLockFile,
    /// Create the catalog in the staging directory, with its two tables
    /// and the four rows of metadata, in one transaction.
    CreateCatalog,
    /// Flush the staging directory to disk.
    SyncStagingDir,
    /// Rename the staging directory to the target path.
    RenameIntoPlace,
    /// The repository is in place.
    Finished,
    /// The creation failed: report the failure.
    Fail,
}

/// What the caller of a creation reports back.
pub enum InitEvent {
    Begin,
    Present,
    Absent,
    Done,
    Failed(RepoError),
}

/// Where an action writes.
#[derive(Debug, Clone, Copy, PartialEq, Eq, Structural)]
pub enum Place {
    Nowhere,
    Staging,
    Target,
}

/// The place that an action writes to.
pub open spec fn writes_to(action: InitAction) -> Place {
    match action {
        InitAction::CreateStagingDir => Place::Staging,
        InitAction::CreateDataDir => Place::Staging,
        InitAction::CreateLockFile => Place::Staging,
        InitAction::CreateCatalog => Place::Staging,
        InitAction::SyncStagingDir => Place::Staging,
        InitAction::RenameIntoPlace => Place::Target,
        _ => Place::Nowhere,
    }
}

/// The stage and the action that follow a stage and an event. The
/// repository's two tokens are drawn when the catalog is due, after both
/// paths were found free; `drawn` tells whether they could be.
pub open spec fn init_next(stage: InitStage, event: InitEvent, drawn: bool) -> (
    InitStage,
    InitAction,
) {
    match (stage, event) {
        (InitStage::Start, InitEvent::Begin) => (InitStage::ProbingTarget, InitAction::ProbeTarget),
        (InitStage::ProbingTarget, InitEvent::Absent) => (
            InitStage::ProbingStaging,
            InitAction::ProbeStaging,
        ),
        (InitStage::ProbingStaging, InitEvent::Absent) => (
            InitStage::MakingStaging,
            InitAction::CreateStagingDir,
        ),
        (InitStage::MakingStaging, InitEvent::Done) => (
            InitStage::MakingData,
            InitAction::CreateDataDir,
        ),
        (InitStage::MakingData, InitEvent::Done) => (
            InitStage::MakingLock,
            InitAction::CreateLockFile,
        ),
        (InitStage::MakingLock, InitEvent::Done) => if drawn {
            (InitStage::MakingCatalog, InitAction::CreateCatalog)
        } else {
            (InitStage::Failed, InitAction::Fail)
        },
        (InitStage::MakingCatalog, InitEvent::Done) => (
            InitStage::Syncing,
            InitAction::SyncStagingDir,
        ),
        (InitStage::Syncing, InitEvent::Done) => (InitStage::Renaming, InitAction::RenameIntoPlace),
        (InitStage::Renaming, InitEvent::Done) => (InitStage::Done, InitAction::Finished),
        _ => (InitStage::Failed, InitAction::Fail),
    }
}

/// The failure that a stage and an event lead to, if they lead to one. A
/// path that is found taken is named in the failure.
pub open spec fn init_failure_is(
    stage: InitStage,
    event: InitEvent,
    target: Seq<char>,
    staging: Seq<char>,
    failure: RepoError,
) -> bool {
    match (stage, event) {
        (InitStage::ProbingTarget, InitEvent::Present) => failure matches RepoError::AlreadyExists {
            path,
        } && path@ == target,
        (InitStage::ProbingStaging, InitEvent::Present) => failure matches RepoError::AlreadyExists {
            path,
        } && path@ == staging,
        (InitStage::MakingLock, InitEvent::Done) => failure is Random,
        (InitStage::Done, _) => failure == RepoError::OutOfTurn,
        (InitStage::Failed, _) => failure == RepoError::OutOfTurn,
        (_, InitEvent::Failed(e)) => failure == e,
        _ => failure == RepoError::OutOfTurn,
    }
}

/// The creation of a repository, step by step: everything is built in a
/// staging directory beside the target and moved into place at the end.
pub struct InitPlan {
    stage: InitStage,
    target: String,
    staging: String,
    id: Option<String>,
    gc_generation: Option<String>,
    engine: StorageEngineSpec,
    failure: Option<RepoError>,
}

impl InitPlan {
    /// How far the creation has come.
    pub closed spec fn stage(&self) -> InitStage {
        self.stage
    }

    /// The path at which the repository is to appear.
    pub closed spec fn target(&self) -> Seq<char> {
        self.target@
    }

    /// The path at which the repository is built.
    pub closed spec fn staging(&self) -> Seq<char> {
        self.staging@
    }

    /// The identifier of the repository, once it is drawn.
    pub closed spec fn id(&self) -> Option<Seq<char>> {
        match self.id {
            Some(token) => Some(token@),
            None => None,
        }
    }

    /// The first generation token of the repository, once it is drawn.
    pub closed spec fn gc_generation(&self) -> Option<Seq<char>> {
        match self.gc_generation {
            Some(token) => Some(token@),
            None => None,
        }
    }

    /// Whether both tokens are drawn.
    pub open spec fn drawn(&self) -> bool {
        self.id() is Some && self.gc_generation() is Some
    }

    /// The storage engine chosen for the repository.
    pub closed spec fn engine(&self) -> StorageEngineSpec {
        self.engine
    }

    /// Why the creation failed, once it has.
    pub closed spec fn failure(&self) -> Option<RepoError> {
        self.failure
    }

    /// The path at which the repository is to appear.
    pub fn target_path(&self) -> (p: &String)
        ensures
            p@ == self.target(),
    {
        &self.target
    }

    /// The path at which the repository is built.
    pub fn staging_path(&self) -> (p: &String)
        ensures
            p@ == self.staging(),
    {
        &self.staging
    }

    /// The random identifier that the catalog is to record; it is there
    /// from the step that asks for the catalog.
    pub fn repository_id(&self) -> (p: &Option<String>)
        ensures
            match *p {
                Some(token) => self.id() == Some(token@),
                None => self.id() is None,
            },
    {
        &self.id
    }

    /// The first generation token that the catalog is to record; it is
    /// there from the step that asks for the catalog.
    pub fn first_generation(&self) -> (p: &Option<String>)
        ensures
            match *p {
                Some(token) => self.gc_generation() == Some(token@),
                None => self.gc_generation() is None,
            },
    {
        &self.gc_generation
    }

    /// The storage engine that the catalog is to record.
    pub fn engine_spec(&self) -> (e: StorageEngineSpec)
        ensures
            e == self.engine(),
    {
        self.engine
    }

    /// The schema version that the catalog is to record.
    pub fn schema_version(&self) -> (v: i32)
        ensures
            v == SCHEMA_VERSION,
    {
        SCHEMA_VERSION
    }

    /// Takes the caller's report and says what to do next.
    pub fn step(&mut self, event: InitEvent) -> (action: InitAction)
        ensures
            (final(self).stage(), action) == init_next(old(self).stage(), event, final(self).drawn()),
            final(self).target() == old(self).target(),
            final(self).staging() == old(self).staging(),
            !(old(self).stage() is MakingLock && event is Done) ==> final(self).id()
                == old(self).id() && final(self).gc_generation() == old(self).gc_generation(),
            action is CreateCatalog ==> (final(self).id() matches Some(id) && is_token(id))
                && (final(self).gc_generation() matches Some(generation) && is_token(generation)),
            final(self).engine() == old(self).engine(),
            action is Fail ==> (final(self).failure() matches Some(e) && init_failure_is(
                old(self).stage(),
                event,
                old(self).target(),
                old(self).staging(),
                e,
            )),
            !(action is Fail) ==> final(self).failure() == old(self).failure(),
    {
        let (stage, action) = match (self.stage, event) {
            (InitStage::Start, InitEvent::Begin) => (
                InitStage::ProbingTarget,
                InitAction::ProbeTarget,
            ),
            (InitStage::ProbingTarget, InitEvent::Absent) => (
                InitStage::ProbingStaging,
                InitAction::ProbeStaging,
            ),
            (InitStage::ProbingTarget, InitEvent::Present) => {
                self.failure = Some(RepoError::AlreadyExists { path: self.target.clone() });
                (InitStage::Failed, InitAction::Fail)
            },
            (InitStage::ProbingStaging, InitEvent::Absent) => (
                InitStage::MakingStaging,
                InitAction::CreateStagingDir,
            ),
            (InitStage::ProbingStaging, InitEvent::Present) => {
                self.failure = Some(RepoError::AlreadyExists { path: self.staging.clone() });
                (InitStage::Failed, InitAction::Fail)
            },
            (InitStage::MakingStaging, InitEvent::Done) => (
                InitStage::MakingData,
                InitAction::CreateDataDir,
            ),
            (InitStage::MakingData, InitEvent::Done) => (
                InitStage::MakingLock,
                InitAction::CreateLockFile,
            ),
            (InitStage::MakingLock, InitEvent::Done) => {
                self.id = None;
                self.gc_generation = None;
                match new_random_token() {
                    Ok(id) => match new_random_token() {
                        Ok(generation) => {
                            self.id = Some(id);
                            self.gc_generation = Some(generation);
                            (InitStage::MakingCatalog, InitAction::CreateCatalog)
                        },
                        Err(e) => {
                            self.failure = Some(RepoError::Random(e));
                            (InitStage::Failed, InitAction::Fail)
                        },
                    },
                    Err(e) => {
                        self.failure = Some(RepoError::Random(e));
                        (InitStage::Failed, InitAction::Fail)
                    },
                }
            },
            (InitStage::MakingCatalog, InitEvent::Done) => (
                InitStage::Syncing,
                InitAction::SyncStagingDir,
            ),
            (InitStage::Syncing, InitEvent::Done) => (
                InitStage::Renaming,
                InitAction::RenameIntoPlace,
            ),
            (InitStage::Renaming, InitEvent::Done) => (InitStage::Done, InitAction::Finished),
            (InitStage::Done, _) => {
                self.failure = Some(RepoError::OutOfTurn);
                (InitStage::Failed, InitAction::Fail)
            },
            (InitStage::Failed, _) => {
                self.failure = Some(RepoError::OutOfTurn);
                (InitStage::Failed, InitAction::Fail)
            },
            (_, InitEvent::Failed(e)) => {
                self.failure = Some(e);
                (InitStage::Failed, InitAction::Fail)
            },
            _ => {
                self.failure = Some(RepoError::OutOfTurn);
                (InitStage::Failed, InitAction::Fail)
            },
        };
        self.stage = stage;
        action
    }

    /// How the creation ended: `Ok` only when the repository is in place.
    pub fn finish(self) -> (r: Result<(), RepoError>)
        ensures
            r is Ok <==> self.stage() is Done,
            r matches Err(e) ==> e == match self.failure() {
                Some(e) => e,
                None => RepoError::OutOfTurn,
            },
    {
        match self.stage {
            InitStage::Done => Ok(()),
            _ => match self.failure {
                Some(e) => Err(e),
                None => Err(RepoError::OutOfTurn),
            },
        }
    }
}

impl Repo {
    /// Starts the creation of a repository at `target`, to be built at
    /// `staging`, with chunks kept by `engine`. Nothing is drawn or done
    /// yet.
    pub fn init(target: String, staging: String, engine: StorageEngineSpec) -> (plan: InitPlan)
        ensures
            plan.stage() is Start,
            plan.target() == target@,
            plan.staging() == staging@,
            plan.engine() == engine,
            plan.failure() is None,
            plan.id() is None,
            plan.gc_generation() is None,
    {
        InitPlan {
            stage: InitStage::Start,
            target,
            staging,
            id: None,
            gc_generation: None,
            engine,
            failure: None,
        }
    }
}

/// The actions of a creation that goes well, in their order.
pub open spec fn init_script() -> Seq<InitAction> {
    seq![
        InitAction::ProbeTarget,
        InitAction::ProbeStaging,
        InitAction::CreateStagingDir,
        InitAction::CreateDataDir,
        InitAction::CreateLockFile,
        InitAction::CreateCatalog,
        InitAction::SyncStagingDir,
        InitAction::RenameIntoPlace,
        InitAction::Finished,
    ]
}

/// The stage reached by a run of events from the start; beside each
/// event stands whether the tokens could be drawn at that step.
pub open spec fn init_stage_after(events: Seq<(InitEvent, bool)>) -> InitStage
    decreases events.len(),
{
    if events.len() == 0 {
        InitStage::Start
    } else {
        init_next(init_stage_after(events.drop_last()), events.last().0, events.last().1).0
    }
}

/// The actions asked for in answer to a run of events from the start.
pub open spec fn init_actions(events: Seq<(InitEvent, bool)>) -> Seq<InitAction>
    decreases events.len(),
{
    if events.len() == 0 {
        Seq::empty()
    } else {
        init_actions(events.drop_last()).push(
            init_next(init_stage_after(events.drop_last()), events.last().0, events.last().1).1,
        )
    }
}

/// Number of steps that lead to a stage when all goes well.
pub open spec fn init_rank(stage: InitStage) -> int {
    match stage {
        InitStage::Start => 0,
        InitStage::ProbingTarget => 1,
        InitStage::ProbingStaging => 2,
        InitStage::MakingStaging => 3,
        InitStage::MakingData => 4,
        InitStage::MakingLock => 5,
        InitStage::MakingCatalog => 6,
        InitStage::Syncing => 7,
        InitStage::Renaming => 8,
        InitStage::Done => 9,
        InitStage::Failed => -1,
    }
}

/// All or nothing: however a creation runs, the target path is written to
/// by one action only, the renaming, and the renaming is asked for only as
/// the last step of building, after both paths were found free and each
/// step of building in the staging directory was reported done. Until then
/// every write goes to the staging directory, and once a step has failed
/// nothing more is asked for.
pub proof fn lemma_init_all_or_nothing(events: Seq<(InitEvent, bool)>)
    ensures
        init_actions(events).len() == events.len(),
        !(init_stage_after(events) is Failed) ==> events.len() == init_rank(
            init_stage_after(events),
        ),
        forall|i: int|
            0 <= i < events.len() ==> (#[trigger] init_actions(events)[i]) is Fail || (i < 9
                && init_actions(events)[i] == init_script()[i] && forall|j: int|
                0 <= j < i ==> init_actions(events)[j] == init_script()[j]),
        forall|i: int|
            0 <= i < events.len() && writes_to(#[trigger] init_actions(events)[i]) is Target ==> i
                == 7 && init_actions(events).subrange(0, 8) == init_script().subrange(0, 8),
        forall|i: int, j: int|
            0 <= i < j < events.len() && (#[trigger] init_actions(events)[i]) is Fail ==> (
            #[trigger] init_actions(events)[j]) is Fail,
    decreases events.len(),
{
    if events.len() > 0 {
        let before = events.drop_last();
        lemma_init_all_or_nothing(before);
        let stage = init_stage_after(before);
        let actions = init_actions(events);
        assert(actions.drop_last() =~= init_actions(before));
        assert forall|i: int| 0 <= i < events.len() implies (#[trigger] actions[i]) is Fail || (i
            < 9 && actions[i] == init_script()[i] && forall|j: int|
            0 <= j < i ==> actions[j] == init_script()[j]) by {
            if i < before.len() {
                assert(actions[i] == init_actions(before)[i]);
                assert forall|j: int| 0 <= j < i implies actions[j] == init_actions(before)[j] by {}
            } else if !(actions[i] is Fail) {
                assert(!(stage is Failed));
                assert forall|j: int| 0 <= j < i implies actions[j] == init_script()[j] by {
                    assert(actions[j] == init_actions(before)[j]);
                    if init_actions(before)[j] is Fail {
                        assert(init_actions(before)[i - 1] is Fail);
                        lemma_init_fail_is_final(before);
                    }
                }
            }
        }
        assert forall|i: int, j: int|
            0 <= i < j < events.len() && (#[trigger] actions[i]) is Fail implies (
        #[trigger] actions[j]) is Fail by {
            assert(actions[i] == init_actions(before)[i]);
            if j < before.len() {
                assert(actions[j] == init_actions(before)[j]);
            } else {
                if i < before.len() - 1 {
                    assert(init_actions(before)[before.len() - 1] is Fail);
                }
                lemma_init_fail_is_final(before);
            }
        }
        assert forall|i: int|
            0 <= i < events.len() && writes_to(#[trigger] actions[i]) is Target implies i == 7
            && actions.subrange(0, 8) == init_script().subrange(0, 8) by {
            assert(!(actions[i] is Fail));
            assert(actions.subrange(0, 8) =~= init_script().subrange(0, 8));
        }
    }
}

/// After an action that reports failure, the creation is in its failed stage.
pub proof fn lemma_init_fail_is_final(events: Seq<(InitEvent, bool)>)
    requires
        events.len() > 0,
        init_actions(events).last() is Fail,
    ensures
        init_stage_after(events) is Failed,
{
}

} // verus!

verus! {

/// How far a garbage collection has come.
#[derive(Debug, Clone, Copy, PartialEq, Eq, Structural)]
pub enum GcStage {
    Start,
    Rotating,
    Marking,
    Committing,
    Finished,
    Aborted,
}

/// What the caller of a garbage collection is to do next.
#[derive(Debug, Clone, Copy, PartialEq, Eq, Structural)]
pub enum GcAction {
    /// Open a transaction on the catalog and write the new generation
    /// token into it.
    RotateGeneration,
    /// Hand over the next item of the catalog, or say that there is none.
    NextItem,
    /// Commit the transaction.
    Commit,
    /// The collection is done: take the statistics.
    Finished,
    /// The collection failed: drop the transaction and report the failure.
    Abort,
}

/// What the caller of a garbage collection reports back.
pub enum GcEvent {
    Begin,
    Done,
    Item(ItemMetadata),
    EndOfItems,
    Failed(RepoError),
}

/// One garbage collection, step by step. The run holds the storage engine
/// from its start to its end: the catalog is the caller's to work on, the
/// chunks are marked and swept here.
pub struct GcRun<E: Engine> {
    open_mode: OpenMode,
    stage: GcStage,
    engine: E,
    marked: Marked,
    generation: Option<String>,
    stats: Option<GCStats>,
    failure: Option<RepoError>,
    initial: Ghost<Chunks>,
}

impl<E: Engine> GcRun<E> {
    /// How far the collection has come.
    pub closed spec fn stage(&self) -> GcStage {
        self.stage
    }

    /// The mode in which the repository was opened.
    pub closed spec fn mode(&self) -> OpenMode {
        self.open_mode
    }

    /// The engine that the run holds.
    pub closed spec fn engine(&self) -> E {
        self.engine
    }

    /// What the store held when the run began.
    pub closed spec fn initial(&self) -> Chunks {
        self.initial@
    }

    /// The addresses marked so far.
    pub closed spec fn marked(&self) -> Set<Seq<u8>> {
        self.marked@
    }

    /// The trees of the items marked so far.
    pub closed spec fn roots(&self) -> Roots {
        self.marked.roots()
    }

    /// The height at which each marked address was met first.
    pub closed spec fn level(&self) -> Map<Seq<u8>, nat> {
        self.marked.level()
    }

    /// The new generation token, once it is drawn.
    pub closed spec fn generation(&self) -> Option<String> {
        self.generation
    }

    /// What the sweep counted, once it is through.
    pub closed spec fn stats(&self) -> Option<GCStats> {
        self.stats
    }

    /// Why the run was aborted, once it is.
    pub closed spec fn failure(&self) -> Option<RepoError> {
        self.failure
    }

    /// What holds of a run at every stage: nothing is deleted before the
    /// sweep, only a run with the exclusive lock gets past its start, and
    /// a run that finished has swept the store it began with.
    pub open spec fn wf(&self) -> bool {
        &&& valid(&self.engine())
        &&& self.engine().chunks().submap_of(self.initial())
        &&& !(self.stage() is Finished || self.stage() is Aborted) ==> self.engine().chunks()
            == self.initial() && marking(
            self.initial(),
            self.roots(),
            self.marked(),
            self.level(),
        )
        &&& !(self.stage() is Start || self.stage() is Aborted) ==> self.mode() is Exclusive
        &&& self.stage() is Finished ==> self.engine().chunks() == swept(
            self.initial(),
            self.marked(),
        ) && marking(self.initial(), self.roots(), self.marked(), self.level())
    }

    /// A run that finished kept what the items need and nothing else:
    /// where no address stands at two heights in their trees, the store
    /// holds exactly those of its chunks that stand in the tree of some
    /// item, each with the content it had.
    pub proof fn lemma_finished(&self)
        requires
            self.wf(),
            self.stage() is Finished,
            leveled(self.initial(), self.roots()),
        ensures
            self.marked() == live(self.initial(), self.roots()),
            self.engine().chunks() == self.initial().restrict(live(self.initial(), self.roots())),
    {
        lemma_marked_is_live(self.initial(), self.roots(), self.marked(), self.level());
    }

    /// The generation token that the catalog is to record.
    pub fn new_generation(&self) -> (g: &Option<String>)
        ensures
            *g == self.generation(),
    {
        &self.generation
    }

    /// Takes the caller's report and says what to do next.
    pub fn step(&mut self, event: GcEvent) -> (action: GcAction)
        requires
            old(self).wf(),
        ensures
            final(self).wf(),
            final(self).mode() == old(self).mode(),
            final(self).initial() == old(self).initial(),
            final(self).engine().dependable() == old(self).engine().dependable(),
            !(old(self).stage() is Committing && event is Done) ==> final(self).engine().chunks()
                == old(self).engine().chunks(),
            !(old(self).mode() is Exclusive) ==> action is Abort && final(self).engine().chunks()
                == old(self).engine().chunks(),
            swept(old(self).engine().chunks(), old(self).marked()).submap_of(
                final(self).engine().chunks(),
            ) || !(old(self).stage() is Committing),
            !(old(self).stage() is Start && event is Begin) ==> final(self).generation()
                == old(self).generation(),
            !(old(self).stage() is Committing && event is Done) ==> final(self).stats()
                == old(self).stats(),
            action is Abort <==> final(self).stage() is Aborted,
            action is Abort ==> final(self).failure() is Some,
            !(action is Abort) ==> final(self).failure() == old(self).failure(),
            match (old(self).stage(), event) {
                (GcStage::Start, GcEvent::Begin) => if old(self).mode() is Exclusive {
                    match action {
                        GcAction::RotateGeneration => {
                            &&& final(self).stage() is Rotating
                            &&& final(self).generation() matches Some(t) && is_token(t@)
                            &&& final(self).roots() == old(self).roots()
                            &&& final(self).marked() == old(self).marked()
                        },
                        GcAction::Abort => final(self).failure() matches Some(
                            RepoError::Random(_),
                        ),
                        _ => false,
                    }
                } else {
                    final(self).failure() == Some(RepoError::GcWithoutExclusiveLock)
                },
                (GcStage::Rotating, GcEvent::Done) => {
                    &&& action is NextItem
                    &&& final(self).stage() is Marking
                    &&& final(self).roots() == old(self).roots()
                    &&& final(self).marked() == old(self).marked()
                },
                (GcStage::Marking, GcEvent::Item(metadata)) => (metadata.tree_height == 0
                    || old(self).marked().contains(metadata.address@)
                    || (old(self).engine().dependable() && complete(
                    old(self).initial(),
                    metadata.tree_height as nat,
                    metadata.address@,
                )) ==> action is NextItem) && match action {
                    GcAction::NextItem => {
                        &&& final(self).stage() is Marking
                        &&& final(self).roots() == old(self).roots().push(
                            (metadata.tree_height as nat, metadata.address@),
                        )
                    },
                    GcAction::Abort => {
                        &&& final(self).failure() matches Some(RepoError::Tree(e))
                        &&& e is CorruptNode ==> exists|h: nat, a: Seq<u8>|
                            h > 0 && #[trigger] occurs(
                                old(self).initial(),
                                metadata.tree_height as nat,
                                metadata.address@,
                                h,
                                a,
                            ) && old(self).initial().contains_key(a) && !valid_node(
                                old(self).initial()[a],
                            )
                        &&& e matches HTreeError::Storage(StorageError::NotFound) ==> exists|
                            h: nat,
                            a: Seq<u8>,
                        |
                            h > 0 && #[trigger] occurs(
                                old(self).initial(),
                                metadata.tree_height as nat,
                                metadata.address@,
                                h,
                                a,
                            ) && !old(self).initial().contains_key(a)
                    },
                    _ => false,
                },
                (GcStage::Marking, GcEvent::EndOfItems) => {
                    &&& action is Commit
                    &&& final(self).stage() is Committing
                    &&& final(self).roots() == old(self).roots()
                    &&& final(self).marked() == old(self).marked()
                },
                (GcStage::Committing, GcEvent::Done) => (old(self).engine().dependable()
                    ==> action is Finished) && match action {
                    GcAction::Finished => {
                        &&& final(self).stage() is Finished
                        &&& final(self).roots() == old(self).roots()
                        &&& final(self).marked() == old(self).marked()
                        &&& final(self).stats() matches Some(stats)
                        &&& stats.chunks_deleted == old(self).initial().dom().difference(
                            old(self).marked(),
                        ).len()
                        &&& stats.bytes_remaining == final(self).engine().stored_bytes()
                        &&& stats.bytes_freed == old(self).engine().stored_bytes()
                            - final(self).engine().stored_bytes()
                        &&& stats.bytes_remaining == total_bytes(
                            swept(old(self).initial(), old(self).marked()),
                        )
                        &&& stats.bytes_freed == total_bytes(old(self).initial()) - total_bytes(
                            swept(old(self).initial(), old(self).marked()),
                        )
                    },
                    GcAction::Abort => final(self).failure() matches Some(RepoError::Storage(_)),
                    _ => false,
                },
                (GcStage::Finished, _) => action is Abort && final(self).failure() == Some(
                    RepoError::OutOfTurn,
                ),
                (GcStage::Aborted, _) => action is Abort && final(self).failure() == Some(
                    RepoError::OutOfTurn,
                ),
                (_, GcEvent::Failed(e)) => action is Abort && final(self).failure() == Some(e),
                _ => action is Abort && final(self).failure() == Some(RepoError::OutOfTurn),
            },
    {
        match (self.stage, event) {
            (GcStage::Start, GcEvent::Begin) => {
                match self.open_mode {
                    OpenMode::Exclusive => match new_random_token() {
                        Ok(token) => {
                            self.generation = Some(token);
                            self.stage = GcStage::Rotating;
                            GcAction::RotateGeneration
                        },
                        Err(e) => self.abort(RepoError::Random(e)),
                    },
                    OpenMode::Shared => self.abort(RepoError::GcWithoutExclusiveLock),
                }
            },
            (GcStage::Rotating, GcEvent::Done) => {
                self.stage = GcStage::Marking;
                GcAction::NextItem
            },
            (GcStage::Marking, GcEvent::Item(metadata)) => {
                match self.marked.mark_tree(
                    &mut self.engine,
                    metadata.tree_height,
                    &metadata.address,
                ) {
                    Ok(()) => GcAction::NextItem,
                    Err(e) => self.abort(RepoError::Tree(e)),
                }
            },
            (GcStage::Marking, GcEvent::EndOfItems) => {
                self.stage = GcStage::Committing;
                GcAction::Commit
            },
            (GcStage::Committing, GcEvent::Done) => {
                match sweep(&mut self.engine, &self.marked) {
                    Ok(stats) => {
                        self.stats = Some(stats);
                        self.stage = GcStage::Finished;
                        GcAction::Finished
                    },
                    Err(e) => self.abort(RepoError::Storage(e)),
                }
            },
            (GcStage::Finished, _) => self.abort(RepoError::OutOfTurn),
            (GcStage::Aborted, _) => self.abort(RepoError::OutOfTurn),
            (_, GcEvent::Failed(e)) => self.abort(e),
            _ => self.abort(RepoError::OutOfTurn),
        }
    }

    fn abort(&mut self, why: RepoError) -> (action: GcAction)
        requires
            valid(&old(self).engine()),
            old(self).engine().chunks().submap_of(old(self).initial()),
        ensures
            action is Abort,
            final(self).stage() is Aborted,
            final(self).failure() == Some(why),
            final(self).wf(),
            final(self).mode() == old(self).mode(),
            final(self).initial() == old(self).initial(),
            final(self).engine() == old(self).engine(),
            final(self).generation() == old(self).generation(),
            final(self).stats() == old(self).stats(),
    {
        self.stage = GcStage::Aborted;
        self.failure = Some(why);
        GcAction::Abort
    }

    /// Ends the run: gives the engine back, with the statistics of the
    /// sweep if the run finished, or else the reason why it did not.
    pub fn finish(self) -> (r: (E, Result<GCStats, RepoError>))
        requires
            self.wf(),
        ensures
            r.0 == self.engine(),
            valid(&r.0),
            r.1 is Ok <==> self.stage() is Finished && self.stats() is Some,
            r.1 matches Ok(stats) ==> self.stats() == Some(stats),
            r.1 matches Err(e) ==> e == match self.failure() {
                Some(e) => e,
                None => RepoError::OutOfTurn,
            },
    {
        let result = match (self.stage, self.stats) {
            (GcStage::Finished, Some(stats)) => Ok(stats),
            _ => match self.failure {
                Some(e) => Err(e),
                None => Err(RepoError::OutOfTurn),
            },
        };
        (self.engine, result)
    }
}

impl Repo {
    /// Starts a garbage collection over the chunks that `engine` keeps.
    pub fn gc<E: Engine>(&self, engine: E) -> (run: GcRun<E>)
        requires
            valid(&engine),
        ensures
            run.wf(),
            run.stage() is Start,
            run.mode() == self.mode(),
            run.engine() == engine,
            run.initial() == engine.chunks(),
            run.roots() == Seq::<(nat, Seq<u8>)>::empty(),
            run.marked() == Set::<Seq<u8>>::empty(),
            run.failure() is None,
            run.stats() is None,
    {
        let ghost initial = engine.chunks();
        GcRun {
            open_mode: self.open_mode,
            stage: GcStage::Start,
            engine,
            marked: Marked::new(),
            generation: None,
            stats: None,
            failure: None,
            initial: Ghost(initial),
        }
    }
}

} // verus!

verus! {

/// Gathers the items of a catalog walk into batches, so that a walker is
/// never handed the whole catalog at once, nor an empty batch.
pub struct ItemBatcher {
    pending: Vec<Item>,
}

impl View for ItemBatcher {
    type V = Seq<Item>;

    /// The items taken in and not yet handed out.
    closed spec fn view(&self) -> Seq<Item> {
        self.pending@
    }
}

impl ItemBatcher {
    /// Takes the next item of the walk. Once more than `WALK_BATCH` items
    /// are held, all of them are handed out as one batch.
    pub fn push(&mut self, item: Item) -> (batch: Option<Vec<Item>>)
        ensures
            batch is Some <==> old(self)@.len() >= WALK_BATCH,
            batch matches Some(items) ==> items@ == old(self)@.push(item) && final(self)@
                == Seq::<Item>::empty(),
            batch is None ==> final(self)@ == old(self)@.push(item),
    {
        self.pending.push(item);
        if self.pending.len() > WALK_BATCH {
            let mut items: Vec<Item> = Vec::new();
            std::mem::swap(&mut self.pending, &mut items);
            Some(items)
        } else {
            None
        }
    }

    /// Ends the walk: hands out what is still held, if anything is.
    pub fn finish(self) -> (batch: Option<Vec<Item>>)
        ensures
            batch is Some <==> self@.len() > 0,
            batch matches Some(items) ==> items@ == self@,
    {
        if self.pending.len() > 0 {
            Some(self.pending)
        } else {
            None
        }
    }
}

impl Repo {
    /// Starts a walk over all items of the catalog.
    pub fn walk_all_items(&self) -> (batcher: ItemBatcher)
        ensures
            batcher@ == Seq::<Item>::empty(),
    {
        ItemBatcher { pending: Vec::new() }
    }

    /// The item that a lookup by `id` found, if the catalog held a row.
    pub fn lookup_item_by_id(&self, id: i64, row: Option<ItemMetadata>) -> (item: Option<Item>)
        ensures
            item == match row {
                Some(metadata) => Some(Item { id, metadata }),
                None => None,
            },
    {
        match row {
            Some(metadata) => Some(Item { id, metadata }),
            None => None,
        }
    }
}

/// The batches that a walk over `items` hands out before it ends, and the
/// items that it still holds then.
pub open spec fn walked(items: Seq<Item>) -> (Seq<Seq<Item>>, Seq<Item>)
    decreases items.len(),
{
    if items.len() == 0 {
        (Seq::empty(), Seq::empty())
    } else {
        let (batches, held) = walked(items.drop_last());
        if held.len() >= WALK_BATCH {
            (batches.push(held.push(items.last())), Seq::empty())
        } else {
            (batches, held.push(items.last()))
        }
    }
}

/// The items of a run of batches, one batch after the other.
pub open spec fn flattened(batches: Seq<Seq<Item>>) -> Seq<Item>
    decreases batches.len(),
{
    if batches.len() == 0 {
        Seq::empty()
    } else {
        flattened(batches.drop_last()) + batches.last()
    }
}

/// A walk loses nothing and hands out nothing twice: the batches handed
/// out, followed by what is still held, are the items walked over, in
/// their order. Each batch handed out before the end holds one item more
/// than `WALK_BATCH`, and never more than `WALK_BATCH` are held.
pub proof fn lemma_walk_is_whole(items: Seq<Item>)
    ensures
        flattened(walked(items).0) + walked(items).1 == items,
        walked(items).1.len() <= WALK_BATCH,
        forall|i: int|
            0 <= i < walked(items).0.len() ==> (#[trigger] walked(items).0[i]).len() == WALK_BATCH
                + 1,
    decreases items.len(),
{
    if items.len() > 0 {
        let before = items.drop_last();
        lemma_walk_is_whole(before);
        let (batches, held) = walked(before);
        assert(before.push(items.last()) =~= items);
        if held.len() >= WALK_BATCH {
            let more = batches.push(held.push(items.last()));
            assert(more.drop_last() =~= batches);
            assert(flattened(more) + Seq::<Item>::empty() =~= (flattened(batches) + held).push(
                items.last(),
            ));
            assert forall|i: int| 0 <= i < more.len() implies (#[trigger] more[i]).len()
                == WALK_BATCH + 1 by {
                if i < batches.len() {
                    assert(more[i] == batches[i]);
                }
            }
        } else {
            assert(flattened(batches) + held.push(items.last()) =~= (flattened(batches)
                + held).push(items.last()));
        }
    }
}

} // verus!
