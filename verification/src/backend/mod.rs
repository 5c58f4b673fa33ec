//! Storage backends: the error type, the backend interface and its implementations.
use crate::dag::DatasetGraphError;
use crate::dataset::{DataSetBusyStatus, MetaData, MetaDataError, MetaDataView, strings_view};
use crate::text::concat3;
use vstd::prelude::*;
use vstd::string::StringExecFns;

pub mod memory;
pub mod router;
pub mod sqlite_config;
pub mod remote;

verus! {

/// Errors of the storage backends.
#[derive(Debug)]
pub enum BackendError {
    DatasetNotFound { id: String },
    BackendNotFound,
    AlreadyExists { id: String },
    PermissionDenied { message: String },
    Unsupported { message: String },
    InvalidConfig { message: String },
    PoolError { message: String },
    SetPragma { message: String },
    StorageError { message: String },
    SerializationError { message: String },
    Io { message: String },
    MetaData { source: MetaDataError },
}

pub type BackendResult<T> = Result<T, BackendError>;

/// The coarse I/O error kind a backend error stands for.
#[derive(Debug, Clone, Copy, PartialEq, Eq, Structural)]
pub enum IoKind {
    NotFound,
    AlreadyExists,
    PermissionDenied,
    InvalidInput,
    InvalidData,
    Other,
}

/// The text of a metadata error.
pub open spec fn metadata_error_text(e: MetaDataError) -> Seq<char> {
    match e {
        MetaDataError::InvalidName(m) => "invalid metadata name: "@ + m@,
        MetaDataError::InvalidTag(m) => "invalid metadata tag: "@ + m@,
        MetaDataError::OwnerResolveFailed(m) => "failed to resolve owner: "@ + m@,
        MetaDataError::InvalidNickname(m) => "invalid owner nickname: "@ + m@,
        MetaDataError::Io(m) => "io error: "@ + m@,
    }
}

/// The text of a backend error.
pub open spec fn backend_error_text(e: BackendError) -> Seq<char> {
    match e {
        BackendError::DatasetNotFound { id } => "Dataset not found: "@ + id@,
        BackendError::BackendNotFound => "Target global backend is either unreachable or not found in config"@,
        BackendError::AlreadyExists { id } => "Dataset already exists: "@ + id@,
        BackendError::PermissionDenied { message } => "Permission denied: "@ + message@,
        BackendError::Unsupported { message } => "Unsupported operation: "@ + message@,
        BackendError::InvalidConfig { message } => "Invalid config: "@ + message@,
        BackendError::PoolError { message } => "Database pool error: "@ + message@,
        BackendError::SetPragma { message } => "Failed setting pragma: "@ + message@,
        BackendError::StorageError { message } => "Database execution failed: "@ + message@,
        BackendError::SerializationError { message } => "Data serialization or parsing failed: "@ + message@,
        BackendError::Io { message } => "Internal I/O error: "@ + message@,
        BackendError::MetaData { source } => "Metadata core error: "@ + metadata_error_text(source),
    }
}

impl MetaDataError {
    /// The human-readable text of this error.
    pub fn message(&self) -> (r: String)
        ensures
            r@ == metadata_error_text(*self),
    {
        proof {
            lemma_empty_str();
        }
        match self {
            MetaDataError::InvalidName(m) => concat3("invalid metadata name: ", m.as_str(), ""),
            MetaDataError::InvalidTag(m) => concat3("invalid metadata tag: ", m.as_str(), ""),
            MetaDataError::OwnerResolveFailed(m) => concat3("failed to resolve owner: ", m.as_str(), ""),
            MetaDataError::InvalidNickname(m) => concat3("invalid owner nickname: ", m.as_str(), ""),
            MetaDataError::Io(m) => concat3("io error: ", m.as_str(), ""),
        }
    }
}

proof fn lemma_empty_str()
    ensures
        ""@ == Seq::<char>::empty(),
{
    reveal_strlit("");
}

impl BackendError {
    /// The human-readable text of this error.
    pub fn message(&self) -> (r: String)
        ensures
            r@ == backend_error_text(*self),
    {
        proof {
            lemma_empty_str();
        }
        let r = match self {
            BackendError::DatasetNotFound { id } => concat3("Dataset not found: ", id.as_str(), ""),
            BackendError::BackendNotFound => String::from_str("Target global backend is either unreachable or not found in config"),
            BackendError::AlreadyExists { id } => concat3("Dataset already exists: ", id.as_str(), ""),
            BackendError::PermissionDenied { message } => concat3("Permission denied: ", message.as_str(), ""),
            BackendError::Unsupported { message } => concat3("Unsupported operation: ", message.as_str(), ""),
            BackendError::InvalidConfig { message } => concat3("Invalid config: ", message.as_str(), ""),
            BackendError::PoolError { message } => concat3("Database pool error: ", message.as_str(), ""),
            BackendError::SetPragma { message } => concat3("Failed setting pragma: ", message.as_str(), ""),
            BackendError::StorageError { message } => concat3("Database execution failed: ", message.as_str(), ""),
            BackendError::SerializationError { message } => concat3("Data serialization or parsing failed: ", message.as_str(), ""),
            BackendError::Io { message } => concat3("Internal I/O error: ", message.as_str(), ""),
            BackendError::MetaData { source } => {
                let m = source.message();
                concat3("Metadata core error: ", m.as_str(), "")
            },
        };
        r
    }

    /// The I/O error kind this error is reported as.
    pub open spec fn to_io_kind_spec(&self) -> IoKind {
        match *self {
            BackendError::DatasetNotFound { .. } => IoKind::NotFound,
            BackendError::BackendNotFound => IoKind::NotFound,
            BackendError::AlreadyExists { .. } => IoKind::AlreadyExists,
            BackendError::PermissionDenied { .. } => IoKind::PermissionDenied,
            _ => IoKind::Other,
        }
    }

    /// The I/O error kind this error is reported as.
    pub fn to_io_kind(&self) -> (k: IoKind)
        ensures
            k == self.to_io_kind_spec(),
    {
        match self {
            BackendError::DatasetNotFound { .. } => IoKind::NotFound,
            BackendError::BackendNotFound => IoKind::NotFound,
            BackendError::AlreadyExists { .. } => IoKind::AlreadyExists,
            BackendError::PermissionDenied { .. } => IoKind::PermissionDenied,
            _ => IoKind::Other,
        }
    }

    /// The I/O error this backend error is reported as: its kind and its text. A wrapped I/O
    /// error keeps its own text.
    pub fn to_io_error(self) -> (r: (IoKind, String))
        ensures
            r.0 == self.to_io_kind_spec(),
            r.1@ == match self {
                BackendError::Io { message } => message@,
                _ => backend_error_text(self),
            },
    {
        let k = self.to_io_kind();
        match self {
            BackendError::Io { message } => (k, message),
            other => (k, other.message()),
        }
    }

    /// The metadata error this backend error stands for: a wrapped metadata error is
    /// unwrapped, any other error becomes an I/O error with this error's text.
    pub fn to_metadata_error(self) -> (r: MetaDataError)
        ensures
            match self {
                BackendError::MetaData { source } => r == source,
                _ => r matches MetaDataError::Io(m) && m@ == backend_error_text(self),
            },
    {
        match self {
            BackendError::MetaData { source } => source,
            other => MetaDataError::Io(other.message()),
        }
    }

    /// The graph error this backend error stands for: a missing dataset stays missing, a
    /// wrapped metadata I/O error keeps its text, anything else becomes an I/O error.
    pub fn to_dag_error(self) -> (r: DatasetGraphError)
        ensures
            match self {
                BackendError::DatasetNotFound { id } => r matches DatasetGraphError::DatasetNotFound { node_id } && node_id@ == id@,
                BackendError::MetaData { source: MetaDataError::Io(m) } => r matches DatasetGraphError::Io(k, t) && k == IoKind::Other && t@ == m@,
                BackendError::MetaData { source } => r matches DatasetGraphError::Io(k, t) && k == IoKind::InvalidData && t@ == metadata_error_text(source),
                BackendError::Io { message } => r matches DatasetGraphError::Io(k, t) && k == IoKind::Other && t@ == message@,
                _ => r matches DatasetGraphError::Io(k, t) && k == self.to_io_kind_spec() && t@ == backend_error_text(self),
            },
    {
        match self {
            BackendError::DatasetNotFound { id } => DatasetGraphError::DatasetNotFound { node_id: id },
            BackendError::MetaData { source } => {
                match source {
                    MetaDataError::Io(m) => DatasetGraphError::Io(IoKind::Other, m),
                    other => DatasetGraphError::Io(IoKind::InvalidData, other.message()),
                }
            },
            BackendError::Io { message } => DatasetGraphError::Io(IoKind::Other, message),
            other => {
                let k = other.to_io_kind();
                DatasetGraphError::Io(k, other.message())
            },
        }
    }
}

/// A listing holds each stored dataset once, as stored.
pub open spec fn listing_matches(v: Seq<MetaData>, contents: Map<Seq<char>, MetaDataView>) -> bool {
    &&& forall|i: int| 0 <= i < v.len() ==> contents.contains_key(#[trigger] v[i]@.spec_id()) && contents[v[i]@.spec_id()] == v[i]@
    &&& forall|k: Seq<char>| #[trigger] contents.contains_key(k) ==> exists|i: int| 0 <= i < v.len() && v[i]@.spec_id() == k
    &&& forall|i: int, j: int| 0 <= i < j < v.len() ==> v[i]@.spec_id() != v[j]@.spec_id()
}

/// A store of dataset metadata keyed by dataset id.
///
/// `contents` is the store's state: the metadata of each dataset, by id. Every method
/// states what it does to that state and what it returns; a method may also fail for a
/// reason of its own (storage or I/O), in which case the state is left as it was.
pub trait DatasetBackend {
    spec fn contents(&self) -> Map<Seq<char>, MetaDataView>;

    /// The ids of the datasets that this store reports as depending on `target`; for a store
    /// that never fails, exactly the stored datasets listing `target`, each once (see
    /// `check_is_referenced`).
    spec fn referrers(&self, target: Seq<char>) -> Seq<Seq<char>>;

    /// This store never fails for a reason of its own: each method answers as its contract
    /// says a store that holds `contents` answers.
    spec fn reliable(&self) -> bool;

    /// A store keys each dataset by its id.
    proof fn lemma_keys_are_ids(&self)
        ensures
            forall|k: Seq<char>| #[trigger] self.contents().contains_key(k) ==> self.contents()[k].spec_id() == k,
    ;

    /// A store holds finitely many datasets.
    proof fn lemma_contents_finite(&self)
        ensures
            self.contents().dom().finite(),
    ;

    /// Retrieves the metadata of a dataset by its id.
    fn get_metadata(&self, id: &str) -> (r: BackendResult<MetaData>)
        ensures
            r matches Ok(m) ==> self.contents().contains_key(id@) && self.contents()[id@] == m@,
            r matches Err(BackendError::DatasetNotFound { .. }) ==> !self.contents().contains_key(id@),
            self.reliable() ==> (r is Ok <==> self.contents().contains_key(id@)) && (r is Err ==> r->Err_0 is DatasetNotFound),
    ;

    /// Records the busy status of a stored dataset.
    fn mark_status(&mut self, id: &str, status: DataSetBusyStatus) -> (r: BackendResult<()>)
        ensures
            r is Ok ==> old(self).contents().contains_key(id@) && final(self).contents() == old(self).contents().insert(id@, MetaDataView { busy_status: status, ..old(self).contents()[id@] }),
            r matches Err(BackendError::DatasetNotFound { .. }) ==> !old(self).contents().contains_key(id@),
            r is Err ==> final(self).contents() == old(self).contents(),
            old(self).reliable() ==> (r is Ok <==> old(self).contents().contains_key(id@)) && (r is Err ==> r->Err_0 is DatasetNotFound),
            final(self).reliable() == old(self).reliable(),
    ;

    /// Saves or replaces the metadata of a dataset, under its id.
    fn save_metadata(&mut self, metadata: &MetaData) -> (r: BackendResult<()>)
        ensures
            r is Ok ==> final(self).contents() == old(self).contents().insert(metadata@.spec_id(), metadata@),
            r is Err ==> final(self).contents() == old(self).contents(),
            old(self).reliable() ==> r is Ok,
            final(self).reliable() == old(self).reliable(),
    ;

    /// The ids of the datasets that depend on `target_id`.
    fn check_is_referenced(&self, target_id: &str) -> (r: BackendResult<Vec<String>>)
        ensures
            r matches Ok(v) ==> strings_view(v@) == self.referrers(target_id@),
            self.reliable() ==> r is Ok,
            self.reliable() ==> self.referrers(target_id@).no_duplicates()
                && forall|k: Seq<char>| #[trigger] self.referrers(target_id@).contains(k)
                    <==> (self.contents().contains_key(k) && self.contents()[k].dependencies.contains(target_id@)),
    ;

    /// Every stored dataset.
    fn list_all_metadata(&self) -> (r: BackendResult<Vec<MetaData>>)
        ensures
            r matches Ok(v) ==> listing_matches(v@, self.contents()),
            self.reliable() ==> r is Ok,
    ;

    /// Removes the metadata of a dataset; its data on disk is left alone.
    fn delete_metadata(&mut self, id: &str) -> (r: BackendResult<()>)
        ensures
            r is Ok ==> old(self).contents().contains_key(id@) && final(self).contents() == old(self).contents().remove(id@),
            r matches Err(BackendError::DatasetNotFound { .. }) ==> !old(self).contents().contains_key(id@),
            r is Err ==> final(self).contents() == old(self).contents(),
            old(self).reliable() ==> (r is Ok <==> old(self).contents().contains_key(id@)) && (r is Err ==> r->Err_0 is DatasetNotFound),
            final(self).reliable() == old(self).reliable(),
    ;
}

} // verus!
