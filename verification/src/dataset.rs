//! Dataset metadata, statuses, and the single-dataset verification rule.
use crate::text::{chars_of, concat3, contains_char, str_eq, trim_back, trim_front, trim_string, trim_ws};
use crate::utils::os_username;
use crate::backend::{DatasetBackend, IoKind};
use vstd::prelude::*;
use vstd::string::StringExecFns;

verus! {

/// Errors raised while building or validating dataset metadata.
#[derive(Debug)]
pub enum MetaDataError {
    InvalidName(String),
    InvalidTag(String),
    OwnerResolveFailed(String),
    InvalidNickname(String),
    Io(String),
}

/// Whether a dataset is currently held by some operation.
#[derive(Clone, Copy, Debug, PartialEq, Eq, Structural)]
pub enum DataSetBusyStatus {
    Free,
    Reading,
    Modifying,
    Deleting,
    Creating,
}

/// The verification verdict of a dataset.
#[derive(Clone, Copy, Debug, PartialEq, Eq, Structural)]
pub enum DataSetStatus {
    Healthy,
    Broken,
    BrokenDeps,
    Unverified,
    Busy(DataSetBusyStatus),
}

/// Registered metadata of a dataset. `name@tag` is its id.
#[derive(Debug)]
pub struct MetaData {
    pub name: String,
    pub tag: String,
    pub hash: String,
    pub path: String,
    pub description_path: String,
    pub script_path: String,
    pub owner: String,
    pub dependencies: Vec<String>,
    pub merkle_tree_path: String,
    pub busy_status: DataSetBusyStatus,
}

/// A verdict together with the verdicts of the direct dependencies it was computed from.
#[derive(Debug)]
pub struct DataSetVerifyRes {
    pub status: DataSetStatus,
    pub dep_status: Vec<DataSetStatus>,
}

/// The value of a `MetaData`, over views.
pub struct MetaDataView {
    pub name: Seq<char>,
    pub tag: Seq<char>,
    pub hash: Seq<char>,
    pub path: Seq<char>,
    pub description_path: Seq<char>,
    pub script_path: Seq<char>,
    pub owner: Seq<char>,
    pub dependencies: Seq<Seq<char>>,
    pub merkle_tree_path: Seq<char>,
    pub busy_status: DataSetBusyStatus,
}

impl MetaDataView {
    /// `name@tag`.
    pub open spec fn spec_id(self) -> Seq<char> {
        id_of(self.name, self.tag)
    }
}

/// The views of a list of strings.
pub open spec fn strings_view(v: Seq<String>) -> Seq<Seq<char>> {
    v.map_values(|s: String| s@)
}

impl View for MetaData {
    type V = MetaDataView;

    open spec fn view(&self) -> MetaDataView {
        MetaDataView {
            name: self.name@,
            tag: self.tag@,
            hash: self.hash@,
            path: self.path@,
            description_path: self.description_path@,
            script_path: self.script_path@,
            owner: self.owner@,
            dependencies: strings_view(self.dependencies@),
            merkle_tree_path: self.merkle_tree_path@,
            busy_status: self.busy_status,
        }
    }
}

/// The value of a `DataSetVerifyRes`.
pub struct VerifyResView {
    pub status: DataSetStatus,
    pub dep_status: Seq<DataSetStatus>,
}

impl View for DataSetVerifyRes {
    type V = VerifyResView;

    open spec fn view(&self) -> VerifyResView {
        VerifyResView { status: self.status, dep_status: self.dep_status@ }
    }
}

/// The value of a `DSFDataSet`.
pub struct DataSetView {
    pub metadata: MetaDataView,
    pub detailed_status: VerifyResView,
}

impl View for DSFDataSet {
    type V = DataSetView;

    open spec fn view(&self) -> DataSetView {
        DataSetView { metadata: self.metadata@, detailed_status: self.detailed_status@ }
    }
}

/// Runtime dataset: metadata and the last verification result.
#[derive(Debug)]
pub struct DSFDataSet {
    pub metadata: MetaData,
    pub detailed_status: DataSetVerifyRes,
}

/// Why a dataset's recorded hash may not be refreshed.
#[derive(Debug, Clone, Copy, PartialEq, Eq, Structural)]
pub enum RefreshError {
    /// The dataset is held by an operation other than reading.
    ResourceBusy(DataSetBusyStatus),
}

/// The id of a dataset with the given name and tag.
pub open spec fn id_of(name: Seq<char>, tag: Seq<char>) -> Seq<char> {
    name + seq!['@'] + tag
}

/// Copies of a list of strings.
pub fn clone_strings(v: &Vec<String>) -> (r: Vec<String>)
    ensures
        r@ == v@,
{
    let mut r: Vec<String> = Vec::new();
    let mut i: usize = 0;
    while i < v.len()
        invariant
            i <= v@.len(),
            r@ == v@.subrange(0, i as int),
        decreases v@.len() - i,
    {
        r.push(v[i].clone());
        i = i + 1;
        assert(r@ =~= v@.subrange(0, i as int));
    }
    assert(v@.subrange(0, v@.len() as int) =~= v@);
    r
}

pub fn clone_statuses(v: &[DataSetStatus]) -> (r: Vec<DataSetStatus>)
    ensures
        r@ == v@,
{
    let mut r: Vec<DataSetStatus> = Vec::new();
    let mut i: usize = 0;
    while i < v.len()
        invariant
            i <= v@.len(),
            r@ == v@.subrange(0, i as int),
        decreases v@.len() - i,
    {
        r.push(v[i]);
        i = i + 1;
        assert(r@ =~= v@.subrange(0, i as int));
    }
    assert(v@.subrange(0, v@.len() as int) =~= v@);
    r
}

impl Clone for MetaData {
    fn clone(&self) -> (r: Self)
        ensures
            r@ == self@,
    {
        MetaData {
            name: self.name.clone(),
            tag: self.tag.clone(),
            hash: self.hash.clone(),
            path: self.path.clone(),
            description_path: self.description_path.clone(),
            script_path: self.script_path.clone(),
            owner: self.owner.clone(),
            dependencies: clone_strings(&self.dependencies),
            merkle_tree_path: self.merkle_tree_path.clone(),
            busy_status: self.busy_status,
        }
    }
}

impl Clone for DataSetVerifyRes {
    fn clone(&self) -> (r: Self)
        ensures
            r@ == self@,
    {
        DataSetVerifyRes { status: self.status, dep_status: clone_statuses(self.dep_status.as_slice()) }
    }
}

impl Clone for DSFDataSet {
    fn clone(&self) -> (r: Self)
        ensures
            r@ == self@,
    {
        DSFDataSet { metadata: self.metadata.clone(), detailed_status: self.detailed_status.clone() }
    }
}

/// The lowercase name of a busy status.
pub open spec fn busy_text(b: DataSetBusyStatus) -> Seq<char> {
    match b {
        DataSetBusyStatus::Free => "free"@,
        DataSetBusyStatus::Reading => "reading"@,
        DataSetBusyStatus::Modifying => "modifying"@,
        DataSetBusyStatus::Deleting => "deleting"@,
        DataSetBusyStatus::Creating => "creating"@,
    }
}

/// The name of a busy status read back, if it is one.
pub open spec fn parse_busy(s: Seq<char>) -> Option<DataSetBusyStatus> {
    if s == "free"@ {
        Some(DataSetBusyStatus::Free)
    } else if s == "reading"@ {
        Some(DataSetBusyStatus::Reading)
    } else if s == "modifying"@ {
        Some(DataSetBusyStatus::Modifying)
    } else if s == "deleting"@ {
        Some(DataSetBusyStatus::Deleting)
    } else if s == "creating"@ {
        Some(DataSetBusyStatus::Creating)
    } else {
        None
    }
}

/// Free and Reading let a dataset be checked and refreshed; the other statuses fence it.
pub open spec fn spec_is_open(b: DataSetBusyStatus) -> bool {
    b == DataSetBusyStatus::Free || b == DataSetBusyStatus::Reading
}

impl std::str::FromStr for DataSetBusyStatus {
    type Err = ();

    /// `str::parse` for a status: its lowercase name (see `parse`).
    fn from_str(s: &str) -> (r: Result<Self, ()>)
        ensures
            r == match parse_busy(s@) {
                Some(b) => Ok::<DataSetBusyStatus, ()>(b),
                None => Err(()),
            },
    {
        match DataSetBusyStatus::parse(s) {
            Some(b) => Ok(b),
            None => Err(()),
        }
    }
}

impl DataSetBusyStatus {
    pub fn as_str(&self) -> (s: &'static str)
        ensures
            s@ == busy_text(*self),
    {
        match self {
            DataSetBusyStatus::Free => "free",
            DataSetBusyStatus::Reading => "reading",
            DataSetBusyStatus::Modifying => "modifying",
            DataSetBusyStatus::Deleting => "deleting",
            DataSetBusyStatus::Creating => "creating",
        }
    }

    /// Reads a status back from its lowercase name.
    pub fn parse(s: &str) -> (r: Option<DataSetBusyStatus>)
        ensures
            r == parse_busy(s@),
    {
        if str_eq(s, "free") {
            Some(DataSetBusyStatus::Free)
        } else if str_eq(s, "reading") {
            Some(DataSetBusyStatus::Reading)
        } else if str_eq(s, "modifying") {
            Some(DataSetBusyStatus::Modifying)
        } else if str_eq(s, "deleting") {
            Some(DataSetBusyStatus::Deleting)
        } else if str_eq(s, "creating") {
            Some(DataSetBusyStatus::Creating)
        } else {
            None
        }
    }

    /// Whether the dataset may be checked against its recorded hash and refreshed.
    pub fn is_open(&self) -> (r: bool)
        ensures
            r == spec_is_open(*self),
    {
        match self {
            DataSetBusyStatus::Free | DataSetBusyStatus::Reading => true,
            _ => false,
        }
    }
}

/// The name of a verdict.
pub open spec fn status_text(s: DataSetStatus) -> Seq<char> {
    match s {
        DataSetStatus::Healthy => "healthy"@,
        DataSetStatus::Broken => "broken"@,
        DataSetStatus::BrokenDeps => "broken_deps"@,
        DataSetStatus::Unverified => "unverified"@,
        DataSetStatus::Busy(DataSetBusyStatus::Free) => "free"@,
        DataSetStatus::Busy(DataSetBusyStatus::Reading) => "busy_reading"@,
        DataSetStatus::Busy(DataSetBusyStatus::Modifying) => "busy_modifying"@,
        DataSetStatus::Busy(DataSetBusyStatus::Deleting) => "busy_deleting"@,
        DataSetStatus::Busy(DataSetBusyStatus::Creating) => "busy_creating"@,
    }
}

impl DataSetStatus {
    pub fn as_str(&self) -> (s: &'static str)
        ensures
            s@ == status_text(*self),
    {
        match self {
            DataSetStatus::Healthy => "healthy",
            DataSetStatus::Broken => "broken",
            DataSetStatus::BrokenDeps => "broken_deps",
            DataSetStatus::Unverified => "unverified",
            DataSetStatus::Busy(DataSetBusyStatus::Free) => "free",
            DataSetStatus::Busy(DataSetBusyStatus::Reading) => "busy_reading",
            DataSetStatus::Busy(DataSetBusyStatus::Modifying) => "busy_modifying",
            DataSetStatus::Busy(DataSetBusyStatus::Deleting) => "busy_deleting",
            DataSetStatus::Busy(DataSetBusyStatus::Creating) => "busy_creating",
        }
    }
}

impl MetaData {
    pub open spec fn spec_id(self) -> Seq<char> {
        id_of(self.name@, self.tag@)
    }

    /// `name@tag`.
    pub fn id(&self) -> (r: String)
        ensures
            r@ == self.spec_id(),
    {
        proof {
            reveal_strlit("@");
        }
        concat3(self.name.as_str(), "@", self.tag.as_str())
    }

    /// Rejects a name or tag that holds `@`; the name is checked first.
    pub fn check_name_tag(name: &str, tag: &str) -> (r: Result<(), MetaDataError>)
        ensures
            r is Ok <==> (!name@.contains('@') && !tag@.contains('@')),
            r matches Err(MetaDataError::InvalidName(m)) ==> name@.contains('@') && m@
                == "name must not contain '@'"@,
            r matches Err(MetaDataError::InvalidTag(m)) ==> !name@.contains('@') && tag@.contains(
                '@',
            ) && m@ == "tag must not contain '@'"@,
            r is Err ==> (r->Err_0 is InvalidName || r->Err_0 is InvalidTag),
    {
        if contains_char(name, '@') {
            return Err(MetaDataError::InvalidName(String::from_str("name must not contain '@'")));
        }
        if contains_char(tag, '@') {
            return Err(MetaDataError::InvalidTag(String::from_str("tag must not contain '@'")));
        }
        Ok(())
    }

    /// Builds metadata from parts that have been computed from disk: the content hash, the
    /// description path (given, or the default one) and the Merkle tree file path. The owner
    /// is the OS user, with the nickname appended (see `merge_owner_with_user`).
    pub fn new(
        name: &str,
        tag: &str,
        hash: String,
        path: String,
        description_path: String,
        script_path: String,
        owner_nickname: Option<String>,
        dependencies: Vec<String>,
        merkle_tree_path: String,
        busy_status: DataSetBusyStatus,
    ) -> (r: Result<Self, MetaDataError>)
        ensures
            (!name@.contains('@') && !tag@.contains('@')) ==> (r is Err ==> (r->Err_0 is OwnerResolveFailed || r->Err_0 is InvalidNickname)),
            name@.contains('@') ==> r matches Err(MetaDataError::InvalidName(_)),
            !name@.contains('@') && tag@.contains('@') ==> r matches Err(MetaDataError::InvalidTag(_)),
            r matches Ok(m) ==> {
                &&& m.name@ == name@
                &&& m.tag@ == tag@
                &&& m.hash@ == hash@
                &&& m.path@ == path@
                &&& m.description_path@ == description_path@
                &&& m.script_path@ == script_path@
                &&& m.dependencies@ == dependencies@
                &&& m.merkle_tree_path@ == merkle_tree_path@
                &&& m.busy_status == busy_status
                &&& exists|user: String| #[trigger] merge_owner_spec(Ok(user), owner_nickname_view(owner_nickname)) == Ok::<Seq<char>, MetaDataError>(m.owner@)
            },
    {
        let user = os_username();
        let ghost gu = user;
        let r = Self::new_with_user(name, tag, hash, path, description_path, script_path, owner_nickname, dependencies, merkle_tree_path, busy_status, user);
        proof {
            if r is Ok {
                assert(merge_owner_spec(Ok(gu->Ok_0), owner_nickname_view(owner_nickname)) == Ok::<Seq<char>, MetaDataError>(r->Ok_0.owner@));
            }
        }
        r
    }

    /// Builds the metadata of a dataset as `new` does, with the OS user name given.
    pub fn new_with_user(
        name: &str,
        tag: &str,
        hash: String,
        path: String,
        description_path: String,
        script_path: String,
        owner_nickname: Option<String>,
        dependencies: Vec<String>,
        merkle_tree_path: String,
        busy_status: DataSetBusyStatus,
        user: Result<String, String>,
    ) -> (r: Result<Self, MetaDataError>)
        ensures
            (!name@.contains('@') && !tag@.contains('@')) ==> (r is Err <==> merge_owner_spec(user, owner_nickname_view(owner_nickname)) is Err),
            (!name@.contains('@') && !tag@.contains('@')) ==> (r is Err ==> (r->Err_0 is OwnerResolveFailed || r->Err_0 is InvalidNickname)),
            name@.contains('@') ==> r matches Err(MetaDataError::InvalidName(_)),
            !name@.contains('@') && tag@.contains('@') ==> r matches Err(MetaDataError::InvalidTag(_)),
            r matches Ok(m) ==> {
                &&& m.name@ == name@
                &&& m.tag@ == tag@
                &&& m.hash@ == hash@
                &&& m.path@ == path@
                &&& m.description_path@ == description_path@
                &&& m.script_path@ == script_path@
                &&& m.dependencies@ == dependencies@
                &&& m.merkle_tree_path@ == merkle_tree_path@
                &&& m.busy_status == busy_status
                &&& merge_owner_spec(user, owner_nickname_view(owner_nickname)) == Ok::<Seq<char>, MetaDataError>(m.owner@)
            },
    {
        Self::check_name_tag(name, tag)?;
        let owner = merge_owner_with_user(user, owner_nickname)?;
        Ok(MetaData {
            name: String::from_str(name),
            tag: String::from_str(tag),
            hash,
            path,
            description_path,
            script_path,
            owner,
            dependencies,
            merkle_tree_path,
            busy_status,
        })
    }

    /// The owner string: the OS user name, then `$` and the nickname when one is given.
    pub fn merge_owner_name(nickname: Option<String>) -> (r: Result<String, MetaDataError>)
        ensures
            r matches Ok(o) ==> exists|user: String| #[trigger] merge_owner_spec(Ok(user), owner_nickname_view(nickname)) == Ok::<Seq<char>, MetaDataError>(o@),
            r matches Err(e) ==> (e is OwnerResolveFailed || e is InvalidNickname),
    {
        let user = os_username();
        let ghost gu = user;
        let ghost gn = nickname;
        let r = merge_owner_with_user(user, nickname);
        match r {
            Ok(o) => {
                assert(merge_owner_spec(Ok(gu->Ok_0), owner_nickname_view(gn)) == Ok::<Seq<char>, MetaDataError>(o@));
                Ok(o)
            },
            Err(e) => Err(e),
        }
    }
}

pub open spec fn owner_nickname_view(n: Option<String>) -> Option<Seq<char>> {
    match n {
        Some(s) => Some(s@),
        None => None,
    }
}

/// An owner nickname character: ASCII letter or digit, `.`, `_` or `-`.
pub open spec fn is_nick_char(c: char) -> bool {
    ||| ('a' <= c && c <= 'z')
    ||| ('A' <= c && c <= 'Z')
    ||| ('0' <= c && c <= '9')
    ||| c == '.'
    ||| c == '_'
    ||| c == '-'
}

/// Every character of the nickname is a nickname character.
pub open spec fn all_nick_chars(nick: Seq<char>) -> bool {
    forall|k: int| 0 <= k < nick.len() ==> is_nick_char(#[trigger] nick[k])
}

/// The owner rule over views: on `Ok` it is the owner string, on `Err` the kind of error
/// (the error's payload is not part of the rule).
pub open spec fn merge_owner_spec(user: Result<String, String>, nickname: Option<Seq<char>>) -> Result<Seq<char>, MetaDataError> {
    match user {
        Err(m) => Err(MetaDataError::OwnerResolveFailed(m)),
        Ok(u) => {
            let user_t = trim_ws(u@);
            let nick = trim_ws(
                match nickname {
                    Some(n) => n,
                    None => Seq::empty(),
                },
            );
            if user_t.len() == 0 {
                Err(MetaDataError::OwnerResolveFailed(u))
            } else if nick.len() == 0 {
                Ok(user_t)
            } else if nick.contains('$') {
                Err(MetaDataError::InvalidNickname(u))
            } else if !all_nick_chars(nick) {
                Err(MetaDataError::InvalidNickname(u))
            } else if nick.len() > 32 {
                Err(MetaDataError::InvalidNickname(u))
            } else {
                Ok(user_t + seq!['$'] + nick)
            }
        },
    }
}

/// The error kind of a result of the owner rule.
pub open spec fn same_outcome(r: Result<String, MetaDataError>, s: Result<Seq<char>, MetaDataError>) -> bool {
    match (r, s) {
        (Ok(a), Ok(b)) => a@ == b,
        (Err(MetaDataError::OwnerResolveFailed(_)), Err(MetaDataError::OwnerResolveFailed(_))) => true,
        (Err(MetaDataError::InvalidNickname(_)), Err(MetaDataError::InvalidNickname(_))) => true,
        _ => false,
    }
}

fn is_nick_char_exec(c: char) -> (r: bool)
    ensures
        r == is_nick_char(c),
{
    ('a' <= c && c <= 'z') || ('A' <= c && c <= 'Z') || ('0' <= c && c <= '9') || c == '.' || c
        == '_' || c == '-'
}

/// The message for a nickname the owner rule refuses, by the first rule it breaks: it holds
/// `$`, then a character outside `[a-zA-Z0-9._-]`, then more than 32 characters.
pub open spec fn nickname_message(nick: Seq<char>) -> Seq<char> {
    if nick.contains('$') {
        "nickname must not contain '$'"@
    } else if !all_nick_chars(nick) {
        "nickname can only contain [a-zA-Z0-9._-]"@
    } else {
        "nickname length must be <= 32"@
    }
}

/// The owner rule, applied to the result of looking up the OS user name.
pub fn merge_owner_with_user(user: Result<String, String>, nickname: Option<String>) -> (r: Result<String, MetaDataError>)
    ensures
        same_outcome(r, merge_owner_spec(user, owner_nickname_view(nickname))),
        r matches Err(MetaDataError::OwnerResolveFailed(m)) ==> (user is Ok ==> m@ == "OS username is empty"@),
        r matches Err(MetaDataError::InvalidNickname(m)) ==> m@ == nickname_message(trim_ws(
            match owner_nickname_view(nickname) {
                Some(n) => n,
                None => Seq::empty(),
            },
        )),
{
    let linux_user = match user {
        Ok(u) => u,
        Err(m) => {
            let msg = concat3("OS username unavailable: ", m.as_str(), "");
            return Err(MetaDataError::OwnerResolveFailed(msg));
        },
    };
    let user_t = trim_string(linux_user.as_str());
    if chars_of(user_t.as_str()).len() == 0 {
        return Err(MetaDataError::OwnerResolveFailed(String::from_str("OS username is empty")));
    }
    let nick = match nickname {
        Some(n) => trim_string(n.as_str()),
        None => {
            let e = String::new();
            proof {
                assert(trim_front(Seq::<char>::empty()) =~= Seq::<char>::empty());
                assert(trim_back(Seq::<char>::empty()) =~= Seq::<char>::empty());
            }
            e
        },
    };
    let ghost sn = trim_ws(
        match owner_nickname_view(nickname) {
            Some(n) => n,
            None => Seq::empty(),
        },
    );
    assert(sn == nick@);
    let chars = chars_of(nick.as_str());
    if chars.len() == 0 {
        return Ok(user_t);
    }
    if contains_char(nick.as_str(), '$') {
        return Err(
            MetaDataError::InvalidNickname(String::from_str("nickname must not contain '$'")),
        );
    }
    let mut i: usize = 0;
    #[verifier::loop_isolation(false)]
    while i < chars.len()
        invariant
            chars@ == nick@,
            i <= chars@.len(),
            forall|k: int| 0 <= k < i ==> is_nick_char(#[trigger] chars@[k]),
        decreases chars@.len() - i,
    {
        if !is_nick_char_exec(chars[i]) {
            assert(!is_nick_char(sn[i as int]));
            assert(!all_nick_chars(sn));
            return Err(
                MetaDataError::InvalidNickname(
                    String::from_str("nickname can only contain [a-zA-Z0-9._-]"),
                ),
            );
        }
        i = i + 1;
    }
    if chars.len() > 32 {
        return Err(
            MetaDataError::InvalidNickname(String::from_str("nickname length must be <= 32")),
        );
    }
    proof {
        reveal_strlit("$");
    }
    assert(forall|k: int| 0 <= k < nick@.len() ==> is_nick_char(#[trigger] nick@[k]));
    assert(!nick@.contains('$'));
    let out = concat3(user_t.as_str(), "$", nick.as_str());
    assert(out@ == user_t@ + seq!['$'] + nick@);
    Ok(out)
}

/// What `verify_single` decides, over views: a fenced dataset reports its busy status;
/// otherwise it is Healthy when the hash matches and every dependency is Healthy, Broken
/// when the hash differs, and BrokenDeps when only a dependency is not Healthy.
pub open spec fn single_status(meta: MetaDataView, current_hash: Seq<char>, deps: Seq<DataSetStatus>) -> DataSetStatus {
    if !spec_is_open(meta.busy_status) {
        DataSetStatus::Busy(meta.busy_status)
    } else if current_hash == meta.hash && (forall|k: int| 0 <= k < deps.len() ==> #[trigger] deps[k] == DataSetStatus::Healthy) {
        DataSetStatus::Healthy
    } else if current_hash != meta.hash {
        DataSetStatus::Broken
    } else {
        DataSetStatus::BrokenDeps
    }
}

fn all_healthy(deps: &[DataSetStatus]) -> (r: bool)
    ensures
        r == (forall|k: int| 0 <= k < deps@.len() ==> #[trigger] deps@[k] == DataSetStatus::Healthy),
{
    let mut i: usize = 0;
    while i < deps.len()
        invariant
            i <= deps@.len(),
            forall|k: int| 0 <= k < i ==> #[trigger] deps@[k] == DataSetStatus::Healthy,
        decreases deps@.len() - i,
    {
        if deps[i] != DataSetStatus::Healthy {
            return false;
        }
        i = i + 1;
    }
    true
}

impl DSFDataSet {
    /// A dataset that has not been verified yet.
    pub fn unverified(metadata: MetaData) -> (r: Self)
        ensures
            r.metadata@ == metadata@,
            r.detailed_status.status == DataSetStatus::Unverified,
            r.detailed_status.dep_status@.len() == 0,
    {
        DSFDataSet {
            metadata,
            detailed_status: DataSetVerifyRes { status: DataSetStatus::Unverified, dep_status: Vec::new() },
        }
    }

    /// Loads the dataset stored under `id`, not yet verified; a failure is reported as the
    /// I/O error the store's error stands for.
    pub fn load_from_id<B: DatasetBackend>(id: &str, backend: &B) -> (r: Result<Self, (IoKind, String)>)
        ensures
            r matches Ok(d) ==> backend.contents().contains_key(id@) && d.metadata@ == backend.contents()[id@]
                && d.detailed_status.status == DataSetStatus::Unverified && d.detailed_status.dep_status@.len() == 0,
            !backend.contents().contains_key(id@) ==> r is Err,
            backend.reliable() ==> (r is Ok <==> backend.contents().contains_key(id@)),
            backend.reliable() ==> (r matches Err((k, _)) ==> k == IoKind::NotFound),
    {
        match backend.get_metadata(id) {
            Ok(metadata) => Ok(DSFDataSet::unverified(metadata)),
            Err(e) => Err(e.to_io_error()),
        }
    }

    /// Verifies this dataset alone, given the hash of its content as it is now on disk
    /// (not read for a fenced dataset) and the verdicts of its direct dependencies.
    pub fn verify_single(&mut self, current_hash: &str, dep_statuses: &[DataSetStatus]) -> (r: DataSetVerifyRes)
        ensures
            r.status == single_status(old(self).metadata@, current_hash@, dep_statuses@),
            r.dep_status@ == dep_statuses@,
            final(self).metadata@ == old(self).metadata@,
            final(self).detailed_status@ == r@,
    {
        let status = if !self.metadata.busy_status.is_open() {
            DataSetStatus::Busy(self.metadata.busy_status)
        } else {
            let same = str_eq(current_hash, self.metadata.hash.as_str());
            let healthy = all_healthy(dep_statuses);
            if same && healthy {
                DataSetStatus::Healthy
            } else if !same {
                DataSetStatus::Broken
            } else {
                DataSetStatus::BrokenDeps
            }
        };
        let res = DataSetVerifyRes { status, dep_status: clone_statuses(dep_statuses) };
        self.detailed_status = res.clone();
        res
    }

    /// Records a freshly computed content hash, unless the dataset is fenced.
    pub fn refresh_hash_and_merkle(&mut self, new_hash: String) -> (r: Result<(), RefreshError>)
        ensures
            r is Ok <==> spec_is_open(old(self).metadata.busy_status),
            r matches Err(e) ==> e == RefreshError::ResourceBusy(old(self).metadata.busy_status)
                && final(self)@ == old(self)@,
            r is Ok ==> final(self).metadata@ == (MetaDataView { hash: new_hash@, ..old(self).metadata@ })
                && final(self).detailed_status@ == old(self).detailed_status@,
    {
        if !self.metadata.busy_status.is_open() {
            return Err(RefreshError::ResourceBusy(self.metadata.busy_status));
        }
        self.metadata.hash = new_hash;
        Ok(())
    }
}

/// A verification status as the query command shows it, in three parts: text before, the
/// part shown in the status's colour, text after. A fenced dataset shows as
/// `Occupied(<busy status>)`; any other status by its name.
pub open spec fn query_label_parts(s: DataSetStatus) -> (Seq<char>, Seq<char>, Seq<char>) {
    match s {
        DataSetStatus::Healthy => (Seq::empty(), "Healthy"@, Seq::empty()),
        DataSetStatus::Broken => (Seq::empty(), "Broken"@, Seq::empty()),
        DataSetStatus::BrokenDeps => (Seq::empty(), "BrokenDeps"@, Seq::empty()),
        DataSetStatus::Unverified => (Seq::empty(), "Unverified"@, Seq::empty()),
        DataSetStatus::Busy(b) => ("Occupied("@, busy_text(b), ")"@),
    }
}

/// Writes the parts of a status's label (see `query_label_parts`).
pub fn query_label(s: DataSetStatus) -> (r: (String, String, String))
    ensures
        (r.0@, r.1@, r.2@) == query_label_parts(s),
{
    proof {
        reveal_strlit("");
    }
    match s {
        DataSetStatus::Healthy => (String::from_str(""), String::from_str("Healthy"), String::from_str("")),
        DataSetStatus::Broken => (String::from_str(""), String::from_str("Broken"), String::from_str("")),
        DataSetStatus::BrokenDeps => (String::from_str(""), String::from_str("BrokenDeps"), String::from_str("")),
        DataSetStatus::Unverified => (String::from_str(""), String::from_str("Unverified"), String::from_str("")),
        DataSetStatus::Busy(b) => (String::from_str("Occupied("), String::from_str(b.as_str()), String::from_str(")")),
    }
}

/// Where the description of `name@tag` is kept: the given path, or else
/// `<data_dir>/descriptions/<name>_<tag>.md`.
pub open spec fn description_path_spec(data_dir: Seq<char>, name: Seq<char>, tag: Seq<char>, given: Option<Seq<char>>) -> Seq<char> {
    match given {
        Some(p) => p,
        None => data_dir + "/descriptions/"@ + name + "_"@ + tag + ".md"@,
    }
}

/// Picks where the description of `name@tag` is kept (see `description_path_spec`).
pub fn description_path(data_dir: &str, name: &str, tag: &str, given: Option<&str>) -> (r: String)
    ensures
        r@ == description_path_spec(data_dir@, name@, tag@, match given {
            Some(p) => Some(p@),
            None => None,
        }),
{
    match given {
        Some(p) => <String as StringExecFns>::from_str(p),
        None => {
            let a = concat3(data_dir, "/descriptions/", name);
            let b = concat3(a.as_str(), "_", tag);
            proof {
                reveal_strlit("");
                assert(b@ + ".md"@ + ""@ =~= b@ + ".md"@);
            }
            concat3(b.as_str(), ".md", "")
        },
    }
}

/// The text a new description of `name@tag` starts with: a `# name@tag` heading, a blank
/// line, and a comment asking for the description.
pub open spec fn description_stub_spec(name: Seq<char>, tag: Seq<char>) -> Seq<char> {
    "# "@ + name + "@"@ + tag + "\n\n<!-- describe the dataset here -->\n"@
}

/// Writes the text a new description of `name@tag` starts with.
pub fn description_stub(name: &str, tag: &str) -> (r: String)
    ensures
        r@ == description_stub_spec(name@, tag@),
{
    let a = concat3("# ", name, "@");
    concat3(a.as_str(), tag, "\n\n<!-- describe the dataset here -->\n")
}

} // verus!
