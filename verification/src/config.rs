//! Where the configuration lives, and what it holds.
use crate::backend::router::{AddrView, BackendAddr, GlobalBackendAddr, StackedBackendConfig};
use crate::backend::sqlite_config::SqliteConfig;
use vstd::prelude::*;
use vstd::string::StringExecFns;

verus! {

/// How the tool was installed: for the current user, or for every user of the machine.
#[derive(Debug, Clone, Copy, PartialEq, Eq, Structural)]
pub enum InstallMode {
    User,
    Global,
}

impl Default for InstallMode {
    fn default() -> (r: Self)
        ensures
            r == InstallMode::User,
    {
        InstallMode::User
    }
}

/// The configuration: how the tool was installed, where its file is, and the stores.
pub struct AppConfig {
    pub mode: InstallMode,
    pub config_path: Option<String>,
    pub backend: StackedBackendConfig,
}

/// Where the machine-wide configuration file is.
pub open spec fn global_config_path() -> Seq<char> {
    "/etc/dataspringflow/config.yaml"@
}

/// Why no configuration file could be picked.
#[derive(Debug, Clone, Copy, PartialEq, Eq, Structural)]
pub enum ConfigError {
    /// Neither a user nor a machine-wide configuration exists.
    NotInstalled,
}

impl AppConfig {
    /// Picks the configuration file: the user's when it exists, else the machine-wide one
    /// when it exists.
    pub fn resolve_path(user_cfg_path: String, user_exists: bool, global_exists: bool) -> (r: Result<(InstallMode, String), ConfigError>)
        ensures
            user_exists ==> (r matches Ok((m, p)) && m == InstallMode::User && p@ == user_cfg_path@),
            !user_exists && global_exists ==> (r matches Ok((m, p)) && m == InstallMode::Global && p@ == global_config_path()),
            !user_exists && !global_exists ==> r == Err::<(InstallMode, String), ConfigError>(ConfigError::NotInstalled),
    {
        if user_exists {
            Ok((InstallMode::User, user_cfg_path))
        } else if global_exists {
            Ok((InstallMode::Global, String::from_str("/etc/dataspringflow/config.yaml")))
        } else {
            Err(ConfigError::NotInstalled)
        }
    }

    /// What `init` writes for the current user: its own store at `db_path`, in write-ahead-log
    /// mode and otherwise at the default settings, stacked over the machine-wide store when
    /// that one is installed.
    pub fn for_user(config_path: String, db_path: String, global_installed: bool) -> (r: Self)
        ensures
            r.mode == InstallMode::User,
            r.config_path matches Some(p) && p@ == config_path@,
            r.backend.private_sqlite_cfg.db_path@ == db_path@,
            r.backend.private_sqlite_cfg.wal,
            r.backend.private_sqlite_cfg.pool_size == 8,
            r.backend.private_sqlite_cfg.busy_timeout_ms == 5000,
            r.backend.private_sqlite_cfg.synchronous@ == "NORMAL"@,
            r.backend.private_sqlite_cfg.foreign_keys,
            global_installed ==> r.backend.global_repos@.len() == 1 && r.backend.global_repos@[0]@ == AddrView::GlobalSqlite(global_config_path()),
            !global_installed ==> r.backend.global_repos@.len() == 0,
    {
        let mut sqlite_cfg = SqliteConfig::new(db_path);
        sqlite_cfg.wal = true;
        let mut global_repos: Vec<GlobalBackendAddr> = Vec::new();
        if global_installed {
            global_repos.push(GlobalBackendAddr::Sqlite { config_path: String::from_str("/etc/dataspringflow/config.yaml") });
        }
        AppConfig {
            mode: InstallMode::User,
            config_path: Some(config_path),
            backend: StackedBackendConfig::new(sqlite_cfg, global_repos),
        }
    }

    /// What `init --global` writes: the machine-wide store at `db_path` with the default
    /// settings, over no other store, in the machine-wide configuration file.
    pub fn for_global(db_path: String) -> (r: Self)
        ensures
            r.mode == InstallMode::Global,
            r.config_path matches Some(p) && p@ == global_config_path(),
            r.backend.private_sqlite_cfg.db_path@ == db_path@,
            !r.backend.private_sqlite_cfg.wal,
            r.backend.private_sqlite_cfg.pool_size == 8,
            r.backend.private_sqlite_cfg.busy_timeout_ms == 5000,
            r.backend.private_sqlite_cfg.synchronous@ == "NORMAL"@,
            r.backend.private_sqlite_cfg.foreign_keys,
            r.backend.global_repos@.len() == 0,
    {
        AppConfig {
            mode: InstallMode::Global,
            config_path: Some(String::from_str("/etc/dataspringflow/config.yaml")),
            backend: StackedBackendConfig::new(SqliteConfig::new(db_path), Vec::new()),
        }
    }

    /// The configuration as read from a file, stamped with how it was found.
    pub fn with_origin(self, mode: InstallMode, config_path: String) -> (r: Self)
        ensures
            r.mode == mode,
            r.config_path matches Some(p) && p@ == config_path@,
            r.backend == self.backend,
    {
        AppConfig { mode, config_path: Some(config_path), backend: self.backend }
    }
}

/// The store a command addresses: the machine-wide store with `global`, else the default.
pub fn get_target_addr(global: bool) -> (r: Option<BackendAddr>)
    ensures
        global ==> (r matches Some(a) && a@ == AddrView::GlobalSqlite(global_config_path())),
        !global ==> r is None,
{
    if global {
        Some(BackendAddr::Global { addr: GlobalBackendAddr::Sqlite { config_path: String::from_str("/etc/dataspringflow/config.yaml") } })
    } else {
        None
    }
}

/// The characters of `s` before the first `c`, or all of them.
pub open spec fn take_until(s: Seq<char>, c: char) -> Seq<char>
    decreases s.len(),
{
    if s.len() == 0 || s[0] == c {
        Seq::empty()
    } else {
        seq![s[0]] + take_until(s.drop_first(), c)
    }
}

/// A line of `text` starts at `s`: at the start, or right after a newline, with something
/// left to read (a newline at the very end opens no line).
pub open spec fn line_starts_at(text: Seq<char>, s: int) -> bool {
    0 <= s < text.len() && (s == 0 || text[s - 1] == '\n')
}

/// The line of `text` that starts at `s`, as a line reader hands it out: without its
/// newline, and without a carriage return right before that newline.
pub open spec fn line_at(text: Seq<char>, s: int) -> Seq<char> {
    let rest = text.subrange(s, text.len() as int);
    let seg = take_until(rest, '\n');
    if seg.len() < rest.len() && seg.len() > 0 && seg.last() == '\r' {
        seg.drop_last()
    } else {
        seg
    }
}

/// Some line of a group file names the group `group` in its first `:`-separated field.
pub open spec fn group_listed(text: Seq<char>, group: Seq<char>) -> bool {
    exists|s: int| line_starts_at(text, s) && take_until(#[trigger] line_at(text, s), ':') == group
}

proof fn lemma_take_until_step(s: Seq<char>, c: char, i: int)
    requires
        0 <= i < s.len(),
        forall|k: int| 0 <= k < i ==> s[k] != c,
    ensures
        take_until(s, c).len() >= i,
        take_until(s, c).subrange(0, i) == s.subrange(0, i),
        s[i] == c ==> take_until(s, c) == s.subrange(0, i),
    decreases i,
{
    if i > 0 {
        let df = s.drop_first();
        lemma_take_until_step(df, c, i - 1);
        let t = take_until(s, c);
        let td = take_until(df, c);
        assert(t == seq![s[0]] + td);
        assert forall|j: int| 0 <= j < i implies #[trigger] t[j] == s[j] by {
            if j > 0 {
                assert(td.subrange(0, i - 1)[j - 1] == df.subrange(0, i - 1)[j - 1]);
            }
        }
        assert(t.subrange(0, i) =~= s.subrange(0, i));
        if s[i] == c {
            assert(take_until(s, c) =~= s.subrange(0, i));
        }
    }
}

proof fn lemma_take_until_all(s: Seq<char>, c: char)
    requires
        forall|k: int| 0 <= k < s.len() ==> s[k] != c,
    ensures
        take_until(s, c) == s,
    decreases s.len(),
{
    if s.len() > 0 {
        lemma_take_until_all(s.drop_first(), c);
        assert(take_until(s, c) =~= s);
    }
}

/// The characters of `v` from `start` before the first `c`, and whether a `c` ends them.
fn take_until_from(v: &Vec<char>, start: usize, c: char) -> (r: (Vec<char>, bool))
    requires
        start <= v@.len(),
    ensures
        r.0@ == take_until(v@.subrange(start as int, v@.len() as int), c),
        r.1 == (r.0@.len() < v@.len() - start),
{
    let ghost rest = v@.subrange(start as int, v@.len() as int);
    let mut out: Vec<char> = Vec::new();
    let mut i: usize = start;
    while i < v.len()
        invariant
            rest == v@.subrange(start as int, v@.len() as int),
            start <= i <= v@.len(),
            out@ == rest.subrange(0, i - start),
            forall|k: int| 0 <= k < i - start ==> rest[k] != c,
        decreases v@.len() - i,
    {
        if v[i] == c {
            proof {
                lemma_take_until_step(rest, c, i - start);
            }
            return (out, true);
        }
        out.push(v[i]);
        proof {
            assert(out@ =~= rest.subrange(0, i + 1 - start));
        }
        i = i + 1;
    }
    proof {
        assert(rest.subrange(0, rest.len() as int) =~= rest);
        lemma_take_until_all(rest, c);
    }
    (out, false)
}

/// Whether some line of the group file `text` names the group `group` in its first field.
pub fn group_file_lists(text: &str, group: &str) -> (r: bool)
    ensures
        r == group_listed(text@, group@),
{
    let v = crate::text::chars_of(text);
    let g = crate::text::chars_of(group);
    let mut s: usize = 0;
    while s < v.len()
        invariant
            v@ == text@,
            g@ == group@,
            s <= v@.len(),
            forall|k: int| 0 <= k < s && #[trigger] line_starts_at(text@, k) ==> take_until(line_at(text@, k), ':') != group@,
        decreases v@.len() - s,
    {
        if s == 0 || v[s - 1] == '\n' {
            let (seg, ended) = take_until_from(&v, s, '\n');
            let line = if ended && seg.len() > 0 && seg[seg.len() - 1] == '\r' {
                let mut l = seg;
                l.pop();
                l
            } else {
                seg
            };
            proof {
                assert(line_starts_at(text@, s as int));
                assert(line@ == line_at(text@, s as int));
            }
            let (field, _) = take_until_from(&line, 0, ':');
            proof {
                assert(line@.subrange(0, line@.len() as int) =~= line@);
                assert(field@ == take_until(line_at(text@, s as int), ':'));
            }
            if vec_char_eq(&field, &g) {
                return true;
            }
        }
        s = s + 1;
    }
    false
}

/// Whether two character vectors are equal.
fn vec_char_eq(a: &Vec<char>, b: &Vec<char>) -> (r: bool)
    ensures
        r == (a@ == b@),
{
    if a.len() != b.len() {
        return false;
    }
    let mut i: usize = 0;
    while i < a.len()
        invariant
            a@.len() == b@.len(),
            i <= a@.len(),
            forall|k: int| 0 <= k < i ==> a@[k] == b@[k],
        decreases a@.len() - i,
    {
        if a[i] != b[i] {
            return false;
        }
        i = i + 1;
    }
    assert(a@ =~= b@);
    true
}

/// Whether the machine-wide installation is in place: its configuration file exists and
/// the group file lists the administrators' group `group_name`. `group_file` is the text of
/// the group file, `None` when it cannot be read.
pub fn is_global_installed(group_name: &str, group_file: Option<&str>, config_exists: bool) -> (r: bool)
    ensures
        r == (config_exists && (group_file matches Some(t) && group_listed(t@, group_name@))),
{
    let listed = match group_file {
        Some(t) => group_file_lists(t, group_name),
        None => false,
    };
    config_exists && listed
}

} // verus!
