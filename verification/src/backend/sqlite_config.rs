//! Settings of an SQLite store.
use vstd::prelude::*;
use vstd::string::StringExecFns;

verus! {

/// Settings of an SQLite store: where the database file lives and how connections are set up.
#[derive(Debug)]
pub struct SqliteConfig {
    pub db_path: String,
    pub pool_size: u32,
    pub busy_timeout_ms: u64,
    pub wal: bool,
    /// `NORMAL` or `FULL`.
    pub synchronous: String,
    pub foreign_keys: bool,
}

pub fn default_pool_size() -> (r: u32)
    ensures
        r == 8,
{
    8
}

pub fn default_busy_timeout_ms() -> (r: u64)
    ensures
        r == 5000,
{
    5000
}

pub fn default_wal() -> (r: bool)
    ensures
        !r,
{
    false
}

pub fn default_synchronous() -> (r: String)
    ensures
        r@ == "NORMAL"@,
{
    String::from_str("NORMAL")
}

pub fn default_foreign_keys() -> (r: bool)
    ensures
        r,
{
    true
}

impl Clone for SqliteConfig {
    fn clone(&self) -> (r: Self)
        ensures
            r == *self,
    {
        SqliteConfig {
            db_path: self.db_path.clone(),
            pool_size: self.pool_size,
            busy_timeout_ms: self.busy_timeout_ms,
            wal: self.wal,
            synchronous: self.synchronous.clone(),
            foreign_keys: self.foreign_keys,
        }
    }
}

impl SqliteConfig {
    /// Settings for the database at `db_path`, every other setting at its default.
    pub fn new(db_path: String) -> (r: Self)
        ensures
            r.db_path == db_path,
            r.pool_size == 8,
            r.busy_timeout_ms == 5000,
            !r.wal,
            r.synchronous@ == "NORMAL"@,
            r.foreign_keys,
    {
        SqliteConfig {
            db_path,
            pool_size: default_pool_size(),
            busy_timeout_ms: default_busy_timeout_ms(),
            wal: default_wal(),
            synchronous: default_synchronous(),
            foreign_keys: default_foreign_keys(),
        }
    }

    /// The same settings with another connection pool size.
    pub fn pool_size(self, size: u32) -> (r: Self)
        ensures
            r == (SqliteConfig { pool_size: size, ..self }),
    {
        let mut s = self;
        s.pool_size = size;
        s
    }

    /// The same settings with another busy timeout, in milliseconds.
    pub fn busy_timeout(self, ms: u64) -> (r: Self)
        ensures
            r == (SqliteConfig { busy_timeout_ms: ms, ..self }),
    {
        let mut s = self;
        s.busy_timeout_ms = ms;
        s
    }

    /// The finished settings.
    pub fn build(self) -> (r: SqliteConfig)
        ensures
            r == self,
    {
        SqliteConfig {
            db_path: self.db_path,
            pool_size: self.pool_size,
            busy_timeout_ms: self.busy_timeout_ms,
            wal: self.wal,
            synchronous: self.synchronous,
            foreign_keys: self.foreign_keys,
        }
    }
}

} // verus!
