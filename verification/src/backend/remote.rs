//! The remote store, which is declared but not provided yet.
use vstd::prelude::*;

verus! {

/// A store on a remote server. No remote protocol exists yet.
pub struct RemoteBackend {}

/// Settings of a remote store. None exist yet.
#[derive(Debug, Clone, Copy)]
pub struct RemoteConfig {}

} // verus!
