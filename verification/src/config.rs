//! What a caller hands the store when opening it: the database location and
//! an optional passphrase.

use vstd::prelude::*;

verus! {

/// Where the database lives and whether it is passphrase-protected. The path
/// names the directory the embedding application persists the store under;
/// the store's own logic never touches it.
#[derive(Clone, Debug)]
pub struct StorageConfig {
    pub path: String,
    pub password: Option<String>,
}

impl StorageConfig {
    pub fn new(path: String, password: Option<String>) -> (config: StorageConfig)
        ensures
            config.path@ == path@,
            config.password == password,
    {
        StorageConfig { path, password }
    }
}

} // verus!
