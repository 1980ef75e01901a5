//! Configuration data: which backend to run and how to reach it.
//!
//! Loading and saving the configuration file is the caller's business;
//! the values themselves, their defaults, and the tilde expansion of the
//! local path are fixed here.

use vstd::prelude::*;

verus! {

/// Which backend the application runs against.
#[derive(Debug, Clone, PartialEq, Eq, Structural)]
pub enum StorageType {
    Local,
    MongoDB,
}

impl Default for StorageType {
    /// The local single-file backend is the default.
    fn default() -> (r: Self)
        ensures
            r == StorageType::Local,
    {
        StorageType::Local
    }
}

/// Settings of the local backend: where its document lives.
#[derive(Debug, Clone)]
pub struct LocalConfig {
    pub path: String,
}

impl Default for LocalConfig {
    /// The default storage path, under the user's dotfile directory.
    fn default() -> (r: Self)
        ensures
            r.path@ == "~/.quill/storage/todos.json"@,
    {
        LocalConfig { path: "~/.quill/storage/todos.json".to_owned() }
    }
}

/// Settings of the document-store backend: the connection string, the
/// database, and the live-task collection.
#[derive(Debug, Clone)]
pub struct MongoConfig {
    pub connection_string: String,
    pub database: String,
    pub collection: String,
}

impl Default for MongoConfig {
    /// A local document store with the application's own database and
    /// collection names.
    fn default() -> (r: Self)
        ensures
            r.connection_string@ == "mongodb://localhost:27017"@,
            r.database@ == "quill"@,
            r.collection@ == "tasks"@,
    {
        MongoConfig {
            connection_string: "mongodb://localhost:27017".to_owned(),
            database: "quill".to_owned(),
            collection: "tasks".to_owned(),
        }
    }
}

/// The application's configuration: the active backend and the settings
/// of both.
#[derive(Debug, Clone)]
pub struct AppConfig {
    pub storage_type: StorageType,
    pub local_config: LocalConfig,
    pub mongo_config: MongoConfig,
}

impl Default for AppConfig {
    /// Local backend, default paths and connection settings.
    fn default() -> (r: Self)
        ensures
            r.storage_type == StorageType::Local,
            r.local_config.path@ == "~/.quill/storage/todos.json"@,
            r.mongo_config.connection_string@ == "mongodb://localhost:27017"@,
            r.mongo_config.database@ == "quill"@,
            r.mongo_config.collection@ == "tasks"@,
    {
        AppConfig {
            storage_type: StorageType::Local,
            local_config: LocalConfig::default(),
            mongo_config: MongoConfig::default(),
        }
    }
}

/// The local path with a leading `~/` replaced by the given home
/// directory; any other path is kept as it is.
pub open spec fn spec_expanded_path(path: Seq<char>, home: Seq<char>) -> Seq<char> {
    if path.len() >= 2 && path[0] == '~' && path[1] == '/' {
        home + path.skip(1)
    } else {
        path
    }
}

impl AppConfig {
    /// Expands a leading `~/` in the configured local path to the given
    /// home directory.
    pub fn expand_local_path(&self, home: &str) -> (r: String)
        ensures
            r@ == spec_expanded_path(self.local_config.path@, home@),
    {
        let p = self.local_config.path.as_str();
        let n = p.unicode_len();
        if n >= 2 && p.get_char(0) == '~' && p.get_char(1) == '/' {
            let rest = p.substring_char(1, n);
            let r = String::from_str(home).concat(rest);
            proof {
                assert(rest@ =~= self.local_config.path@.skip(1));
            }
            r
        } else {
            self.local_config.path.clone()
        }
    }
}

} // verus!
