//! Configuration of one account: the remote endpoint and its credentials,
//! the storage backend, and the optional search index.
//!
//! Reading the configuration file, the environment and the system keyring
//! is I/O performed by the caller; the decisions — which configuration key
//! holds a backend's secret, and whether a prompt is needed — are here.

use vstd::prelude::*;
use crate::codec::str_eq;

verus! {

/// The supported storage backend kinds.
#[derive(Debug, PartialEq, Eq, Structural, Clone, Copy)]
pub enum Scheme {
    Azblob,
    Azdls,
    Cos,
    Fs,
    Ftp,
    Gcs,
    Hdfs,
    Obs,
    Onedrive,
    Oss,
    S3,
    Sftp,
    Webdav,
    Webhdfs,
}

/// How the remote endpoint is authenticated.
#[derive(Debug, PartialEq, Eq, Structural, Clone, Copy)]
pub enum AuthMode {
    Token,
    Basic,
}

/// The remote endpoint and its credentials.
#[derive(Debug, Clone)]
pub struct Jmap {
    pub host: String,
    pub auth_mode: AuthMode,
    pub username: Option<String>,
    pub secret: Option<String>,
}

/// The storage backend and its keyed settings.
#[derive(Debug, Clone)]
pub struct Storage {
    pub scheme: Scheme,
    pub config: Vec<(String, String)>,
}

/// The search index settings.
#[derive(Debug, Clone)]
pub struct Search {
    pub enable: bool,
    pub folder: String,
}

/// One account's configuration.
#[derive(Debug, Clone)]
pub struct Conf {
    pub name: String,
    pub jmap: Jmap,
    pub storage: Storage,
    pub search: Option<Search>,
}

/// The name of the backend kind, as written in configuration and keyring
/// entries.
pub open spec fn spec_scheme_name(s: Scheme) -> Seq<char> {
    match s {
        Scheme::Azblob => "Azblob"@,
        Scheme::Azdls => "Azdls"@,
        Scheme::Cos => "Cos"@,
        Scheme::Fs => "Fs"@,
        Scheme::Ftp => "Ftp"@,
        Scheme::Gcs => "Gcs"@,
        Scheme::Hdfs => "Hdfs"@,
        Scheme::Obs => "Obs"@,
        Scheme::Onedrive => "Onedrive"@,
        Scheme::Oss => "Oss"@,
        Scheme::S3 => "S3"@,
        Scheme::Sftp => "Sftp"@,
        Scheme::Webdav => "Webdav"@,
        Scheme::Webhdfs => "Webhdfs"@,
    }
}

impl Scheme {
    /// The backend kind's name.
    pub fn name(&self) -> (r: String)
        ensures
            r@ == spec_scheme_name(*self),
    {
        match self {
            Scheme::Azblob => String::from_str("Azblob"),
            Scheme::Azdls => String::from_str("Azdls"),
            Scheme::Cos => String::from_str("Cos"),
            Scheme::Fs => String::from_str("Fs"),
            Scheme::Ftp => String::from_str("Ftp"),
            Scheme::Gcs => String::from_str("Gcs"),
            Scheme::Hdfs => String::from_str("Hdfs"),
            Scheme::Obs => String::from_str("Obs"),
            Scheme::Onedrive => String::from_str("Onedrive"),
            Scheme::Oss => String::from_str("Oss"),
            Scheme::S3 => String::from_str("S3"),
            Scheme::Sftp => String::from_str("Sftp"),
            Scheme::Webdav => String::from_str("Webdav"),
            Scheme::Webhdfs => String::from_str("Webhdfs"),
        }
    }
}

/// The configuration key under which a backend kind carries its secret,
/// when the kind needs one.
pub open spec fn spec_secret_key(s: Scheme) -> Option<Seq<char>> {
    match s {
        Scheme::S3 => Option::Some("secret_access_key"@),
        Scheme::Azblob => Option::Some("account_key"@),
        Scheme::Azdls => Option::Some("account_key"@),
        Scheme::Cos => Option::Some("secret_key"@),
        Scheme::Sftp => Option::Some("password"@),
        Scheme::Webdav => Option::Some("password"@),
        _ => Option::None,
    }
}

/// The configuration key of the backend's secret, or nothing when the
/// backend (such as a plain file system) needs none.
pub fn storage_secret_key(s: Scheme) -> (r: Option<String>)
    ensures
        match r {
            Some(k) => spec_secret_key(s) == Some(k@),
            None => spec_secret_key(s) is None,
        },
{
    match s {
        Scheme::S3 => Some(String::from_str("secret_access_key")),
        Scheme::Azblob => Some(String::from_str("account_key")),
        Scheme::Azdls => Some(String::from_str("account_key")),
        Scheme::Cos => Some(String::from_str("secret_key")),
        Scheme::Sftp => Some(String::from_str("password")),
        Scheme::Webdav => Some(String::from_str("password")),
        _ => None,
    }
}

/// Whether some pair of the keyed settings has the given key.
pub open spec fn config_has(cfg: Seq<(String, String)>, key: Seq<char>) -> bool {
    exists|j: int| 0 <= j < cfg.len() && #[trigger] cfg[j].0@ == key
}

/// Look a key up among the keyed settings: the first pair with the key
/// yields its value.
pub fn config_get(cfg: &Vec<(String, String)>, key: &str) -> (r: Option<String>)
    ensures
        match r {
            Some(v) => exists|j: int|
                #![auto]
                0 <= j < cfg@.len() && cfg@[j].0@ == key@ && v@ == cfg@[j].1@ && (forall|k: int|
                    0 <= k < j ==> cfg@[k].0@ != key@),
            None => !config_has(cfg@, key@),
        },
{
    let mut j: usize = 0;
    while j < cfg.len()
        invariant
            j <= cfg@.len(),
            forall|k: int| 0 <= k < j ==> #[trigger] cfg@[k].0@ != key@,
        decreases cfg@.len() - j,
    {
        if str_eq(cfg[j].0.as_str(), key) {
            return Some(cfg[j].1.clone());
        }
        j = j + 1;
    }
    None
}

/// What acquiring the storage secret requires: nothing for a backend
/// without secrets or with the secret already configured, otherwise the
/// keyring-or-prompt path.
#[derive(Debug, PartialEq, Eq, Structural, Clone, Copy)]
pub enum SecretSource {
    NotNeeded,
    FromConfig,
    FromKeyring,
}

/// Decide where the storage secret must come from.
pub fn storage_secret_source(storage: &Storage) -> (r: SecretSource)
    ensures
        r == SecretSource::NotNeeded <==> spec_secret_key(storage.scheme) is None,
        r == SecretSource::FromConfig <==> (spec_secret_key(storage.scheme) matches Some(k)
            && config_has(storage.config@, k)),
{
    match storage_secret_key(storage.scheme) {
        None => SecretSource::NotNeeded,
        Some(key) => {
            match config_get(&storage.config, key.as_str()) {
                Some(_) => SecretSource::FromConfig,
                None => SecretSource::FromKeyring,
            }
        },
    }
}

} // verus!
