//! The server's configuration and its defaults.
use vstd::prelude::*;

verus! {

/// The loading animation of the client.
pub enum Spinner {
    Pikachu1,
    Pikachu2,
    Pikachu3,
    DragonBalls1,
    Ferris,
    Naruto1,
    NarutoEye1,
    Luffy1,
    Totoro1,
    Totoro2,
    Custom(String),
}

/// The file of a spinner, under the `spinners` folder.
pub open spec fn spinner_file_spec(s: Spinner) -> Seq<char> {
    match s {
        Spinner::Pikachu1 => "pikachu-running-1.gif"@,
        Spinner::Pikachu2 => "pikachu-running-2.gif"@,
        Spinner::Pikachu3 => "pikachu-running-3.gif"@,
        Spinner::DragonBalls1 => "dragon-ball-1.gif"@,
        Spinner::Ferris => "ferris.gif"@,
        Spinner::Naruto1 => "naruto-2.gif"@,
        Spinner::NarutoEye1 => "naruto-1.gif"@,
        Spinner::Luffy1 => "one-piece-1.gif"@,
        Spinner::Totoro1 => "totoro-1.gif"@,
        Spinner::Totoro2 => "totoro-2.gif"@,
        Spinner::Custom(img) => img@,
    }
}

impl Spinner {
    /// The file of the spinner, to be joined to the `spinners` folder.
    pub fn file(&self) -> (r: String)
        ensures
            r@ == spinner_file_spec(*self),
    {
        match self {
            Spinner::Pikachu1 => "pikachu-running-1.gif".to_owned(),
            Spinner::Pikachu2 => "pikachu-running-2.gif".to_owned(),
            Spinner::Pikachu3 => "pikachu-running-3.gif".to_owned(),
            Spinner::DragonBalls1 => "dragon-ball-1.gif".to_owned(),
            Spinner::Ferris => "ferris.gif".to_owned(),
            Spinner::Naruto1 => "naruto-2.gif".to_owned(),
            Spinner::NarutoEye1 => "naruto-1.gif".to_owned(),
            Spinner::Luffy1 => "one-piece-1.gif".to_owned(),
            Spinner::Totoro1 => "totoro-1.gif".to_owned(),
            Spinner::Totoro2 => "totoro-2.gif".to_owned(),
            Spinner::Custom(img) => img.as_str().to_owned(),
        }
    }
}

/// Who may read uploaded objects.
#[derive(Clone, Copy, PartialEq, Eq, Structural, Debug)]
pub enum S3UploadAclConfig {
    InheritBucket,
    Private,
    PublicRead,
}

impl Default for S3UploadAclConfig {
    fn default() -> (r: Self)
        ensures
            r == S3UploadAclConfig::InheritBucket,
    {
        S3UploadAclConfig::InheritBucket
    }
}

/// Where and how objects are stored on S3.
pub struct S3Config {
    pub bucket: String,
    pub region: String,
    pub endpoint: Option<String>,
    pub access_key_id: Option<String>,
    pub secret_access_key: Option<String>,
    pub session_token: Option<String>,
    pub force_path_style: bool,
    pub upload_acl: S3UploadAclConfig,
}

impl Default for S3Config {
    fn default() -> (r: Self)
        ensures
            r.bucket@.len() == 0,
            r.region@.len() == 0,
            r.endpoint is None,
            r.access_key_id is None,
            r.secret_access_key is None,
            r.session_token is None,
            !r.force_path_style,
            r.upload_acl == S3UploadAclConfig::InheritBucket,
    {
        S3Config {
            bucket: String::new(),
            region: String::new(),
            endpoint: None,
            access_key_id: None,
            secret_access_key: None,
            session_token: None,
            force_path_style: false,
            upload_acl: S3UploadAclConfig::InheritBucket,
        }
    }
}

/// The storage of the server: local files, optionally encrypted, or S3.
pub struct StorageConfig {
    pub local: bool,
    pub encryption: bool,
    pub s3: S3Config,
}

/// What a missing `local` setting means: store locally.
pub fn default_true() -> (r: bool)
    ensures
        r,
{
    true
}

impl Default for StorageConfig {
    fn default() -> (r: Self)
        ensures
            r.local,
            !r.encryption,
            r.s3.bucket@.len() == 0,
            r.s3.region@.len() == 0,
            r.s3.endpoint is None,
            r.s3.access_key_id is None,
            r.s3.secret_access_key is None,
            r.s3.session_token is None,
            !r.s3.force_path_style,
            r.s3.upload_acl == S3UploadAclConfig::InheritBucket,
    {
        StorageConfig { local: default_true(), encryption: false, s3: S3Config::default() }
    }
}

/// The configuration of the server.
pub struct Config {
    pub root_folder: String,
    pub port: u16,
    pub https_port: u16,
    pub rust_log: String,
    pub secret_key: String,
    pub spinner: Spinner,
    pub storage: StorageConfig,
}

impl Config {
    /// The configuration written when none exists, with the given secret
    /// key: data in `data`, ports 8082 and 8081, log level `info`, the second
    /// Pikachu spinner and local storage.
    pub fn default_with_secret(secret_key: String) -> (r: Self)
        ensures
            r.root_folder@ == "data"@,
            r.port == 8082,
            r.https_port == 8081,
            r.rust_log@ == "info"@,
            r.secret_key@ == secret_key@,
            r.spinner is Pikachu2,
            r.storage.local,
            !r.storage.encryption,
            r.storage.s3.bucket@.len() == 0,
            r.storage.s3.region@.len() == 0,
            r.storage.s3.endpoint is None,
            r.storage.s3.access_key_id is None,
            r.storage.s3.secret_access_key is None,
            r.storage.s3.session_token is None,
            !r.storage.s3.force_path_style,
            r.storage.s3.upload_acl == S3UploadAclConfig::InheritBucket,
    {
        Config {
            root_folder: "data".to_owned(),
            port: 8082,
            https_port: 8081,
            rust_log: "info".to_owned(),
            secret_key,
            spinner: Spinner::Pikachu2,
            storage: StorageConfig::default(),
        }
    }
}

} // verus!
