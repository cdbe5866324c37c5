use manread::config::{default_true, Config, S3Config, S3UploadAclConfig, Spinner, StorageConfig};

#[test]
fn defaults() {
    assert!(default_true());
    let s3 = S3Config::default();
    assert!(s3.bucket.is_empty() && s3.endpoint.is_none() && !s3.force_path_style);
    assert_eq!(s3.upload_acl, S3UploadAclConfig::InheritBucket);
    let storage = StorageConfig::default();
    assert!(storage.local && !storage.encryption);
    let c = Config::default_with_secret("s".repeat(64));
    assert_eq!(c.root_folder, "data");
    assert_eq!((c.port, c.https_port), (8082, 8081));
    assert_eq!(c.rust_log, "info");
    assert_eq!(c.secret_key.len(), 64);
    assert!(matches!(c.spinner, Spinner::Pikachu2));
}

#[test]
fn spinner_files() {
    assert_eq!(Spinner::Pikachu2.file(), "pikachu-running-2.gif");
    assert_eq!(Spinner::Naruto1.file(), "naruto-2.gif");
    assert_eq!(Spinner::NarutoEye1.file(), "naruto-1.gif");
    assert_eq!(Spinner::Luffy1.file(), "one-piece-1.gif");
    assert_eq!(Spinner::Custom("x.gif".to_owned()).file(), "x.gif");
}
