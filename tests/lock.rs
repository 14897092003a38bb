use fs4::tokio::AsyncFileExt;
use shut_me_down::registration::{lock_file_name, registration_outcome, RegistrationError};

#[test]
fn second_registration_is_refused_until_release() {
    let rt = tokio::runtime::Builder::new_current_thread().build().unwrap();
    rt.block_on(async {
        let dir = std::path::PathBuf::from("/tmp").join("shut_me_down_lock_check");
        tokio::fs::create_dir_all(&dir).await.unwrap();
        let path = dir.join(lock_file_name("twice"));
        let mut opts = tokio::fs::OpenOptions::new();
        opts.read(true).write(true).create(true).truncate(true);
        let first = opts.open(&path).await.unwrap();
        let second = opts.open(&path).await.unwrap();
        assert_eq!(registration_outcome(first.try_lock_exclusive().ok()), Ok(()));
        assert_eq!(
            registration_outcome(second.try_lock_exclusive().ok()),
            Err(RegistrationError::AlreadyRegistered)
        );
        first.unlock_async().await.unwrap();
        assert_eq!(registration_outcome(second.try_lock_exclusive().ok()), Ok(()));
        second.unlock_async().await.unwrap();
    });
}
