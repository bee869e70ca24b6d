use bootupd::component::ComponentKind;
use bootupd::model::{
    build_status, Adoptable, ComponentUpdatable, ComponentUpdateResult, ContentMetadata,
    InstalledContent, SavedState, StateError, StatusError, Timestamp,
};

const ARCH: &str = "x86_64";

fn meta(v: &str) -> ContentMetadata {
    ContentMetadata {
        timestamp: Timestamp { secs: 10, nanos: 0 },
        version: v.to_string(),
        versions: None,
    }
}

fn content(v: &str) -> InstalledContent {
    InstalledContent {
        meta: meta(v),
        filetree: None,
        adopted_from: None,
    }
}

#[test]
fn interrupted_update_is_reported() {
    let mut state = SavedState::new();
    state.add_installed("EFI", content("grub2-1:2.12-28.fc42")).unwrap();
    let update = meta("grub2-1:2.12-29.fc42");
    match state.prepare_update("EFI", Some(&update), ARCH).unwrap() {
        ComponentUpdateResult::Updated { previous, interrupted, new } => {
            assert_eq!(previous.version, "grub2-1:2.12-28.fc42");
            assert!(interrupted.is_none());
            assert_eq!(new.version, "grub2-1:2.12-29.fc42");
        }
        ComponentUpdateResult::AtLatestVersion => panic!("expected an update"),
    }
    // As read back after a crash before the update completed.
    let st = state.component_status("EFI", Some(meta("grub2-1:2.12-29.fc42")), ARCH).unwrap();
    assert_eq!(st.installed.version, "grub2-1:2.12-28.fc42");
    assert_eq!(st.interrupted.unwrap().version, "grub2-1:2.12-29.fc42");
    assert_eq!(st.updatable, ComponentUpdatable::Upgradable);

    // The next attempt reports the interrupted version.
    match state.prepare_update("EFI", Some(&update), ARCH).unwrap() {
        ComponentUpdateResult::Updated { interrupted, .. } => {
            assert_eq!(interrupted.unwrap().version, "grub2-1:2.12-29.fc42")
        }
        ComponentUpdateResult::AtLatestVersion => panic!("expected an update"),
    }
    state.finish_update("EFI", content("grub2-1:2.12-29.fc42"));
    let st = state.component_status("EFI", None, ARCH).unwrap();
    assert_eq!(st.installed.version, "grub2-1:2.12-29.fc42");
    assert!(st.interrupted.is_none());
    assert_eq!(st.updatable, ComponentUpdatable::NoUpdateAvailable);
}

#[test]
fn update_decisions() {
    let mut state = SavedState::new();
    assert!(matches!(
        state.prepare_update("BIOS", Some(&meta("grub2-1:2.12-29.fc42")), ARCH),
        Err(StateError::NotInstalled)
    ));
    state.add_installed("BIOS", content("grub2-1:2.12-29.fc42")).unwrap();
    assert_eq!(
        state.add_installed("BIOS", content("x")),
        Err(StateError::AlreadyInstalled)
    );
    assert!(matches!(
        state.prepare_update("BIOS", None, ARCH),
        Ok(ComponentUpdateResult::AtLatestVersion)
    ));
    assert!(matches!(
        state.prepare_update("BIOS", Some(&meta("grub2-1:2.12-28.fc42")), ARCH),
        Ok(ComponentUpdateResult::AtLatestVersion)
    ));
    assert!(state.get_pending("BIOS").is_none());
    assert!(state.component_status("EFI", None, ARCH).is_none());
    let st = state.component_status("BIOS", Some(meta("grub2-1:2.12-28.fc42")), ARCH).unwrap();
    assert_eq!(st.updatable, ComponentUpdatable::WouldDowngrade);
    let st = state.component_status("BIOS", Some(meta("grub2-1:2.12-29.fc42")), ARCH).unwrap();
    assert_eq!(st.updatable, ComponentUpdatable::AtLatestVersion);
}

#[test]
fn status_of_all_components() {
    let mut state = SavedState::new();
    state.add_installed("EFI", content("grub2-1:2.12-28.fc42")).unwrap();
    let known = vec![ComponentKind::Bios, ComponentKind::Efi];
    let updates = vec![Some(meta("grub2-1:2.12-29.fc42")), Some(meta("grub2-1:2.12-29.fc42"))];
    let adopt = Some(Adoptable {
        version: meta("unknown"),
        confident: true,
    });
    let st = build_status(&state, &known, &updates, &adopt, ARCH).unwrap();
    assert_eq!(st.components.len(), 1);
    assert_eq!(st.components[0].name, "EFI");
    assert_eq!(st.components[0].value.updatable, ComponentUpdatable::Upgradable);
    assert_eq!(st.adoptable.len(), 1);
    assert_eq!(st.adoptable[0].name, "BIOS");
    let none = build_status(&state, &known, &vec![None, None], &adopt, ARCH).unwrap();
    assert!(none.adoptable.is_empty());
    let efi_only = vec![ComponentKind::Bios];
    assert_eq!(
        build_status(&state, &efi_only, &vec![None], &None, ARCH).unwrap_err(),
        StatusError::UnknownComponent("EFI".to_string())
    );
}
