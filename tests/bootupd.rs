use bootupd::grubconfigs::{bootuuid_config, dropin_configs, static_grub_config};
use bootupd::bootupd::{
    select_install_components, install_skip, status_lines, strip_grub_config, updates_available_line,
    ConfigMode, InstallError, InstallSkip,
};
use bootupd::component::ComponentKind;
use bootupd::model::{Adoptable, ComponentStatus, ComponentUpdatable, ContentMetadata, Status, Timestamp};
use bootupd::named::Named;

fn meta(v: &str) -> ContentMetadata {
    ContentMetadata {
        timestamp: Timestamp { secs: 1, nanos: 0 },
        version: v.to_string(),
        versions: None,
    }
}

#[test]
fn test_strip_grub_config_file() {
    let content = r"
### BEGIN /etc/grub.d/10_linux ###

### END /etc/grub.d/10_linux ###

### BEGIN /etc/grub.d/15_ostree ###
menuentry 'Red Hat Enterprise Linux CoreOS 4 (ostree)' --class gnu-linux --class gnu --class os --unrestricted 'ostree-0-a92522f9-74dc-456a-ae0c-05ba22bca976' {
load_video
set gfxpayload=keep
insmod gzio
insmod part_gpt
insmod ext2
if [ x$feature_platform_search_hint = xy ]; then
  search --no-floppy --fs-uuid --set=root  a92522f9-74dc-456a-ae0c-05ba22bca976
else
  search --no-floppy --fs-uuid --set=root a92522f9-74dc-456a-ae0c-05ba22bca976
fi
linuxefi /ostree/rhcos-bf3b382/vmlinuz console=tty0 console=ttyS0,115200n8 rootflags=defaults,prjquota rw $ignition_firstboot root=UUID=cbac8cdc
initrdefi /ostree/rhcos-bf3b382/initramfs.img
}
### END /etc/grub.d/15_ostree ###

### BEGIN /etc/grub.d/20_linux_xen ###
### END /etc/grub.d/20_linux_xen ###";
    let stripped_content = strip_grub_config(content);
    let expected = r"
### BEGIN /etc/grub.d/10_linux ###

### END /etc/grub.d/10_linux ###


### BEGIN /etc/grub.d/20_linux_xen ###
### END /etc/grub.d/20_linux_xen ###
";
    assert_eq!(expected, stripped_content);
}

#[test]
fn strip_keeps_text_without_fences() {
    assert_eq!(strip_grub_config("a\nb"), "a\nb\n");
    assert_eq!(strip_grub_config(""), "");
    assert_eq!(
        strip_grub_config("x\n### BEGIN /etc/grub.d/15_ostree ###\ny\n### END /etc/grub.d/15_ostree ###\nz\n"),
        "x\nz\n"
    );
}

#[test]
fn config_mode_uuid() {
    assert_eq!(ConfigMode::Disabled.enabled_with_uuid(), None);
    assert_eq!(ConfigMode::Static.enabled_with_uuid(), Some(false));
    assert_eq!(ConfigMode::WithUUID.enabled_with_uuid(), Some(true));
}

#[test]
fn install_component_selection() {
    let all = vec![ComponentKind::Bios, ComponentKind::Efi];
    assert_eq!(select_install_components(&all, None, false), Ok(all.clone()));
    let t = vec!["EFI".to_string()];
    assert_eq!(select_install_components(&all, Some(&t), false), Ok(vec![ComponentKind::Efi]));
    let bad = vec!["EFI".to_string(), "UEFI".to_string()];
    assert_eq!(
        select_install_components(&all, Some(&bad), false),
        Err(InstallError::UnknownComponent("UEFI".to_string()))
    );
    let none: Vec<String> = vec![];
    assert_eq!(select_install_components(&all, Some(&none), false), Err(InstallError::NoComponents));
    assert_eq!(select_install_components(&all, Some(&none), true), Ok(vec![]));
}

#[test]
fn install_skips() {
    assert_eq!(install_skip(ComponentKind::Bios, "", true), Some(InstallSkip::NoDevice));
    assert_eq!(install_skip(ComponentKind::Efi, "", false), Some(InstallSkip::NoMetadata));
    assert_eq!(install_skip(ComponentKind::Efi, "", true), None);
    assert_eq!(install_skip(ComponentKind::Bios, "/dev/vda", true), None);
}

fn sample_status() -> Status {
    Status {
        components: vec![Named {
            name: "EFI".to_string(),
            value: ComponentStatus {
                installed: meta("grub2-1:2.12-28.fc42,shim-15.8-3"),
                interrupted: Some(meta("grub2-1:2.12-29.fc42,shim-15.8-3")),
                update: Some(meta("grub2-1:2.12-29.fc42,shim-15.8-3")),
                updatable: ComponentUpdatable::Upgradable,
                adopted_from: None,
            },
        }],
        adoptable: vec![Named {
            name: "BIOS".to_string(),
            value: Adoptable {
                version: meta("unknown"),
                confident: true,
            },
        }],
    }
}

#[test]
fn status_report_lines() {
    let lines = status_lines(&sample_status(), Some("41.20250101.0"), Some("EFI"));
    assert_eq!(
        lines,
        vec![
            "Component EFI",
            "  Installed: grub2-1:2.12-28.fc42,shim-15.8-3",
            "  WARNING: Previous update to grub2-1:2.12-29.fc42,shim-15.8-3 was interrupted",
            "  Update: Available: grub2-1:2.12-29.fc42,shim-15.8-3",
            "Detected: BIOS: unknown",
            "CoreOS aleph version: 41.20250101.0",
            "Boot method: EFI",
        ]
    );
    let empty = Status { components: vec![], adoptable: vec![] };
    assert_eq!(
        status_lines(&empty, None, None),
        vec!["No components installed.", "No components are adoptable."]
    );
}

#[test]
fn updates_available() {
    assert_eq!(
        updates_available_line(&sample_status()),
        Some("Updates available: EFI BIOS".to_string())
    );
    let empty = Status { components: vec![], adoptable: vec![] };
    assert_eq!(updates_available_line(&empty), None);
}

#[test]
fn carriage_returns_only_before_newlines() {
    assert_eq!(strip_grub_config("a\r\nb\r"), "a\nb\r\n");
}

#[test]
fn static_grub_config_text() {
    let names = vec![
        "20_b.cfg".to_string(),
        "README".to_string(),
        "10_a.cfg".to_string(),
    ];
    let dropins = dropin_configs(&names);
    assert_eq!(dropins, vec!["10_a.cfg", "20_b.cfg"]);
    assert_eq!(
        static_grub_config("pre\n", &dropins, "post\n"),
        "pre\nsource $prefix/10_a.cfg\nsource $prefix/20_b.cfg\npost\n"
    );
    assert_eq!(bootuuid_config("abcd-1234"), "set BOOT_UUID=\"abcd-1234\"\n");
}
