use bootupd::component::ValidationResult;
use bootupd::efi::{
    boot_entries_to_clear, efi_boot_entry_args, efi_payload_version, efi_var_string, get_efi_vendor,
    get_product_name, parse_boot_entries, partition_sysfs_path, plan_run_update,
    shim_name, vendor_change, firmware_update_allowed,
    skip_systemd_bootloaders, string_from_utf16_bytes, validate_efi, BootEntry, EfiError,
    VendorError,
};
use bootupd::filetree::{FileMeta, FileTree, FileTreeDiff};
use bootupd::model::{ContentMetadata, InstalledContent, Timestamp};
use bootupd::named::Named;

fn entry(id: &str, name: &str) -> BootEntry {
    BootEntry {
        id: id.to_string(),
        name: name.to_string(),
    }
}

#[test]
fn test_parse_boot_entries() {
    let output = r"
BootCurrent: 0003
Timeout: 0 seconds
BootOrder: 0003,0001,0000,0002
Boot0000* UiApp	FvVol(7cb8bdc9-f8eb-4f34-aaea-3ee4af6516a1)/FvFile(462caa21-7614-4503-836e-8ab6f4662331)
Boot0001* UEFI Misc Device	PciRoot(0x0)/Pci(0x3,0x0){auto_created_boot_option}
Boot0002* EFI Internal Shell	FvVol(7cb8bdc9-f8eb-4f34-aaea-3ee4af6516a1)/FvFile(7c04a583-9e3e-4f1c-ad65-e05268d0b4d1)
Boot0003* Fedora	HD(2,GPT,94ff4025-5276-4bec-adea-e98da271b64c,0x1000,0x3f800)/\EFI\fedora\shimx64.efi";
    let entries = parse_boot_entries(output);
    assert_eq!(
        entries,
        [
            BootEntry {
                id: "0000".to_string(),
                name: "UiApp".to_string()
            },
            BootEntry {
                id: "0001".to_string(),
                name: "UEFI Misc Device".to_string()
            },
            BootEntry {
                id: "0002".to_string(),
                name: "EFI Internal Shell".to_string()
            },
            BootEntry {
                id: "0003".to_string(),
                name: "Fedora".to_string()
            }
        ]
    );
    let output = r"
BootCurrent: 0003
Timeout: 0 seconds
BootOrder: 0003,0001,0000,0002";
    let entries = parse_boot_entries(output);
    assert_eq!(entries, []);

    let output = r"
BootCurrent: 0003
Timeout: 0 seconds
BootOrder: 0003,0001,0000,0002
Boot0000* UiApp
Boot0001* UEFI Misc Device
Boot0002* EFI Internal Shell
Boot0003* test";
    let entries = parse_boot_entries(output);
    assert_eq!(
        entries,
        [
            BootEntry {
                id: "0000".to_string(),
                name: "UiApp".to_string()
            },
            BootEntry {
                id: "0001".to_string(),
                name: "UEFI Misc Device".to_string()
            },
            BootEntry {
                id: "0002".to_string(),
                name: "EFI Internal Shell".to_string()
            },
            BootEntry {
                id: "0003".to_string(),
                name: "test".to_string()
            }
        ]
    );
}

#[test]
fn test_get_product_name() {
    {
        let name = get_product_name(Some("Fedora release 40 (Forty)"), "");
        assert_eq!("Fedora", name);
    }
    {
        let name = get_product_name(Some("CentOS Stream release 9"), "");
        assert_eq!("CentOS Stream", name);
    }
    {
        let name = get_product_name(Some("Red Hat Enterprise Linux CoreOS release 4"), "");
        assert_eq!("Red Hat Enterprise Linux CoreOS", name);
    }
    {
        let name = get_product_name(
            Some(
                "Red Hat Enterprise Linux CoreOS release 4
                ",
            ),
            "",
        );
        assert_eq!("Red Hat Enterprise Linux CoreOS", name);
    }
    {
        let os_name = os_release::OsRelease::new().unwrap().name;
        let name = get_product_name(None, &os_name);
        assert!(name.len() > 0);
    }
}

#[test]
fn product_name_strips_release_words_per_line() {
    assert_eq!(get_product_name(None, "Fedora Linux"), "Fedora Linux");
    assert_eq!(get_product_name(Some("  Fedora   release 41\n"), ""), "Fedora");
    assert_eq!(get_product_name(Some("Xrelease\nfoo release x"), ""), "X\nfoo");
    assert_eq!(get_product_name(Some("Fedora\u{2003}"), ""), "Fedora");
}

#[test]
fn utf16_variables() {
    let bytes = [b's', 0, b'y', 0, b's', 0, 0, 0, 0];
    assert_eq!(string_from_utf16_bytes(&bytes, 0), Some("sys".to_string()));
    let with_attrs = [7, 0, 0, 0, b's', 0, b'd', 0, 0, 0];
    assert_eq!(efi_var_string(&with_attrs), Some("sd".to_string()));
    assert_eq!(efi_var_string(&[1, 2, 3]), None);
    let interior = [b'a', 0, 0, 0, b'b', 0];
    assert_eq!(string_from_utf16_bytes(&interior, 0), None);
}

#[test]
fn systemd_bootloaders_are_skipped() {
    assert!(skip_systemd_bootloaders(Some("systemd-boot 255"), None));
    assert!(!skip_systemd_bootloaders(Some("GRUB 2.12"), None));
    assert!(skip_systemd_bootloaders(None, Some("systemd-stub 255")));
    assert!(!skip_systemd_bootloaders(None, None));
}

#[test]
fn efi_vendor_from_shims() {
    assert_eq!(get_efi_vendor(&vec![]), Err(VendorError::NotFound));
    let two = vec![
        "/x/usr/lib/bootupd/updates/EFI/fedora/shimx64.efi".to_string(),
        "/x/usr/lib/bootupd/updates/EFI/centos/shimx64.efi".to_string(),
    ];
    assert_eq!(get_efi_vendor(&two), Err(VendorError::Multiple));
    let one = vec!["/x/usr/lib/bootupd/updates/EFI/fedora/shimx64.efi".to_string()];
    assert_eq!(get_efi_vendor(&one), Ok("fedora".to_string()));
    let rel = vec!["centos/shimx64.efi".to_string()];
    assert_eq!(get_efi_vendor(&rel), Ok("centos".to_string()));
    assert_eq!(shim_name("x86_64"), Some("shimx64.efi"));
    assert_eq!(shim_name("aarch64"), Some("shimaa64.efi"));
    assert_eq!(shim_name("s390x"), None);
}

#[test]
fn boot_entries_matching_product_are_cleared() {
    let entries = vec![entry("0000", "UiApp"), entry("0003", "Fedora"), entry("0004", "fedora")];
    assert_eq!(boot_entries_to_clear(&entries, "FEDORA"), vec!["0003".to_string(), "0004".to_string()]);
}

#[test]
fn boot_entry_creation_arguments() {
    let args = efi_boot_entry_args("/dev/vda", "2\n", "fedora", "shimx64.efi", "Fedora");
    assert_eq!(
        args,
        vec![
            "--create",
            "--disk",
            "/dev/vda",
            "--part",
            "2",
            "--loader",
            "\\EFI\\fedora\\shimx64.efi",
            "--label",
            "Fedora",
        ]
    );
}

#[test]
fn payload_version_from_layout() {
    let dirs = vec!["usr/lib/efi/shim/15.8-3/EFI".to_string(), "usr/lib/efi/grub2/2.12-28/EFI".to_string()];
    assert_eq!(efi_payload_version(&dirs), "shim-15.8-3,grub2-2.12-28");
}

fn file(path: &str, digest: &str) -> Named<FileMeta> {
    Named {
        name: path.to_string(),
        value: FileMeta {
            sha512: digest.to_string(),
            mode: 0o644,
        },
    }
}

fn installed(tree: Option<FileTree>) -> InstalledContent {
    InstalledContent {
        meta: ContentMetadata {
            timestamp: Timestamp { secs: 0, nanos: 0 },
            version: "v".to_string(),
            versions: None,
        },
        filetree: tree,
        adopted_from: None,
    }
}

#[test]
fn efi_validation() {
    let ic = installed(None);
    assert_eq!(validate_efi(false, &ic, None), Ok(ValidationResult::Skip));
    assert_eq!(validate_efi(true, &ic, None), Err(EfiError::NoFiletree));
    let tree = FileTree::from_entries(vec![file("a", "1")]).unwrap();
    let ic = installed(Some(tree));
    assert_eq!(validate_efi(true, &ic, Some(vec![])), Ok(ValidationResult::Valid));
    let d = FileTreeDiff {
        additions: vec![],
        removals: vec!["b".to_string()],
        changes: vec!["a".to_string()],
    };
    assert_eq!(
        validate_efi(true, &ic, Some(vec![d])),
        Ok(ValidationResult::Errors(vec!["Changed: a".to_string(), "Removed: b".to_string()]))
    );
}

#[test]
fn run_update_needs_a_filetree() {
    let new = FileTree::from_entries(vec![file("a", "2"), file("c", "3")]).unwrap();
    assert!(matches!(plan_run_update(&installed(None), &new), Err(EfiError::NoFiletree)));
    let old = FileTree::from_entries(vec![file("a", "1"), file("b", "1")]).unwrap();
    let d = plan_run_update(&installed(Some(old)), &new).unwrap();
    assert_eq!(d.additions, vec!["c".to_string()]);
    assert_eq!(d.removals, vec!["b".to_string()]);
    assert_eq!(d.changes, vec!["a".to_string()]);
}

#[test]
fn partition_number_location() {
    assert_eq!(
        partition_sysfs_path("/dev/vda2"),
        Some("/sys/class/block/vda2/partition".to_string())
    );
    assert_eq!(partition_sysfs_path("vda2"), None);
}

#[test]
fn vendor_directory_changes() {
    let old = FileTree::from_entries(vec![file("fedora/shimx64.efi", "1"), file("BOOT/BOOTX64.EFI", "2")]).unwrap();
    let new = FileTree::from_entries(vec![file("centos/shimx64.efi", "1"), file("BOOT/BOOTX64.EFI", "2")]).unwrap();
    assert_eq!(
        vendor_change(&old, &new, "shimx64.efi"),
        Some(("fedora".to_string(), "centos".to_string()))
    );
    assert_eq!(vendor_change(&old, &old, "shimx64.efi"), None);
    let none = FileTree::from_entries(vec![file("BOOT/BOOTX64.EFI", "2")]).unwrap();
    assert_eq!(vendor_change(&none, &new, "shimx64.efi"), None);
    assert!(firmware_update_allowed(true, true, true));
    assert!(!firmware_update_allowed(true, false, true));
    assert!(!firmware_update_allowed(true, true, false));
    assert!(!firmware_update_allowed(false, true, true));
}
