use bootupd::blockdev::parent_devices;
use bootupd::efi::{esp_mount_candidates, EspMount};
use bootupd::bios::{check_grub_modules, grub_install_args, grub_target};
use bootupd::blockdev::{
    find_colocated_bios_boot, find_colocated_esps, get_esp_partition, is_mpath_uuid,
    mpath_partition_number, target_device, Partition,
};
use bootupd::cli::{CtlAction, CtlBackend, CtlCommand, CtlVerb, GenerateOpts, LogLevel, StatusOpts};
use bootupd::component::{
    bios_query_adopt, component_update_data_name, component_updatedirname, efi_query_adopt,
    get_components_impl, new_from_name, query_adopt_state, ComponentKind,
};
use bootupd::freezethaw::{fsfreeze_outcome, FreezeStep, EOPNOTSUPP, EPERM};
use bootupd::model::Timestamp;
use bootupd::ostreeutil::{bootloader_from_output, has_visible_entry, rpm_dbpath_arg, static_migration_needed};

fn part(node: &str, t: &str) -> Partition {
    Partition {
        node: node.to_string(),
        parttype: t.to_string(),
    }
}

const ESP: &str = "C12A7328-F81F-11D2-BA4B-00A0C93EC93B";
const BIOS: &str = "21686148-6449-6E6F-744E-656564454649";

#[test]
fn colocated_partitions() {
    let a = vec![part("/dev/vda1", BIOS), part("/dev/vda2", ESP), part("/dev/vda3", "x")];
    let b = vec![part("/dev/vdb1", "x")];
    let c = vec![part("/dev/vdc2", ESP)];
    assert_eq!(get_esp_partition(&a), Some("/dev/vda2".to_string()));
    let tables = vec![a, b, c];
    assert_eq!(
        find_colocated_esps(&tables),
        Some(vec!["/dev/vda2".to_string(), "/dev/vdc2".to_string()])
    );
    assert_eq!(find_colocated_bios_boot(&tables), Some(vec!["/dev/vda1".to_string()]));
    let none = vec![vec![part("/dev/sda1", "x")]];
    assert_eq!(find_colocated_esps(&none), None);
}

#[test]
fn prep_target_and_multipath() {
    let parts = vec![part("/dev/sda1", "41"), part("/dev/sda2", "x")];
    assert_eq!(target_device("/dev/sda", true, &parts), Some("/dev/sda1".to_string()));
    assert_eq!(target_device("/dev/sda", false, &parts), Some("/dev/sda".to_string()));
    assert_eq!(target_device("/dev/sda", true, &vec![]), None);
    assert!(is_mpath_uuid("  mpath-3600a098"));
    assert!(!is_mpath_uuid("LVM-abc"));
    assert_eq!(
        mpath_partition_number("/dev/mapper/mpatha-part2", "/dev/mapper/mpatha"),
        Some("2".to_string())
    );
    assert_eq!(mpath_partition_number("/dev/sdb2", "/dev/sda"), None);
}

#[test]
fn freeze_tolerates_unsupported_and_unprivileged() {
    assert_eq!(fsfreeze_outcome(Some(EOPNOTSUPP)), FreezeStep::Done);
    assert_eq!(fsfreeze_outcome(Some(EPERM)), FreezeStep::Done);
    assert_eq!(fsfreeze_outcome(None), FreezeStep::Thaw);
    assert_eq!(fsfreeze_outcome(Some(16)), FreezeStep::Fail(16));
}

#[test]
fn log_levels_and_dispatch() {
    let c = |v: u8| CtlCommand { verbosity: v, cmd: CtlVerb::Update };
    assert_eq!(c(0).loglevel(), LogLevel::Warn);
    assert_eq!(c(1).loglevel(), LogLevel::Info);
    assert_eq!(c(2).loglevel(), LogLevel::Debug);
    assert_eq!(c(7).loglevel(), LogLevel::Trace);
    assert!(matches!(c(0).run(), CtlAction::Update));
    let opts = StatusOpts { print_if_available: true, json: false };
    let s = CtlCommand { verbosity: 0, cmd: CtlVerb::Status(opts) };
    assert!(matches!(s.run(), CtlAction::Status(o) if o == opts));
    let g = CtlCommand {
        verbosity: 0,
        cmd: CtlVerb::Backend(CtlBackend::Generate(GenerateOpts { sysroot: "/".to_string() })),
    };
    assert!(matches!(g.run(), CtlAction::GenerateUpdateMetadata(o) if o.sysroot == "/"));
}

#[test]
fn components_per_architecture() {
    assert_eq!(get_components_impl("x86_64", false, true), vec![ComponentKind::Bios, ComponentKind::Efi]);
    assert_eq!(get_components_impl("x86_64", true, true), vec![ComponentKind::Efi]);
    assert_eq!(get_components_impl("x86_64", true, false), vec![ComponentKind::Bios]);
    assert_eq!(get_components_impl("aarch64", false, true), vec![ComponentKind::Efi]);
    assert_eq!(get_components_impl("powerpc64", false, false), vec![ComponentKind::Bios]);
    assert_eq!(get_components_impl("s390x", false, false), vec![]);
    assert_eq!(new_from_name("EFI", "x86_64"), Some(ComponentKind::Efi));
    assert_eq!(new_from_name("BIOS", "aarch64"), None);
    assert_eq!(new_from_name("UEFI", "x86_64"), None);
    assert_eq!(component_updatedirname(ComponentKind::Efi), "usr/lib/bootupd/updates/EFI");
    assert_eq!(component_update_data_name(ComponentKind::Bios), "BIOS.json");
}

#[test]
fn adoption_decisions() {
    let t = Timestamp { secs: 5, nanos: 1 };
    let a = query_adopt_state(Some(("41.1".to_string(), t)), Some(t)).unwrap();
    assert_eq!(a.version.version, "41.1");
    assert!(a.confident);
    let b = query_adopt_state(None, Some(t)).unwrap();
    assert_eq!(b.version.version, "unknown");
    assert_eq!(b.version.timestamp, t);
    assert!(query_adopt_state(None, None).is_none());
    assert!(efi_query_adopt(false, false, query_adopt_state(None, Some(t))).is_none());
    assert!(efi_query_adopt(true, true, query_adopt_state(None, Some(t))).is_none());
    assert!(efi_query_adopt(true, false, query_adopt_state(None, Some(t))).is_some());
    assert!(bios_query_adopt("x86_64", true, false, query_adopt_state(None, Some(t))).is_none());
    assert!(bios_query_adopt("x86_64", false, false, query_adopt_state(None, Some(t))).is_some());
}

#[test]
fn grub_installer_arguments() {
    assert_eq!(grub_target("x86_64"), Some("i386-pc"));
    assert_eq!(check_grub_modules("powerpc64"), Some("/usr/lib/grub/powerpc-ieee1275".to_string()));
    assert_eq!(
        grub_install_args("x86_64", "/", "/dev/vda").unwrap(),
        vec!["--target", "i386-pc", "--boot-directory", "/boot", "--modules", "mdraid1x part_gpt", "/dev/vda"]
    );
    assert_eq!(
        grub_install_args("powerpc64", "/mnt/root", "/dev/sda1").unwrap(),
        vec!["--target", "powerpc-ieee1275", "--boot-directory", "/mnt/root/boot", "--no-nvram", "/dev/sda1"]
    );
    assert_eq!(grub_install_args("aarch64", "/", "/dev/vda"), None);
}

#[test]
fn ostree_and_rpm_helpers() {
    assert!(has_visible_entry(&vec![".hidden".to_string(), "Packages".to_string()]));
    assert!(!has_visible_entry(&vec![".a".to_string()]));
    assert_eq!(
        rpm_dbpath_arg("/sysroot", true, true),
        Some("--dbpath=/sysroot/usr/lib/sysimage/rpm".to_string())
    );
    assert_eq!(rpm_dbpath_arg("/", false, true), Some("--dbpath=/usr/share/rpm".to_string()));
    assert_eq!(rpm_dbpath_arg("/", false, false), None);
    assert_eq!(bootloader_from_output(true, "none\n"), Some("none".to_string()));
    assert_eq!(bootloader_from_output(false, "x"), None);
    assert!(!static_migration_needed(Some("none")));
    assert!(static_migration_needed(Some("auto")));
    assert!(static_migration_needed(None));
}

#[test]
fn parent_disks_from_lsblk() {
    let out = "NAME=\"/dev/vda3\" TYPE=\"part\"\nNAME=\"/dev/vda\" TYPE=\"disk\"\n";
    assert_eq!(parent_devices(out), vec!["/dev/vda".to_string()]);
    let raid = "NAME=\"/dev/md126\" TYPE=\"raid1\"\nNAME=\"/dev/vda4\" TYPE=\"part\"\nNAME=\"/dev/vda\" TYPE=\"disk\"\nNAME=\"/dev/vdb4\" TYPE=\"part\"\nNAME=\"/dev/vdb\" TYPE=\"disk\"\nNAME=\"/dev/vda\" TYPE=\"disk\"\n";
    assert_eq!(parent_devices(raid), vec!["/dev/vda".to_string(), "/dev/vdb".to_string()]);
    let mpath = "NAME=\"/dev/mapper/mpatha4\" TYPE=\"part\"\nNAME=\"/dev/mapper/mpatha\" TYPE=\"mpath\"\nNAME=\"/dev/sda\" TYPE=\"disk\"\n";
    assert_eq!(parent_devices(mpath), vec!["/dev/mapper/mpatha".to_string()]);
}

#[test]
fn esp_mount_points() {
    assert_eq!(esp_mount_candidates("/"), vec!["/boot/efi", "/efi", "/boot"]);
    assert_eq!(esp_mount_candidates("/mnt"), vec!["/mnt/boot/efi", "/mnt/efi", "/mnt/boot"]);
    let mut m = EspMount::unmounted();
    m.set_mounted("/boot/efi".to_string());
    assert_eq!(m.take_for_unmount(), Some("/boot/efi".to_string()));
    assert_eq!(m.take_for_unmount(), None);
}
