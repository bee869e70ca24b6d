//! The components (EFI and BIOS), which architectures carry them, where
//! their updates live, and whether an existing installation can be adopted.
use vstd::prelude::*;
use crate::model::{Adoptable, ContentMetadata, Timestamp};
use crate::text::{text_eq, join_path, path_join, concat};

verus! {

pub const ARCH_X86_64: &'static str = "x86_64";

pub const ARCH_AARCH64: &'static str = "aarch64";

pub const ARCH_RISCV64: &'static str = "riscv64";

pub const ARCH_POWERPC64: &'static str = "powerpc64";

/// Directory, relative to a root, that holds the available updates.
pub const BOOTUPD_UPDATES_DIR: &'static str = "usr/lib/bootupd/updates";

/// A boot-firmware component.
#[derive(Debug, Clone, Copy, PartialEq, Eq, Structural)]
pub enum ComponentKind {
    Bios,
    Efi,
}

pub open spec fn kind_name(k: ComponentKind) -> Seq<char> {
    match k {
        ComponentKind::Bios => "BIOS"@,
        ComponentKind::Efi => "EFI"@,
    }
}

/// Whether `arch` carries the component `k`: EFI on x86_64, aarch64 and
/// riscv64; BIOS on x86_64 and powerpc64.
pub open spec fn supports(arch: Seq<char>, k: ComponentKind) -> bool {
    match k {
        ComponentKind::Efi => arch == ARCH_X86_64@ || arch == ARCH_AARCH64@ || arch == ARCH_RISCV64@,
        ComponentKind::Bios => arch == ARCH_X86_64@ || arch == ARCH_POWERPC64@,
    }
}

impl ComponentKind {
    /// The stable name under which the component is recorded.
    pub fn name(&self) -> (r: &'static str)
        ensures
            r@ == kind_name(*self),
    {
        match self {
            ComponentKind::Bios => "BIOS",
            ComponentKind::Efi => "EFI",
        }
    }
}

/// The component called `name`, if `arch` carries it.
pub fn new_from_name(name: &str, arch: &str) -> (r: Option<ComponentKind>)
    ensures
        match r {
            Some(k) => kind_name(k) == name@ && supports(arch@, k),
            None => forall|k: ComponentKind| kind_name(k) == name@ ==> !supports(arch@, k),
        },
{
    let x86 = text_eq(arch, ARCH_X86_64);
    if text_eq(name, "EFI") && (x86 || text_eq(arch, ARCH_AARCH64) || text_eq(arch, ARCH_RISCV64)) {
        return Some(ComponentKind::Efi);
    }
    if text_eq(name, "BIOS") && (x86 || text_eq(arch, ARCH_POWERPC64)) {
        return Some(ComponentKind::Bios);
    }
    proof {
        reveal_strlit("EFI");
        reveal_strlit("BIOS");
        assert("EFI"@.len() == 3 && "BIOS"@.len() == 4);
    }
    None
}

/// The components of an architecture, in name order. With `auto` on
/// x86_64 only the one matching how the system booted.
pub open spec fn components_spec(arch: Seq<char>, auto: bool, efi_booted: bool) -> Seq<ComponentKind> {
    if arch == ARCH_X86_64@ {
        if auto {
            if efi_booted {
                seq![ComponentKind::Efi]
            } else {
                seq![ComponentKind::Bios]
            }
        } else {
            seq![ComponentKind::Bios, ComponentKind::Efi]
        }
    } else if arch == ARCH_AARCH64@ || arch == ARCH_RISCV64@ {
        seq![ComponentKind::Efi]
    } else if arch == ARCH_POWERPC64@ {
        seq![ComponentKind::Bios]
    } else {
        Seq::empty()
    }
}

/// The known components for `arch`.
pub fn get_components_impl(arch: &str, auto: bool, efi_booted: bool) -> (r: Vec<ComponentKind>)
    ensures
        r@ == components_spec(arch@, auto, efi_booted),
{
    let mut v: Vec<ComponentKind> = Vec::new();
    if text_eq(arch, ARCH_X86_64) {
        if auto {
            if efi_booted {
                v.push(ComponentKind::Efi);
            } else {
                v.push(ComponentKind::Bios);
            }
        } else {
            v.push(ComponentKind::Bios);
            v.push(ComponentKind::Efi);
        }
    } else if text_eq(arch, ARCH_AARCH64) || text_eq(arch, ARCH_RISCV64) {
        v.push(ComponentKind::Efi);
    } else if text_eq(arch, ARCH_POWERPC64) {
        v.push(ComponentKind::Bios);
    }
    assert(v@ =~= components_spec(arch@, auto, efi_booted));
    v
}

/// Payload directory of a component's available update, relative to a root.
pub fn component_updatedirname(k: ComponentKind) -> (r: String)
    ensures
        r@ == path_join(BOOTUPD_UPDATES_DIR@, kind_name(k)),
{
    join_path(BOOTUPD_UPDATES_DIR, k.name())
}

/// File name of a component's update metadata in the updates directory.
pub fn component_update_data_name(k: ComponentKind) -> (r: String)
    ensures
        r@ == kind_name(k) + ".json"@,
{
    concat(k.name(), ".json")
}

/// The version to record as adopted, when something looks installed: the
/// CoreOS aleph version and its time when present, else "unknown" with the
/// birth time of `/ostree/deploy` when that exists.
pub fn query_adopt_state(aleph: Option<(String, Timestamp)>, ostree_deploy_birth: Option<Timestamp>) -> (r: Option<Adoptable>)
    ensures
        match aleph {
            Some((v, t)) => r matches Some(a) && a.confident && a.version@.version == v@ && a.version@.timestamp == t && a.version@.versions is None,
            None => match ostree_deploy_birth {
                Some(t) => r matches Some(a) && a.confident && a.version@.version == "unknown"@ && a.version@.timestamp == t && a.version@.versions is None,
                None => r is None,
            },
        },
{
    match aleph {
        Some((v, t)) => Some(
            Adoptable { version: ContentMetadata { timestamp: t, version: v, versions: None }, confident: true },
        ),
        None => match ostree_deploy_birth {
            Some(t) => Some(
                Adoptable {
                    version: ContentMetadata { timestamp: t, version: "unknown".to_owned(), versions: None },
                    confident: true,
                },
            ),
            None => None,
        },
    }
}

/// EFI adoption: only with an ESP on the root's disks, and not when a
/// systemd boot loader manages the system.
pub fn efi_query_adopt(has_esp: bool, systemd_bootloader: bool, state: Option<Adoptable>) -> (r: Option<Adoptable>)
    ensures
        (has_esp && !systemd_bootloader) ==> r == state,
        !(has_esp && !systemd_bootloader) ==> r is None,
{
    if !has_esp || systemd_bootloader {
        return None;
    }
    state
}

/// BIOS adoption: skipped on an EFI-booted x86_64 system without a BIOS
/// boot partition.
pub fn bios_query_adopt(arch: &str, efi_booted: bool, has_bios_boot: bool, state: Option<Adoptable>) -> (r: Option<Adoptable>)
    ensures
        (arch@ == ARCH_X86_64@ && efi_booted && !has_bios_boot) ==> r is None,
        !(arch@ == ARCH_X86_64@ && efi_booted && !has_bios_boot) ==> r == state,
{
    if text_eq(arch, ARCH_X86_64) && efi_booted && !has_bios_boot {
        return None;
    }
    state
}

/// Outcome of validating an installed component.
#[derive(Debug, PartialEq, Eq)]
pub enum ValidationResult {
    Valid,
    Skip,
    Errors(Vec<String>),
}

} // verus!
