//! The BIOS component: how the GRUB installer is invoked.
use vstd::prelude::*;
use crate::component::{ARCH_X86_64, ARCH_POWERPC64};
use crate::text::{text_eq, join_path, path_join};

verus! {

/// The installer, relative to the root.
pub const GRUB_BIN: &'static str = "usr/sbin/grub2-install";

/// Where GRUB's platform module directories live.
pub const GRUB_MODULES_ROOT: &'static str = "/usr/lib/grub";

/// GRUB platform of an architecture.
pub open spec fn grub_target_spec(arch: Seq<char>) -> Option<Seq<char>> {
    if arch == ARCH_X86_64@ {
        Some("i386-pc"@)
    } else if arch == ARCH_POWERPC64@ {
        Some("powerpc-ieee1275"@)
    } else {
        None
    }
}

/// The GRUB platform for `arch`: `i386-pc` on x86_64,
/// `powerpc-ieee1275` on powerpc64.
pub fn grub_target(arch: &str) -> (r: Option<&'static str>)
    ensures
        match r {
            Some(t) => grub_target_spec(arch@) == Some(t@),
            None => grub_target_spec(arch@) is None,
        },
{
    if text_eq(arch, ARCH_X86_64) {
        Some("i386-pc")
    } else if text_eq(arch, ARCH_POWERPC64) {
        Some("powerpc-ieee1275")
    } else {
        None
    }
}

/// The module directory that must exist before installing, for `arch`.
pub fn check_grub_modules(arch: &str) -> (r: Option<String>)
    ensures
        match r {
            Some(d) => grub_target_spec(arch@) matches Some(t) && d@ == path_join(GRUB_MODULES_ROOT@, t),
            None => grub_target_spec(arch@) is None,
        },
{
    match grub_target(arch) {
        Some(t) => Some(join_path(GRUB_MODULES_ROOT, t)),
        None => None,
    }
}

pub open spec fn arg_views(v: Seq<String>) -> Seq<Seq<char>> {
    v.map_values(|s: String| s@)
}

/// Arguments of the GRUB installer for `device` with boot files under
/// `dest_root`/boot. On x86_64 the `mdraid1x` and `part_gpt` modules are
/// always included; on powerpc64 NVRAM is left alone.
pub open spec fn grub_install_args_spec(arch: Seq<char>, dest_root: Seq<char>, device: Seq<char>) -> Option<Seq<Seq<char>>> {
    let boot = path_join(dest_root, "boot"@);
    if arch == ARCH_X86_64@ {
        Some(seq!["--target"@, "i386-pc"@, "--boot-directory"@, boot, "--modules"@, "mdraid1x part_gpt"@, device])
    } else if arch == ARCH_POWERPC64@ {
        Some(seq!["--target"@, "powerpc-ieee1275"@, "--boot-directory"@, boot, "--no-nvram"@, device])
    } else {
        None
    }
}

/// The installer's arguments; `device` is the whole disk on x86_64 and the
/// PReP partition on powerpc64.
pub fn grub_install_args(arch: &str, dest_root: &str, device: &str) -> (r: Option<Vec<String>>)
    ensures
        match r {
            Some(v) => grub_install_args_spec(arch@, dest_root@, device@) == Some(arg_views(v@)),
            None => grub_install_args_spec(arch@, dest_root@, device@) is None,
        },
{
    let boot = join_path(dest_root, "boot");
    let mut v: Vec<String> = Vec::new();
    if text_eq(arch, ARCH_X86_64) {
        v.push("--target".to_owned());
        v.push("i386-pc".to_owned());
        v.push("--boot-directory".to_owned());
        v.push(boot);
        v.push("--modules".to_owned());
        v.push("mdraid1x part_gpt".to_owned());
        v.push(device.to_owned());
    } else if text_eq(arch, ARCH_POWERPC64) {
        v.push("--target".to_owned());
        v.push("powerpc-ieee1275".to_owned());
        v.push("--boot-directory".to_owned());
        v.push(boot);
        v.push("--no-nvram".to_owned());
        v.push(device.to_owned());
    } else {
        return None;
    }
    assert(grub_install_args_spec(arch@, dest_root@, device@) == Some(arg_views(v@))) by {
        assert(grub_install_args_spec(arch@, dest_root@, device@)->0 =~= arg_views(v@));
    }
    Some(v)
}

} // verus!
