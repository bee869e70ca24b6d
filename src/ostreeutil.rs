//! Reading ostree and rpm configuration.
use vstd::prelude::*;
use vstd::string::*;
use crate::text::{starts_with, trim_end_spec, trim_end, text_eq, join_path, path_join, concat};

verus! {

/// rpm database location in current trees.
pub const SYSIMAGE_RPM_DBPATH: &'static str = "usr/lib/sysimage/rpm";

/// rpm database location in older rpm-ostree trees.
pub const LEGACY_RPMOSTREE_DBPATH: &'static str = "usr/share/rpm";

/// Whether a directory listing has an entry whose name does not start
/// with '.'.
pub fn has_visible_entry(names: &Vec<String>) -> (r: bool)
    ensures
        r == exists|i: int| 0 <= i < names@.len() && !starts_with(#[trigger] names@[i]@, seq!['.']),
{
    let mut i: usize = 0;
    while i < names.len()
        invariant
            i <= names@.len(),
            forall|k: int| 0 <= k < i ==> starts_with(#[trigger] names@[k]@, seq!['.']),
        decreases names@.len() - i,
    {
        let n = names[i].as_str();
        if n.unicode_len() == 0 || n.get_char(0) != '.' {
            assert(!starts_with(names@[i as int]@, seq!['.'])) by {
                if n@.len() > 0 {
                    assert(n@.subrange(0, 1)[0] == n@[0]);
                }
            }
            return true;
        }
        assert(n@.subrange(0, 1) =~= seq!['.']);
        i = i + 1;
    }
    false
}

/// The `--dbpath=` argument for rpm: the first non-empty of the current and
/// the legacy database directories under `sysroot`; none when both are
/// empty.
pub fn rpm_dbpath_arg(sysroot: &str, sysimage_nonempty: bool, legacy_nonempty: bool) -> (r: Option<String>)
    ensures
        sysimage_nonempty ==> (r matches Some(a) && a@ == "--dbpath="@ + path_join(sysroot@, SYSIMAGE_RPM_DBPATH@)),
        !sysimage_nonempty && legacy_nonempty ==> (r matches Some(a) && a@ == "--dbpath="@ + path_join(sysroot@, LEGACY_RPMOSTREE_DBPATH@)),
        !sysimage_nonempty && !legacy_nonempty ==> r is None,
{
    let db = if sysimage_nonempty {
        SYSIMAGE_RPM_DBPATH
    } else if legacy_nonempty {
        LEGACY_RPMOSTREE_DBPATH
    } else {
        return None;
    };
    let p = join_path(sysroot, db);
    Some(concat("--dbpath=", p.as_str()))
}

/// The `sysroot.bootloader` option from the output of `ostree config get`:
/// absent when the command failed (the key is unset), else the output
/// without trailing whitespace.
pub fn bootloader_from_output(success: bool, stdout: &str) -> (r: Option<String>)
    ensures
        !success ==> r is None,
        success ==> (r matches Some(b) && b@ == trim_end_spec(stdout@)),
{
    if !success {
        return None;
    }
    Some(trim_end(stdout))
}

/// Whether the static GRUB migration still has to run: unless the
/// bootloader option is already `none`.
pub fn static_migration_needed(bootloader: Option<&str>) -> (r: bool)
    ensures
        r == !(bootloader matches Some(b) && b@ == "none"@),
{
    match bootloader {
        Some(b) => !text_eq(b, "none"),
        None => true,
    }
}

} // verus!
