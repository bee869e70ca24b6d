//! Decisions and parsing of the EFI component: firmware boot entries, EFI
//! variables, the product name, the vendor directory and validation.
use vstd::prelude::*;
use vstd::string::*;
use crate::text::{
    split_on, ends_with, text_ends_with,
    starts_with, before_first, after_first, first_index, trim_spec, trim_end_char, lines_of,
    views_of, find_char, substring, text_starts_with, trim, trim_end_matching, lines,
    lemma_first_index, last_index, before_last, after_last, lemma_last_index, text_eq, concat,
    lower_of, to_lowercase, joined, join, join_path, path_join, text_before, text_after,
    text_after_last,
};
use crate::component::{ARCH_X86_64, ARCH_AARCH64, ARCH_RISCV64, ValidationResult};
use crate::filetree::{FileTree, FileTreeDiff, is_diff, texts, tree_paths};
use crate::model::{InstalledContent};

verus! {

/// One firmware boot entry: its hexadecimal id and its label.
#[derive(Debug, PartialEq, Eq)]
pub struct BootEntry {
    pub id: String,
    pub name: String,
}

impl View for BootEntry {
    type V = (Seq<char>, Seq<char>);

    open spec fn view(&self) -> (Seq<char>, Seq<char>) {
        (self.id@, self.name@)
    }
}

pub open spec fn entry_views(v: Seq<BootEntry>) -> Seq<(Seq<char>, Seq<char>)> {
    v.map_values(|e: BootEntry| e@)
}

/// The entry a line of `efibootmgr` output describes: `Boot` followed by an
/// id starting with '0', up to the first tab; the id ends at the first
/// space and loses its trailing '*'s; the rest, trimmed, is the label.
pub open spec fn boot_entry_of(line: Seq<char>) -> Option<(Seq<char>, Seq<char>)> {
    if !starts_with(line, seq!['B', 'o', 'o', 't']) {
        None
    } else {
        let rest = line.subrange(4, line.len() as int);
        if !(rest.len() > 0 && rest[0] == '0') {
            None
        } else {
            let parts = before_first(rest, '\t');
            if first_index(parts, ' ') < 0 {
                None
            } else {
                Some((trim_end_char(before_first(parts, ' '), '*'), trim_spec(after_first(parts, ' '))))
            }
        }
    }
}

/// The entries of the lines that describe one, in order.
pub open spec fn boot_entries_of(ls: Seq<Seq<char>>) -> Seq<(Seq<char>, Seq<char>)>
    decreases ls.len(),
{
    if ls.len() == 0 {
        Seq::empty()
    } else {
        let init = boot_entries_of(ls.drop_last());
        match boot_entry_of(ls.last()) {
            Some(e) => init.push(e),
            None => init,
        }
    }
}

fn parse_boot_line(line: &str) -> (r: Option<BootEntry>)
    ensures
        match r {
            Some(e) => boot_entry_of(line@) == Some(e@),
            None => boot_entry_of(line@) is None,
        },
{
    proof {
        reveal_strlit("Boot");
        assert("Boot"@ =~= seq!['B', 'o', 'o', 't']);
    }
    if !text_starts_with(line, "Boot") {
        return None;
    }
    let l = line.unicode_len();
    let rest = substring(line, 4, l);
    if rest.unicode_len() == 0 || rest.as_str().get_char(0) != '0' {
        return None;
    }
    proof {
        lemma_first_index(rest@, '\t');
    }
    let parts = match find_char(rest.as_str(), '\t') {
        Some(i) => substring(rest.as_str(), 0, i),
        None => rest,
    };
    proof {
        lemma_first_index(parts@, ' ');
    }
    match find_char(parts.as_str(), ' ') {
        None => None,
        Some(i) => {
            let idp = substring(parts.as_str(), 0, i);
            let namep = substring(parts.as_str(), i + 1, parts.unicode_len());
            Some(BootEntry { id: trim_end_matching(idp.as_str(), '*'), name: trim(namep.as_str()) })
        },
    }
}

/// Reads the boot entries from the output of `efibootmgr`.
pub fn parse_boot_entries(output: &str) -> (r: Vec<BootEntry>)
    ensures
        entry_views(r@) == boot_entries_of(lines_of(output@)),
{
    let ls = lines(output);
    let ghost lv = views_of(ls@);
    let mut out: Vec<BootEntry> = Vec::new();
    let mut i: usize = 0;
    while i < ls.len()
        invariant
            lv == views_of(ls@),
            i <= ls@.len(),
            entry_views(out@) == boot_entries_of(lv.take(i as int)),
        decreases ls@.len() - i,
    {
        assert(lv.take(i + 1).drop_last() =~= lv.take(i as int));
        assert(lv.take(i + 1).last() == ls@[i as int]@);
        let ghost before = entry_views(out@);
        match parse_boot_line(ls[i].as_str()) {
            Some(e) => {
                out.push(e);
                assert(entry_views(out@) =~= before.push(out@.last()@));
            },
            None => {},
        }
        i = i + 1;
    }
    assert(lv.take(i as int) =~= lv);
    out
}

/// Index of the first occurrence of `pat` in `s`, or -1.
pub open spec fn find_sub(s: Seq<char>, pat: Seq<char>) -> int
    decreases s.len(),
{
    if s.len() == 0 || s.len() < pat.len() {
        -1
    } else if s.take(pat.len() as int) == pat {
        0
    } else {
        let r = find_sub(s.drop_first(), pat);
        if r < 0 {
            -1
        } else {
            r + 1
        }
    }
}

/// Start of the run of spaces that ends at index `q` of `l`.
pub open spec fn space_run_start(l: Seq<char>, q: int) -> int
    decreases q,
{
    if q > 0 && l[q - 1] == ' ' {
        space_run_start(l, q - 1)
    } else {
        q
    }
}

/// A line cut where ` *release.*` first matches it: from the spaces before
/// its first `release` to its end.
pub open spec fn cut_release(l: Seq<char>) -> Seq<char> {
    let q = find_sub(l, "release"@);
    if q < 0 {
        l
    } else {
        l.take(space_run_start(l, q))
    }
}

/// The text with every match of ` *release.*` removed. The pattern cannot
/// span a newline (`.` excludes it), so each line is cut on its own.
pub open spec fn release_stripped(s: Seq<char>) -> Seq<char> {
    joined(split_on(s, '\n').map_values(|l: Seq<char>| cut_release(l)), seq!['\n'])
}

/// Relies on `regex::Regex::replace_all` with the pattern ` *release.*` and
/// an empty replacement: leftmost-first matches, `.` not matching a newline.
#[verifier::external_body]
fn strip_release(s: &str) -> (r: String)
    ensures
        r@ == release_stripped(s@),
{
    regex::Regex::new(r" *release.*").unwrap().replace_all(s, "").into_owned()
}

/// The product name: from `/etc/system-release` when it exists (without the
/// ` release ...` words), else the `NAME` of `/etc/os-release`.
pub fn get_product_name(system_release: Option<&str>, os_release_name: &str) -> (r: String)
    ensures
        r@ == match system_release {
            Some(c) => trim_spec(release_stripped(c@)),
            None => os_release_name@,
        },
{
    match system_release {
        Some(c) => {
            let stripped = strip_release(c);
            trim(stripped.as_str())
        },
        None => os_release_name.to_owned(),
    }
}

/// Little-endian UTF-16 code units of `b`, a trailing odd byte dropped.
pub open spec fn utf16_units(b: Seq<u8>) -> Seq<u16> {
    Seq::new(b.len() / 2, |i: int| (b[2 * i] as int + 256 * b[2 * i + 1] as int) as u16)
}

/// No nul code unit before the last one.
pub open spec fn no_interior_nul(v: Seq<u16>) -> bool {
    forall|i: int| 0 <= i < v.len() - 1 ==> v[i] != 0
}

/// The units before the terminating nul, if the last unit is one.
pub open spec fn without_terminator(v: Seq<u16>) -> Seq<u16> {
    if v.len() > 0 && v.last() == 0 {
        v.drop_last()
    } else {
        v
    }
}

/// Lossy UTF-16 decoding, as `String::from_utf16_lossy` computes it.
pub uninterp spec fn utf16_lossy(units: Seq<u16>) -> Seq<char>;

/// Relies on `widestring::U16CString::from_vec`, which refuses a nul unit
/// anywhere but last (a last nul is the terminator), and on
/// `to_string_lossy`, which decodes the units before the terminator with
/// `String::from_utf16_lossy`.
#[verifier::external_body]
fn decode_nul_terminated(v: Vec<u16>) -> (r: Option<String>)
    ensures
        r is Some <==> no_interior_nul(v@),
        r matches Some(s) ==> s@ == utf16_lossy(without_terminator(v@)),
{
    match widestring::U16CString::from_vec(v) {
        Ok(s) => Some(s.to_string_lossy()),
        Err(_) => None,
    }
}

/// Decodes nul-terminated UTF-16LE bytes from `start` on; `None` when a nul
/// unit comes before the last.
pub fn string_from_utf16_bytes(b: &[u8], start: usize) -> (r: Option<String>)
    requires
        start <= b@.len(),
    ensures
        r is Some <==> no_interior_nul(utf16_units(b@.subrange(start as int, b@.len() as int))),
        r matches Some(s) ==> s@ == utf16_lossy(without_terminator(utf16_units(b@.subrange(start as int, b@.len() as int)))),
{
    let ghost bs = b@.subrange(start as int, b@.len() as int);
    let bl = b.len();
    let n = (bl - start) / 2;
    assert(n * 2 <= b@.len() - start);
    let mut v: Vec<u16> = Vec::new();
    let mut i: usize = 0;
    while i < n
        invariant
            bs == b@.subrange(start as int, b@.len() as int),
            n == bs.len() / 2,
            n * 2 <= b@.len() - start,
            bl == b@.len(),
            start <= b@.len(),
            i <= n,
            v@ == utf16_units(bs).take(i as int),
        decreases n - i,
    {
        assert(i * 2 + 1 < n * 2) by (nonlinear_arith)
            requires
                i < n,
        ;
        let k: usize = start + i * 2;
        let lo = b[k];
        let hi = b[k + 1];
        assert(bs[2 * i] == lo && bs[2 * i + 1] == hi);
        assert(hi as u16 * 256 <= 65280) by (nonlinear_arith)
            requires
                hi <= 255,
        ;
        let u: u16 = lo as u16 + (hi as u16) * 256;
        v.push(u);
        assert(v@ =~= utf16_units(bs).take(i + 1));
        i = i + 1;
    }
    assert(v@ =~= utf16_units(bs));
    decode_nul_terminated(v)
}

/// The text of an EFI variable's contents: the first four bytes hold its
/// attributes, the rest is nul-terminated UTF-16LE.
pub fn efi_var_string(buf: &[u8]) -> (r: Option<String>)
    ensures
        buf@.len() < 4 ==> r is None,
        buf@.len() >= 4 ==> r is Some == no_interior_nul(utf16_units(buf@.subrange(4, buf@.len() as int))),
        buf@.len() >= 4 && r is Some ==> r->0@ == utf16_lossy(without_terminator(utf16_units(buf@.subrange(4, buf@.len() as int)))),
{
    if buf.len() < 4 {
        return None;
    }
    string_from_utf16_bytes(buf, 4)
}

/// Adoption is left to systemd's tools when the loader reports itself as
/// systemd-boot or a systemd stub reports in.
pub fn skip_systemd_bootloaders(loader_info: Option<&str>, stub_info: Option<&str>) -> (r: bool)
    ensures
        r == ((loader_info matches Some(l) && starts_with(l@, seq!['s', 'y', 's', 't', 'e', 'm', 'd'])) || stub_info is Some),
{
    proof {
        reveal_strlit("systemd");
        assert("systemd"@ =~= seq!['s', 'y', 's', 't', 'e', 'm', 'd']);
    }
    if let Some(l) = loader_info {
        if text_starts_with(l, "systemd") {
            return true;
        }
    }
    stub_info.is_some()
}

/// The signed first-stage loader's file name for `arch`.
pub fn shim_name(arch: &str) -> (r: Option<&'static str>)
    ensures
        arch@ == ARCH_X86_64@ ==> (r matches Some(n) && n@ == "shimx64.efi"@),
        arch@ == ARCH_AARCH64@ ==> (r matches Some(n) && n@ == "shimaa64.efi"@),
        arch@ == ARCH_RISCV64@ ==> (r matches Some(n) && n@ == "shimriscv64.efi"@),
        !(arch@ == ARCH_X86_64@ || arch@ == ARCH_AARCH64@ || arch@ == ARCH_RISCV64@) ==> r is None,
{
    proof {
        reveal_strlit("x86_64");
        reveal_strlit("aarch64");
        reveal_strlit("riscv64");
        assert(ARCH_X86_64@[0] == 'x' && ARCH_AARCH64@[0] == 'a' && ARCH_RISCV64@[0] == 'r');
    }
    if text_eq(arch, ARCH_X86_64) {
        Some("shimx64.efi")
    } else if text_eq(arch, ARCH_AARCH64) {
        Some("shimaa64.efi")
    } else if text_eq(arch, ARCH_RISCV64) {
        Some("shimriscv64.efi")
    } else {
        None
    }
}

/// Why the vendor directory could not be determined.
#[derive(Debug, PartialEq, Eq)]
pub enum VendorError {
    /// No shim in the payload.
    NotFound,
    /// More than one shim in the payload.
    Multiple,
    /// The shim's path has no parent directory name.
    NoParent(String),
}

/// Name of the directory that holds the file at `p`.
pub open spec fn parent_name(p: Seq<char>) -> Seq<char> {
    let d = before_last(p, '/');
    if last_index(d, '/') < 0 {
        d
    } else {
        after_last(d, '/')
    }
}

/// The vendor directory from the paths of the shim files found in the
/// payload: there must be exactly one, and the vendor is the name of its
/// directory.
pub fn get_efi_vendor(shim_paths: &Vec<String>) -> (r: Result<String, VendorError>)
    ensures
        shim_paths@.len() == 0 ==> (r matches Err(VendorError::NotFound)),
        shim_paths@.len() > 1 ==> (r matches Err(VendorError::Multiple)),
        shim_paths@.len() == 1 ==> {
            let p = shim_paths@[0]@;
            if last_index(p, '/') >= 0 && parent_name(p).len() > 0 {
                r matches Ok(v) && v@ == parent_name(p)
            } else {
                r matches Err(VendorError::NoParent(q)) && q@ == p
            }
        },
{
    if shim_paths.len() > 1 {
        return Err(VendorError::Multiple);
    }
    if shim_paths.len() == 0 {
        return Err(VendorError::NotFound);
    }
    let p = shim_paths[0].as_str();
    proof {
        lemma_last_index(p@, '/');
    }
    let l = p.unicode_len();
    let mut j: usize = l;
    while j > 0 && p.get_char(j - 1) != '/'
        invariant
            l == p@.len(),
            j <= l,
            forall|k: int| j <= k < l ==> p@[k] != '/',
        decreases j,
    {
        j = j - 1;
    }
    if j == 0 {
        proof {
            if last_index(p@, '/') >= 0 {
                assert(p@[last_index(p@, '/')] == '/');
            }
        }
        return Err(VendorError::NoParent(p.to_owned()));
    }
    proof {
        assert(p@[j - 1] == '/');
        if last_index(p@, '/') != j - 1 {
            assert(last_index(p@, '/') > j - 1 ==> p@[last_index(p@, '/')] == '/');
        }
        assert(last_index(p@, '/') == j - 1);
    }
    let dir = substring(p, 0, j - 1);
    proof {
        lemma_last_index(dir@, '/');
    }
    let dl = dir.unicode_len();
    let mut k: usize = dl;
    while k > 0 && dir.as_str().get_char(k - 1) != '/'
        invariant
            dl == dir@.len(),
            k <= dl,
            forall|m: int| k <= m < dl ==> dir@[m] != '/',
        decreases k,
    {
        k = k - 1;
    }
    proof {
        if k > 0 {
            assert(dir@[k - 1] == '/');
            if last_index(dir@, '/') > k - 1 {
                assert(dir@[last_index(dir@, '/')] == '/');
            }
            assert(last_index(dir@, '/') == k - 1);
        } else if last_index(dir@, '/') >= 0 {
            assert(dir@[last_index(dir@, '/')] == '/');
        }
    }
    let name = substring(dir.as_str(), k, dl);
    assert(dir@ == before_last(p@, '/'));
    proof {
        if k == 0 {
            assert(dir@.subrange(0, dl as int) =~= dir@);
        }
    }
    if name.unicode_len() == 0 {
        return Err(VendorError::NoParent(p.to_owned()));
    }
    Ok(name)
}

/// Ids of the boot entries whose label is `target`, ignoring case.
pub fn boot_entries_to_clear(entries: &Vec<BootEntry>, target: &str) -> (r: Vec<String>)
    ensures
        views_of(r@) == entries_matching(entry_views(entries@), lower_of(target@)),
{
    let t = to_lowercase(target);
    let ghost ev = entry_views(entries@);
    let mut out: Vec<String> = Vec::new();
    let mut i: usize = 0;
    while i < entries.len()
        invariant
            ev == entry_views(entries@),
            t@ == lower_of(target@),
            i <= ev.len(),
            views_of(out@) == entries_matching(ev.take(i as int), t@),
        decreases ev.len() - i,
    {
        assert(ev.take(i + 1).drop_last() =~= ev.take(i as int));
        assert(ev.take(i + 1).last() == entries@[i as int]@);
        let n = to_lowercase(entries[i].name.as_str());
        if text_eq(n.as_str(), t.as_str()) {
            let ghost before = views_of(out@);
            out.push(entries[i].id.clone());
            assert(views_of(out@) =~= before.push(entries@[i as int].id@));
        }
        i = i + 1;
    }
    assert(ev.take(i as int) =~= ev);
    out
}

/// Ids, in order, of the entries whose lowercased label is `t`.
pub open spec fn entries_matching(es: Seq<(Seq<char>, Seq<char>)>, t: Seq<char>) -> Seq<Seq<char>>
    decreases es.len(),
{
    if es.len() == 0 {
        Seq::empty()
    } else {
        let init = entries_matching(es.drop_last(), t);
        if lower_of(es.last().1) == t {
            init.push(es.last().0)
        } else {
            init
        }
    }
}

/// The loader path the firmware is given: `\EFI\<vendor>\<shim>`.
pub open spec fn loader_path(vendor: Seq<char>, shim: Seq<char>) -> Seq<char> {
    seq!['\\', 'E', 'F', 'I', '\\'] + vendor + seq!['\\'] + shim
}

/// Arguments of `efibootmgr` that create the entry `label` for the shim
/// of `vendor` on partition `partition` (trimmed) of `device`.
pub fn efi_boot_entry_args(device: &str, partition: &str, vendor: &str, shim: &str, label: &str) -> (r: Vec<String>)
    ensures
        views_of(r@) == seq![
            "--create"@,
            "--disk"@,
            device@,
            "--part"@,
            trim_spec(partition@),
            "--loader"@,
            loader_path(vendor@, shim@),
            "--label"@,
            label@,
        ],
{
    proof {
        reveal_strlit("\\EFI\\");
        reveal_strlit("\\");
        assert("\\EFI\\"@ =~= seq!['\\', 'E', 'F', 'I', '\\']);
        assert("\\"@ =~= seq!['\\']);
    }
    let a = concat("\\EFI\\", vendor);
    let b = concat(a.as_str(), "\\");
    let loader = concat(b.as_str(), shim);
    let mut v: Vec<String> = Vec::new();
    v.push("--create".to_owned());
    v.push("--disk".to_owned());
    v.push(device.to_owned());
    v.push("--part".to_owned());
    v.push(trim(partition));
    v.push("--loader".to_owned());
    v.push(loader);
    v.push("--label".to_owned());
    v.push(label.to_owned());
    assert(loader@ =~= loader_path(vendor@, shim@));
    assert(views_of(v@) =~= seq![
        "--create"@,
        "--disk"@,
        device@,
        "--part"@,
        trim_spec(partition@),
        "--loader"@,
        loader_path(vendor@, shim@),
        "--label"@,
        label@,
    ]);
    v
}

/// Why an EFI operation cannot proceed.
#[derive(Debug, PartialEq, Eq)]
pub enum EfiError {
    /// The installed content records no file tree.
    NoFiletree,
    /// No ESP was found on the root's disks.
    NoEsp,
}

/// The changes that update the ESPs from the installed tree to the
/// available one.
pub fn plan_run_update(current: &InstalledContent, update: &FileTree) -> (r: Result<FileTreeDiff, EfiError>)
    requires
        update.wf(),
        current.filetree matches Some(t) ==> t.wf(),
    ensures
        current.filetree is None ==> r == Err::<FileTreeDiff, EfiError>(EfiError::NoFiletree),
        current.filetree matches Some(t) ==> (r matches Ok(d) && is_diff(t@, update@, &d)),
{
    match &current.filetree {
        None => Err(EfiError::NoFiletree),
        Some(t) => Ok(t.diff(update)),
    }
}

/// One message per changed file, then one per removed file.
pub open spec fn diff_messages(d: &FileTreeDiff) -> Seq<Seq<char>> {
    texts(d.changes@).map_values(|f: Seq<char>| "Changed: "@ + f) + texts(d.removals@).map_values(
        |f: Seq<char>| "Removed: "@ + f,
    )
}

pub open spec fn all_messages(ds: Seq<FileTreeDiff>) -> Seq<Seq<char>>
    decreases ds.len(),
{
    if ds.len() == 0 {
        Seq::empty()
    } else {
        all_messages(ds.drop_last()) + diff_messages(&ds.last())
    }
}

fn push_prefixed(out: &mut Vec<String>, prefix: &str, files: &Vec<String>)
    ensures
        views_of(final(out)@) == views_of(old(out)@) + texts(files@).map_values(|f: Seq<char>| prefix@ + f),
{
    let ghost start = views_of(out@);
    let mut i: usize = 0;
    while i < files.len()
        invariant
            i <= files@.len(),
            views_of(out@) == start + texts(files@.take(i as int)).map_values(|f: Seq<char>| prefix@ + f),
        decreases files@.len() - i,
    {
        let ghost before = views_of(out@);
        out.push(concat(prefix, files[i].as_str()));
        assert(views_of(out@) =~= before.push(prefix@ + files@[i as int]@));
        assert(texts(files@.take(i + 1)).map_values(|f: Seq<char>| prefix@ + f) =~= texts(files@.take(i as int)).map_values(|f: Seq<char>| prefix@ + f).push(prefix@ + files@[i as int]@));
        i = i + 1;
    }
    assert(files@.take(i as int) =~= files@);
}

/// The outcome of validating installed EFI content against the files on
/// each ESP (`esp_diffs`, one relative diff per ESP; `None` when there is no
/// ESP): skipped on a system that neither booted through EFI nor has an
/// ESP; otherwise valid unless a file changed or went missing.
pub fn validate_efi(efi_booted: bool, current: &InstalledContent, esp_diffs: Option<Vec<FileTreeDiff>>) -> (r: Result<ValidationResult, EfiError>)
    ensures
        (!efi_booted && esp_diffs is None) ==> r == Ok::<ValidationResult, EfiError>(ValidationResult::Skip),
        !(!efi_booted && esp_diffs is None) && current.filetree is None ==> r == Err::<ValidationResult, EfiError>(EfiError::NoFiletree),
        !(!efi_booted && esp_diffs is None) && current.filetree is Some ==> {
            let msgs = match esp_diffs {
                Some(ds) => all_messages(ds@),
                None => Seq::empty(),
            };
            if msgs.len() == 0 {
                r == Ok::<ValidationResult, EfiError>(ValidationResult::Valid)
            } else {
                r matches Ok(ValidationResult::Errors(errs)) && views_of(errs@) == msgs
            }
        },
{
    if !efi_booted && esp_diffs.is_none() {
        return Ok(ValidationResult::Skip);
    }
    if current.filetree.is_none() {
        return Err(EfiError::NoFiletree);
    }
    let ds = match esp_diffs {
        Some(ds) => ds,
        None => Vec::new(),
    };
    let mut errs: Vec<String> = Vec::new();
    let mut i: usize = 0;
    assert(ds@.take(0) =~= Seq::<FileTreeDiff>::empty());
    while i < ds.len()
        invariant
            i <= ds@.len(),
            views_of(errs@) == all_messages(ds@.take(i as int)),
        decreases ds@.len() - i,
    {
        assert(ds@.take(i + 1).drop_last() =~= ds@.take(i as int));
        assert(ds@.take(i + 1).last() == ds@[i as int]);
        push_prefixed(&mut errs, "Changed: ", &ds[i].changes);
        push_prefixed(&mut errs, "Removed: ", &ds[i].removals);
        assert(views_of(errs@) =~= all_messages(ds@.take(i as int)) + diff_messages(&ds@[i as int]));
        i = i + 1;
    }
    assert(ds@.take(i as int) =~= ds@);
    if errs.len() == 0 {
        Ok(ValidationResult::Valid)
    } else {
        Ok(ValidationResult::Errors(errs))
    }
}

/// Version string of a payload laid out as `usr/lib/efi/<pkg>/<ver>/EFI`:
/// `<pkg>-<ver>` for each directory, joined with ','.
pub open spec fn payload_label(dir: Seq<char>) -> Seq<char> {
    let rest = after_first(dir, '/');
    let rest2 = after_first(after_first(rest, '/'), '/');
    let pkg = before_first(rest2, '/');
    let ver = before_first(after_first(rest2, '/'), '/');
    pkg + seq!['-'] + ver
}

/// The version of the payload directories `dirs` (each relative to the
/// root and below `usr/lib/efi`).
pub fn efi_payload_version(dirs: &Vec<String>) -> (r: String)
    ensures
        r@ == joined(views_of(dirs@).map_values(|d: Seq<char>| payload_label(d)), seq![',']),
{
    let mut labels: Vec<String> = Vec::new();
    let mut i: usize = 0;
    while i < dirs.len()
        invariant
            i <= dirs@.len(),
            views_of(labels@) == views_of(dirs@.take(i as int)).map_values(|d: Seq<char>| payload_label(d)),
        decreases dirs@.len() - i,
    {
        let d = dirs[i].as_str();
        let rest = text_after(d, '/');
        let r1 = text_after(rest.as_str(), '/');
        let rest2 = text_after(r1.as_str(), '/');
        let pkg = text_before(rest2.as_str(), '/');
        let r3 = text_after(rest2.as_str(), '/');
        let ver = text_before(r3.as_str(), '/');
        let a = concat(pkg.as_str(), "-");
        let label = concat(a.as_str(), ver.as_str());
        proof {
            reveal_strlit("-");
            assert("-"@ =~= seq!['-']);
        }
        let ghost before = views_of(labels@);
        labels.push(label);
        assert(views_of(labels@) =~= before.push(payload_label(d@)));
        assert(views_of(dirs@.take(i + 1)).map_values(|d: Seq<char>| payload_label(d)) =~= views_of(dirs@.take(i as int)).map_values(|d: Seq<char>| payload_label(d)).push(payload_label(d@)));
        i = i + 1;
    }
    assert(dirs@.take(i as int) =~= dirs@);
    proof {
        reveal_strlit(",");
        assert(","@ =~= seq![',']);
    }
    join(&labels, ",")
}



/// Where an ESP may already be mounted below a root, in the order they are
/// tried.
pub open spec fn esp_mounts_spec(root: Seq<char>) -> Seq<Seq<char>> {
    seq![path_join(root, "boot/efi"@), path_join(root, "efi"@), path_join(root, "boot"@)]
}

/// The well-known ESP mount points below `root`.
pub fn esp_mount_candidates(root: &str) -> (r: Vec<String>)
    ensures
        views_of(r@) == esp_mounts_spec(root@),
{
    let mut v: Vec<String> = Vec::new();
    v.push(join_path(root, "boot/efi"));
    v.push(join_path(root, "efi"));
    v.push(join_path(root, "boot"));
    assert(views_of(v@) =~= esp_mounts_spec(root@));
    v
}

/// The ESP mount point a component holds: `None` while unmounted.
#[derive(Debug)]
pub struct EspMount {
    pub mountpoint: Option<String>,
}

impl EspMount {
    pub fn unmounted() -> (r: EspMount)
        ensures
            r.mountpoint is None,
    {
        EspMount { mountpoint: None }
    }

    /// Records that the ESP is mounted (found mounted, or mounted by us) at
    /// `path`.
    pub fn set_mounted(&mut self, path: String)
        ensures
            final(self).mountpoint == Some(path),
    {
        self.mountpoint = Some(path);
    }

    /// The mount point to unmount, leaving the state unmounted.
    pub fn take_for_unmount(&mut self) -> (r: Option<String>)
        ensures
            r == old(self).mountpoint,
            final(self).mountpoint is None,
    {
        self.mountpoint.take()
    }
}

/// Where sysfs gives the partition number of the block device `source`:
/// `/sys/class/block/<name>/partition`, `<name>` being what follows the
/// last '/'; `None` when `source` has no '/'.
pub fn partition_sysfs_path(source: &str) -> (r: Option<String>)
    ensures
        last_index(source@, '/') < 0 ==> r is None,
        last_index(source@, '/') >= 0 ==> (r matches Some(p) && p@ == "/sys/class/block/"@ + after_last(
            source@,
            '/',
        ) + "/partition"@),
{
    match text_after_last(source, '/') {
        None => None,
        Some(name) => {
            let a = concat("/sys/class/block/", name.as_str());
            Some(concat(a.as_str(), "/partition"))
        },
    }
}

/// Whether the file at `p` is named `shim`.
pub open spec fn is_shim_path(p: Seq<char>, shim: Seq<char>) -> bool {
    p == shim || ends_with(p, seq!['/'] + shim)
}

/// The vendor the shim paths name: their directory, when there is exactly
/// one path and it has a named directory.
pub open spec fn vendor_of(paths: Seq<Seq<char>>) -> Option<Seq<char>> {
    if paths.len() == 1 && last_index(paths[0], '/') >= 0 && parent_name(paths[0]).len() > 0 {
        Some(parent_name(paths[0]))
    } else {
        None
    }
}

pub open spec fn shim_paths_of(t: crate::filetree::TreeModel, shim: Seq<char>) -> Seq<Seq<char>> {
    tree_paths(t).filter(|p: Seq<char>| is_shim_path(p, shim))
}

/// The paths of `tree` whose file is named `shim`, in path order.
pub fn tree_shim_paths(tree: &FileTree, shim: &str) -> (r: Vec<String>)
    ensures
        views_of(r@) == shim_paths_of(tree@, shim@),
{
    let ghost tp = tree_paths(tree@);
    let ghost f = |p: Seq<char>| is_shim_path(p, shim@);
    let suffix = concat("/", shim);
    proof {
        reveal_strlit("/");
        assert("/"@ =~= seq!['/']);
    }
    let mut out: Vec<String> = Vec::new();
    let mut i: usize = 0;
    while i < tree.children.len()
        invariant
            tp == tree_paths(tree@),
            f == (|p: Seq<char>| is_shim_path(p, shim@)),
            suffix@ == seq!['/'] + shim@,
            i <= tp.len(),
            views_of(out@) == tp.take(i as int).filter(f),
        decreases tp.len() - i,
    {
        let ghost pre = tp.take(i as int);
        let n = tree.children[i].name.as_str();
        assert(tp[i as int] == n@);
        assert(tp.take(i + 1) =~= pre.push(n@));
        proof {
            pre.lemma_filter_push(n@, f);
        }
        if text_eq(n, shim) || text_ends_with(n, suffix.as_str()) {
            let ghost before = views_of(out@);
            out.push(n.to_owned());
            assert(views_of(out@) =~= before.push(n@));
        }
        i = i + 1;
    }
    assert(tp.take(i as int) =~= tp);
    out
}

/// When the vendor directory of the payload changes with an update: the old
/// and the new vendor, both read from the shims of the installed and the
/// available trees.
pub fn vendor_change(current: &FileTree, update: &FileTree, shim: &str) -> (r: Option<(String, String)>)
    ensures
        match r {
            Some((o, n)) => vendor_of(shim_paths_of(current@, shim@)) == Some(o@) && vendor_of(
                shim_paths_of(update@, shim@),
            ) == Some(n@) && o@ != n@,
            None => !(vendor_of(shim_paths_of(current@, shim@)) is Some && vendor_of(
                shim_paths_of(update@, shim@),
            ) is Some && vendor_of(shim_paths_of(current@, shim@)) != vendor_of(
                shim_paths_of(update@, shim@),
            )),
        },
{
    let old_paths = tree_shim_paths(current, shim);
    let new_paths = tree_shim_paths(update, shim);
    let old = get_efi_vendor(&old_paths);
    let new = get_efi_vendor(&new_paths);
    match (old, new) {
        (Ok(o), Ok(n)) => {
            if text_eq(o.as_str(), n.as_str()) {
                None
            } else {
                Some((o, n))
            }
        },
        _ => None,
    }
}

/// Firmware boot entries are rewritten only on an EFI-booted system whose
/// EFI variable filesystem is writable and not empty.
pub fn firmware_update_allowed(efi_booted: bool, efivars_writable: bool, efivars_nonempty: bool) -> (r: bool)
    ensures
        r == (efi_booted && efivars_writable && efivars_nonempty),
{
    efi_booted && efivars_writable && efivars_nonempty
}

} // verus!
