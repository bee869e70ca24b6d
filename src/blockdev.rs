//! Partitions of the disks that hold the root filesystem.
use vstd::prelude::*;
use vstd::string::*;
use crate::text::{
    starts_with, trim_start_spec, text_eq, text_starts_with, trim_start, substring, before_first,
    after_first, first_index, find_char, lines, lines_of, views_of, lemma_first_index,
};

verus! {

/// GPT type of an EFI System Partition.
pub const ESP_TYPE_GUID: &'static str = "C12A7328-F81F-11D2-BA4B-00A0C93EC93B";

/// GPT type of a BIOS boot partition.
pub const BIOS_BOOT_TYPE_GUID: &'static str = "21686148-6449-6E6F-744E-656564454649";

/// GPT type of a PowerPC PReP boot partition.
pub const PREPBOOT_GUID: &'static str = "9E1A2D38-C612-4316-AA26-8B49521E5A8B";

/// MBR type of a PowerPC PReP boot partition.
pub const PREPBOOT_MBR_TYPE: &'static str = "41";

/// One entry of a disk's partition table.
#[derive(Debug)]
pub struct Partition {
    /// Device node, such as `/dev/sda2`.
    pub node: String,
    /// Partition type: a GPT type GUID or an MBR type number.
    pub parttype: String,
}

pub open spec fn part_views(v: Seq<Partition>) -> Seq<(Seq<char>, Seq<char>)> {
    v.map_values(|p: Partition| (p.node@, p.parttype@))
}

/// Node of the first partition whose type is `a` or `b`.
pub open spec fn first_of_types(ps: Seq<(Seq<char>, Seq<char>)>, a: Seq<char>, b: Seq<char>) -> Option<Seq<char>>
    decreases ps.len(),
{
    if ps.len() == 0 {
        None
    } else if ps[0].1 == a || ps[0].1 == b {
        Some(ps[0].0)
    } else {
        first_of_types(ps.drop_first(), a, b)
    }
}

/// Node of the first partition of type `t`.
pub open spec fn first_of_type(ps: Seq<(Seq<char>, Seq<char>)>, t: Seq<char>) -> Option<Seq<char>> {
    first_of_types(ps, t, t)
}

/// The first partition of `parts` of type `t`.
pub fn partition_of_type(parts: &Vec<Partition>, t: &str) -> (r: Option<String>)
    ensures
        opt_view(r) == first_of_type(part_views(parts@), t@),
{
    let ghost pv = part_views(parts@);
    let mut i: usize = 0;
    assert(pv.skip(0) =~= pv);
    while i < parts.len()
        invariant
            pv == part_views(parts@),
            i <= parts@.len(),
            first_of_type(pv, t@) == first_of_type(pv.skip(i as int), t@),
        decreases parts@.len() - i,
    {
        assert(pv.skip(i as int)[0] == pv[i as int]);
        if text_eq(parts[i].parttype.as_str(), t) {
            return Some(parts[i].node.clone());
        }
        assert(pv.skip(i as int).drop_first() =~= pv.skip(i + 1));
        i = i + 1;
    }
    None
}

pub open spec fn opt_view(o: Option<String>) -> Option<Seq<char>> {
    match o {
        Some(s) => Some(s@),
        None => None,
    }
}

/// The ESP of a disk, given its partition table.
pub fn get_esp_partition(parts: &Vec<Partition>) -> (r: Option<String>)
    ensures
        opt_view(r) == first_of_type(part_views(parts@), ESP_TYPE_GUID@),
{
    partition_of_type(parts, ESP_TYPE_GUID)
}

/// The BIOS boot partition of a disk, given its partition table.
pub fn get_bios_boot_partition(parts: &Vec<Partition>) -> (r: Option<String>)
    ensures
        opt_view(r) == first_of_type(part_views(parts@), BIOS_BOOT_TYPE_GUID@),
{
    partition_of_type(parts, BIOS_BOOT_TYPE_GUID)
}

/// For each table in turn, its first partition of type `t`, when it has one.
pub open spec fn found_in_tables(tables: Seq<Seq<(Seq<char>, Seq<char>)>>, t: Seq<char>) -> Seq<Seq<char>>
    decreases tables.len(),
{
    if tables.len() == 0 {
        Seq::empty()
    } else {
        let init = found_in_tables(tables.drop_last(), t);
        match first_of_type(tables.last(), t) {
            Some(n) => init.push(n),
            None => init,
        }
    }
}

pub open spec fn table_views(v: Seq<Vec<Partition>>) -> Seq<Seq<(Seq<char>, Seq<char>)>> {
    v.map_values(|t: Vec<Partition>| part_views(t@))
}

pub open spec fn texts_of(v: Seq<String>) -> Seq<Seq<char>> {
    v.map_values(|s: String| s@)
}

/// The partitions of type `t` across disks, one per disk that has one, in
/// disk order; `None` when no disk has one.
pub fn find_colocated(tables: &Vec<Vec<Partition>>, t: &str) -> (r: Option<Vec<String>>)
    ensures
        match r {
            Some(v) => texts_of(v@) == found_in_tables(table_views(tables@), t@) && v@.len() > 0,
            None => found_in_tables(table_views(tables@), t@).len() == 0,
        },
{
    let ghost tv = table_views(tables@);
    let mut found: Vec<String> = Vec::new();
    let mut i: usize = 0;
    while i < tables.len()
        invariant
            tv == table_views(tables@),
            i <= tables@.len(),
            texts_of(found@) == found_in_tables(tv.take(i as int), t@),
        decreases tables@.len() - i,
    {
        assert(tv.take(i + 1).drop_last() =~= tv.take(i as int));
        assert(tv.take(i + 1).last() == part_views(tables@[i as int]@));
        let ghost before = texts_of(found@);
        match partition_of_type(&tables[i], t) {
            Some(n) => {
                found.push(n);
                assert(texts_of(found@) =~= before.push(found@.last()@));
            },
            None => {},
        }
        i = i + 1;
    }
    assert(tv.take(i as int) =~= tv);
    if found.len() == 0 {
        None
    } else {
        Some(found)
    }
}

/// All ESPs on the given disks (one partition table per disk).
pub fn find_colocated_esps(tables: &Vec<Vec<Partition>>) -> (r: Option<Vec<String>>)
    ensures
        match r {
            Some(v) => texts_of(v@) == found_in_tables(table_views(tables@), ESP_TYPE_GUID@) && v@.len() > 0,
            None => found_in_tables(table_views(tables@), ESP_TYPE_GUID@).len() == 0,
        },
{
    find_colocated(tables, ESP_TYPE_GUID)
}

/// All BIOS boot partitions on the given disks.
pub fn find_colocated_bios_boot(tables: &Vec<Vec<Partition>>) -> (r: Option<Vec<String>>)
    ensures
        match r {
            Some(v) => texts_of(v@) == found_in_tables(table_views(tables@), BIOS_BOOT_TYPE_GUID@) && v@.len() > 0,
            None => found_in_tables(table_views(tables@), BIOS_BOOT_TYPE_GUID@).len() == 0,
        },
{
    find_colocated(tables, BIOS_BOOT_TYPE_GUID)
}

/// The device to give the GRUB installer on PowerPC: the disk itself when
/// it has no partitions, else its PReP partition (GPT or MBR type);
/// `None` when there is none.
pub fn target_device(device: &str, has_partitions: bool, parts: &Vec<Partition>) -> (r: Option<String>)
    ensures
        !has_partitions ==> opt_view(r) == Some(device@),
        has_partitions ==> opt_view(r) == first_of_types(part_views(parts@), PREPBOOT_GUID@, PREPBOOT_MBR_TYPE@),
{
    if !has_partitions {
        return Some(device.to_owned());
    }
    let ghost pv = part_views(parts@);
    let mut i: usize = 0;
    assert(pv.skip(0) =~= pv);
    while i < parts.len()
        invariant
            pv == part_views(parts@),
            has_partitions,
            i <= parts@.len(),
            first_of_types(pv, PREPBOOT_GUID@, PREPBOOT_MBR_TYPE@) == first_of_types(pv.skip(i as int), PREPBOOT_GUID@, PREPBOOT_MBR_TYPE@),
        decreases parts@.len() - i,
    {
        assert(pv.skip(i as int)[0] == pv[i as int]);
        let t = parts[i].parttype.as_str();
        if text_eq(t, PREPBOOT_GUID) || text_eq(t, PREPBOOT_MBR_TYPE) {
            return Some(parts[i].node.clone());
        }
        assert(pv.skip(i as int).drop_first() =~= pv.skip(i + 1));
        i = i + 1;
    }
    None
}

/// Whether a device-mapper UUID names a multipath device.
pub fn is_mpath_uuid(uuid: &str) -> (r: bool)
    ensures
        r == starts_with(trim_start_spec(uuid@), seq!['m', 'p', 'a', 't', 'h', '-']),
{
    proof {
        reveal_strlit("mpath-");
        assert("mpath-"@ =~= seq!['m', 'p', 'a', 't', 'h', '-']);
    }
    let t = trim_start(uuid);
    text_starts_with(t.as_str(), "mpath-")
}

/// `s` without its leading characters that are not ASCII digits.
pub open spec fn skip_non_digits(s: Seq<char>) -> Seq<char>
    decreases s.len(),
{
    if s.len() > 0 && !('0' <= s[0] && s[0] <= '9') {
        skip_non_digits(s.drop_first())
    } else {
        s
    }
}

/// The partition number of a multipath ESP: its node with the disk's node
/// and then every non-digit stripped from the front; `None` when the ESP's
/// node does not start with the disk's.
pub fn mpath_partition_number(esp: &str, device: &str) -> (r: Option<String>)
    ensures
        starts_with(esp@, device@) ==> opt_view(r) == Some(skip_non_digits(esp@.subrange(device@.len() as int, esp@.len() as int))),
        !starts_with(esp@, device@) ==> r is None,
{
    if !text_starts_with(esp, device) {
        return None;
    }
    let l = esp.unicode_len();
    let mut i: usize = device.unicode_len();
    assert(esp@.subrange(i as int, l as int) =~= esp@.subrange(device@.len() as int, l as int));
    while i < l && !('0' <= esp.get_char(i) && esp.get_char(i) <= '9')
        invariant
            l == esp@.len(),
            device@.len() <= i <= l,
            skip_non_digits(esp@.subrange(device@.len() as int, l as int)) == skip_non_digits(esp@.subrange(i as int, l as int)),
        decreases l - i,
    {
        assert(esp@.subrange(i as int, l as int).drop_first() =~= esp@.subrange(i + 1, l as int));
        i = i + 1;
    }
    Some(substring(esp, i, l))
}

/// Name and type from a line `NAME="<name>" TYPE="<type>"` of
/// `lsblk --pairs --paths --output NAME,TYPE`.
pub open spec fn lsblk_entry(line: Seq<char>) -> Option<(Seq<char>, Seq<char>)> {
    let name_key = "NAME=\""@;
    if !starts_with(line, name_key) {
        None
    } else {
        let rest = line.subrange(name_key.len() as int, line.len() as int);
        let name = before_first(rest, '"');
        let after = after_first(rest, '"');
        let type_key = " TYPE=\""@;
        if first_index(rest, '"') < 0 || !starts_with(after, type_key) {
            None
        } else {
            Some((name, before_first(after.subrange(type_key.len() as int, after.len() as int), '"')))
        }
    }
}

/// Whole disks found walking the lines of `lsblk --inverse` output from
/// the filesystem's device upwards: each disk or multipath device once, in
/// order, stopping at the first multipath device (its legs are redundant).
pub open spec fn parents_from(ls: Seq<Seq<char>>, acc: Seq<Seq<char>>) -> Seq<Seq<char>>
    decreases ls.len(),
{
    if ls.len() == 0 {
        acc
    } else {
        match lsblk_entry(ls[0]) {
            Some((n, t)) => if t == "disk"@ || t == "mpath"@ {
                let acc2 = if acc.contains(n) {
                    acc
                } else {
                    acc.push(n)
                };
                if t == "mpath"@ {
                    acc2
                } else {
                    parents_from(ls.drop_first(), acc2)
                }
            } else {
                parents_from(ls.drop_first(), acc)
            },
            None => parents_from(ls.drop_first(), acc),
        }
    }
}

fn parse_lsblk_line(line: &str) -> (r: Option<(String, String)>)
    ensures
        match r {
            Some((n, t)) => lsblk_entry(line@) == Some((n@, t@)),
            None => lsblk_entry(line@) is None,
        },
{
    let name_key = "NAME=\"";
    if !text_starts_with(line, name_key) {
        return None;
    }
    let rest = substring(line, name_key.unicode_len(), line.unicode_len());
    proof {
        lemma_first_index(rest@, '"');
    }
    let q = match find_char(rest.as_str(), '"') {
        Some(q) => q,
        None => {
            return None;
        },
    };
    let name = substring(rest.as_str(), 0, q);
    let after = substring(rest.as_str(), q + 1, rest.unicode_len());
    let type_key = " TYPE=\"";
    if !text_starts_with(after.as_str(), type_key) {
        return None;
    }
    let tail = substring(after.as_str(), type_key.unicode_len(), after.unicode_len());
    proof {
        lemma_first_index(tail@, '"');
    }
    let t = match find_char(tail.as_str(), '"') {
        Some(e) => substring(tail.as_str(), 0, e),
        None => tail.as_str().to_owned(),
    };
    Some((name, t))
}

fn contains_text(v: &Vec<String>, s: &str) -> (r: bool)
    ensures
        r == views_of(v@).contains(s@),
{
    let mut i: usize = 0;
    while i < v.len()
        invariant
            i <= v@.len(),
            forall|k: int| 0 <= k < i ==> v@[k]@ != s@,
        decreases v@.len() - i,
    {
        if text_eq(v[i].as_str(), s) {
            assert(views_of(v@)[i as int] == s@);
            return true;
        }
        i = i + 1;
    }
    assert(!views_of(v@).contains(s@)) by {
        if views_of(v@).contains(s@) {
            let k = choose|k: int| 0 <= k < views_of(v@).len() && views_of(v@)[k] == s@;
            assert(v@[k]@ == s@);
        }
    }
    false
}

/// The whole disks that back a device, from the output of
/// `lsblk --pairs --paths --inverse --output NAME,TYPE <device>`.
pub fn parent_devices(lsblk_output: &str) -> (r: Vec<String>)
    ensures
        views_of(r@) == parents_from(lines_of(lsblk_output@), Seq::empty()),
{
    let ls = lines(lsblk_output);
    let ghost lv = views_of(ls@);
    let mut out: Vec<String> = Vec::new();
    let mut i: usize = 0;
    assert(lv.skip(0) =~= lv);
    assert(views_of(out@) =~= Seq::<Seq<char>>::empty());
    while i < ls.len()
        invariant
            lv == views_of(ls@),
            lv == lines_of(lsblk_output@),
            i <= lv.len(),
            parents_from(lv, Seq::empty()) == parents_from(lv.skip(i as int), views_of(out@)),
        decreases lv.len() - i,
    {
        let ghost t0 = lv.skip(i as int);
        assert(t0[0] == ls@[i as int]@);
        assert(t0.drop_first() =~= lv.skip(i + 1));
        let ghost acc0 = views_of(out@);
        match parse_lsblk_line(ls[i].as_str()) {
            Some((n, t)) => {
                let ghost nv = n@;
                let is_mpath = text_eq(t.as_str(), "mpath");
                if is_mpath || text_eq(t.as_str(), "disk") {
                    if !contains_text(&out, n.as_str()) {
                        out.push(n);
                        assert(views_of(out@) =~= acc0.push(nv));
                    }
                    assert(views_of(out@) == (if acc0.contains(nv) { acc0 } else { acc0.push(nv) }));
                    if is_mpath {
                        assert(parents_from(t0, acc0) == views_of(out@));
                        return out;
                    }
                }
            },
            None => {},
        }
        i = i + 1;
    }
    assert(lv.skip(i as int) =~= Seq::<Seq<char>>::empty());
    out
}

} // verus!
