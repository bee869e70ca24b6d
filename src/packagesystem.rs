//! Package identities (NEVRA strings) and the order used to decide upgrades.
use vstd::prelude::*;
use vstd::string::*;
use core::cmp::Ordering;
use crate::text::{
    seq_cmp, ends_with, first_index, before_first, after_first, before_last,
    after_last, split_on, cmp_text, text_ends_with, find_char, substring,
    split_by, lemma_seq_cmp_equal, lemma_first_index, lemma_seq_cmp_reverse,
    lemma_seq_cmp_transitive,
};
use vstd::seq_lib::{lemma_seq_concat_contains_all_elements, lemma_seq_contains_after_push};
use crate::model::{ContentMetadata, MetaModel, Timestamp, ts_le};
use crate::named::{Named, named_views, lookup, names_sorted, upsert_sorted, lemma_sorted_unique, lemma_lookup_at, lemma_lookup_absent};
use crate::text::{joined, views_of, words_of, split_whitespace, join, text_before, text_after, text_eq};

verus! {

/// A package name with its `epoch:version-release`.
#[derive(Debug, PartialEq, Eq)]
pub struct Module {
    pub name: String,
    pub rpm_evr: String,
}

/// What a [`Module`] holds, as character sequences.
pub struct ModuleModel {
    pub name: Seq<char>,
    pub rpm_evr: Seq<char>,
}

impl View for Module {
    type V = ModuleModel;

    open spec fn view(&self) -> ModuleModel {
        ModuleModel { name: self.name@, rpm_evr: self.rpm_evr@ }
    }
}

pub open spec fn models(s: Seq<Module>) -> Seq<ModuleModel> {
    s.map_values(|m: Module| m@)
}

/// The UAPI version-format order of two version strings.
pub uninterp spec fn uapi_cmp(a: Seq<char>, b: Seq<char>) -> Ordering;

/// Relies on `Ord for uapi_version::Version` (its `strverscmp`): the outcome
/// depends on the two strings alone.
#[verifier::external_body]
fn uapi_compare(a: &str, b: &str) -> (r: Ordering)
    ensures
        r == uapi_cmp(a@, b@),
{
    uapi_version::Version::from(a).cmp(&uapi_version::Version::from(b))
}

/// Order of modules: by name, then by UAPI version of the EVR. Identical
/// modules are equal.
pub open spec fn module_cmp(x: ModuleModel, y: ModuleModel) -> Ordering {
    let n = seq_cmp(x.name, y.name);
    if n != Ordering::Equal {
        n
    } else if x.rpm_evr == y.rpm_evr {
        Ordering::Equal
    } else {
        uapi_cmp(x.rpm_evr, y.rpm_evr)
    }
}

impl Module {
    /// Orders by name, then by the UAPI version order of `rpm_evr`.
    pub fn cmp(&self, other: &Module) -> (r: Ordering)
        ensures
            r == module_cmp(self@, other@),
    {
        let n = cmp_text(self.name.as_str(), other.name.as_str());
        match n {
            Ordering::Equal => {
                if self.rpm_evr == other.rpm_evr {
                    Ordering::Equal
                } else {
                    uapi_compare(self.rpm_evr.as_str(), other.rpm_evr.as_str())
                }
            },
            _ => n,
        }
    }

    /// Whether both fields are identical.
    pub fn same(&self, other: &Module) -> (r: bool)
        ensures
            r == (self@ == other@),
    {
        self.name == other.name && self.rpm_evr == other.rpm_evr
    }

    pub fn duplicate(&self) -> (r: Module)
        ensures
            r@ == self@,
    {
        Module { name: self.name.clone(), rpm_evr: self.rpm_evr.clone() }
    }
}

/// Name part of a NEVRA: the string is cut at its last '.', then twice at
/// its last '-'.
pub open spec fn nevra_name(s: Seq<char>) -> Seq<char> {
    before_last(before_last(before_last(s, '.'), '-'), '-')
}

/// `[epoch:]version-release` of a NEVRA; the epoch is what precedes the
/// first ':' of the version part.
pub open spec fn nevra_evr(s: Seq<char>) -> Seq<char> {
    let nevr = before_last(s, '.');
    let release = after_last(nevr, '-');
    let ve = after_last(before_last(nevr, '-'), '-');
    let has_epoch = first_index(ve, ':') >= 0;
    let epoch = if has_epoch {
        before_first(ve, ':')
    } else {
        Seq::empty()
    };
    let version = if has_epoch {
        after_first(ve, ':')
    } else {
        ve
    };
    (if epoch.len() > 0 {
        epoch.push(':')
    } else {
        Seq::empty()
    }) + version + seq!['-'] + release
}

/// Relies on `rpm_version::Nevra::parse`, `Nevra::name` and the `Display` of
/// `Nevra::evr`, which split the string as `nevra_name` and `nevra_evr` say.
#[verifier::external_body]
fn nevra_name_evr(pkg: &str) -> (r: (String, String))
    ensures
        r.0@ == nevra_name(pkg@),
        r.1@ == nevra_evr(pkg@),
{
    let nevra = rpm_version::Nevra::parse(pkg);
    (nevra.name().to_string(), nevra.evr().to_string())
}

/// Package names whose architecture-specific variants collapse to their
/// first dash-separated word: those whose first word is `grub2` or `shim`.
pub open spec fn is_vendor_prefixed(n: Seq<char>) -> bool {
    before_first(n, '-') == seq!['g', 'r', 'u', 'b', '2'] || before_first(n, '-') == seq!['s', 'h', 'i', 'm']
}

/// How one token of a version string reads as a module.
pub open spec fn parse_evr_spec(pkg: Seq<char>, arch: Seq<char>) -> ModuleModel {
    if !ends_with(pkg, arch) {
        ModuleModel { name: before_first(pkg, '-'), rpm_evr: after_first(pkg, '-') }
    } else {
        let n = nevra_name(pkg);
        ModuleModel {
            name: if is_vendor_prefixed(n) {
                before_first(n, '-')
            } else {
                n
            },
            rpm_evr: nevra_evr(pkg),
        }
    }
}



/// Reads one package token. A token that ends with the host architecture
/// `arch` is a full NEVRA; `grub2` and `shim` variants (such as
/// `grub2-efi-x64`) keep only their first word. Any other token is split at
/// its first '-' into name and EVR.
pub fn parse_evr(pkg: &str, arch: &str) -> (r: Module)
    ensures
        r@ == parse_evr_spec(pkg@, arch@),
{
    if !text_ends_with(pkg, arch) {
        return Module { name: text_before(pkg, '-'), rpm_evr: text_after(pkg, '-') };
    }
    let (n, evr) = nevra_name_evr(pkg);
    proof {
        reveal_strlit("grub2");
        reveal_strlit("shim");
        assert("grub2"@ =~= seq!['g', 'r', 'u', 'b', '2']);
        assert("shim"@ =~= seq!['s', 'h', 'i', 'm']);
    }
    let first = text_before(n.as_str(), '-');
    let vendor = text_eq(first.as_str(), "grub2") || text_eq(first.as_str(), "shim");
    let name = if vendor {
        first
    } else {
        n
    };
    Module { name, rpm_evr: evr }
}

/// `x` placed before the first element of `r` that does not order below it.
pub open spec fn insert_sorted(r: Seq<ModuleModel>, x: ModuleModel) -> Seq<ModuleModel>
    decreases r.len(),
{
    if r.len() == 0 {
        seq![x]
    } else if module_cmp(r[0], x) == Ordering::Less {
        seq![r[0]] + insert_sorted(r.drop_first(), x)
    } else {
        seq![x] + r
    }
}

/// Some module of `r` orders equal to `x`: the same name and an EVR equal
/// in the UAPI order.
pub open spec fn has_equal(r: Seq<ModuleModel>, x: ModuleModel) -> bool {
    exists|i: int| 0 <= i < r.len() && module_cmp(r[i], x) == Ordering::Equal
}

/// `x` added to the sorted list `r` unless a module equal to it is there.
pub open spec fn insert_unique(r: Seq<ModuleModel>, x: ModuleModel) -> Seq<ModuleModel> {
    if has_equal(r, x) {
        r
    } else {
        insert_sorted(r, x)
    }
}

/// The modules of `s` sorted by `module_cmp`, deduplicated by it: a module
/// equal to one already kept (same name, UAPI-equal EVR) is dropped.
pub open spec fn sorted_unique(s: Seq<ModuleModel>) -> Seq<ModuleModel>
    decreases s.len(),
{
    if s.len() == 0 {
        Seq::empty()
    } else {
        insert_unique(sorted_unique(s.drop_last()), s.last())
    }
}

pub open spec fn parse_all(toks: Seq<Seq<char>>, arch: Seq<char>) -> Seq<ModuleModel> {
    toks.map_values(|t: Seq<char>| parse_evr_spec(t, arch))
}

/// The sorted, deduplicated modules of a comma-separated version string.
pub open spec fn package_list(s: Seq<char>, arch: Seq<char>) -> Seq<ModuleModel> {
    sorted_unique(parse_all(split_on(s, ','), arch))
}

proof fn lemma_insert_sorted_at(r: Seq<ModuleModel>, x: ModuleModel, p: int)
    requires
        0 <= p <= r.len(),
        forall|j: int| 0 <= j < p ==> module_cmp(r[j], x) == Ordering::Less,
        p == r.len() || module_cmp(r[p], x) != Ordering::Less,
    ensures
        insert_sorted(r, x) == r.insert(p, x),
    decreases r.len(),
{
    if r.len() == 0 {
        assert(r.insert(p, x) =~= seq![x]);
    } else if p == 0 {
        assert(r.insert(p, x) =~= seq![x] + r);
    } else {
        let t = r.drop_first();
        assert forall|j: int| 0 <= j < p - 1 implies module_cmp(t[j], x) == Ordering::Less by {
            assert(t[j] == r[j + 1]);
        }
        lemma_insert_sorted_at(t, x, p - 1);
        assert(r.insert(p, x) =~= seq![r[0]] + t.insert(p - 1, x));
    }
}

/// Adds `m` to the sorted list `v` unless a module equal to it is there.
fn insert_module(v: &mut Vec<Module>, m: Module)
    ensures
        models(final(v)@) == insert_unique(models(old(v)@), m@),
{
    let ghost r = models(v@);
    let mut i: usize = 0;
    while i < v.len()
        invariant
            r == models(v@),
            i <= v@.len(),
            forall|j: int| 0 <= j < i ==> module_cmp(r[j], m@) != Ordering::Equal,
        decreases v@.len() - i,
    {
        if matches!(v[i].cmp(&m), Ordering::Equal) {
            assert(module_cmp(r[i as int], m@) == Ordering::Equal);
            return;
        }
        i = i + 1;
    }
    let mut p: usize = 0;
    while p < v.len() && matches!(v[p].cmp(&m), Ordering::Less)
        invariant
            r == models(v@),
            p <= v@.len(),
            forall|j: int| 0 <= j < p ==> module_cmp(r[j], m@) == Ordering::Less,
        decreases v@.len() - p,
    {
        p = p + 1;
    }
    proof {
        lemma_insert_sorted_at(r, m@, p as int);
    }
    let ghost mv = m@;
    v.insert(p, m);
    assert(models(v@) =~= r.insert(p as int, mv));
}

/// Adds `m` to the sorted list `v`, after the modules that order below it.
fn insert_module_sorted(v: &mut Vec<Module>, m: Module)
    ensures
        models(final(v)@) == insert_sorted(models(old(v)@), m@),
{
    let ghost r = models(v@);
    let mut p: usize = 0;
    while p < v.len() && matches!(v[p].cmp(&m), Ordering::Less)
        invariant
            r == models(v@),
            p <= v@.len(),
            forall|j: int| 0 <= j < p ==> module_cmp(r[j], m@) == Ordering::Less,
        decreases v@.len() - p,
    {
        p = p + 1;
    }
    proof {
        lemma_insert_sorted_at(r, m@, p as int);
    }
    let ghost mv = m@;
    v.insert(p, m);
    assert(models(v@) =~= r.insert(p as int, mv));
}

/// The modules of `s` sorted by `module_cmp`, duplicates kept.
pub open spec fn sorted_all(s: Seq<ModuleModel>) -> Seq<ModuleModel>
    decreases s.len(),
{
    if s.len() == 0 {
        Seq::empty()
    } else {
        insert_sorted(sorted_all(s.drop_last()), s.last())
    }
}

/// Parses a comma-separated version string into its sorted, deduplicated
/// modules.
pub fn parse_evr_vec(input: &str, arch: &str) -> (r: Vec<Module>)
    ensures
        models(r@) == package_list(input@, arch@),
{
    let toks = split_by(input, ',');
    let ghost st = split_on(input@, ',');
    let ghost parsed = parse_all(st, arch@);
    let mut out: Vec<Module> = Vec::new();
    let mut k: usize = 0;
    assert(parsed.take(0) =~= Seq::<ModuleModel>::empty());
    while k < toks.len()
        invariant
            toks@.len() == st.len(),
            forall|i: int| 0 <= i < toks@.len() ==> #[trigger] toks@[i]@ == st[i],
            parsed == parse_all(st, arch@),
            parsed.len() == st.len(),
            k <= toks@.len(),
            models(out@) == sorted_unique(parsed.take(k as int)),
        decreases toks@.len() - k,
    {
        let m = parse_evr(toks[k].as_str(), arch);
        assert(parsed.take(k + 1).drop_last() =~= parsed.take(k as int));
        assert(parsed.take(k + 1).last() == m@);
        insert_module(&mut out, m);
        k = k + 1;
    }
    assert(parsed.take(k as int) =~= parsed);
    out
}

/// How two sorted module lists compare: `Less` as soon as any position
/// compares `Less` (an upgrade of any package wins); otherwise the longer
/// list is greater; otherwise `Greater` if any position compares `Greater`.
pub open spec fn slices_cmp(a: Seq<ModuleModel>, b: Seq<ModuleModel>) -> Ordering {
    let n = if a.len() < b.len() {
        a.len()
    } else {
        b.len()
    };
    if exists|i: int| 0 <= i < n && module_cmp(a[i], b[i]) == Ordering::Less {
        Ordering::Less
    } else if a.len() < b.len() {
        Ordering::Less
    } else if a.len() > b.len() {
        Ordering::Greater
    } else if exists|i: int| 0 <= i < n && module_cmp(a[i], b[i]) == Ordering::Greater {
        Ordering::Greater
    } else {
        Ordering::Equal
    }
}

/// Compares two sorted module lists; `Less` means `a` can upgrade to `b`.
pub fn compare_package_slices(a: &[Module], b: &[Module]) -> (r: Ordering)
    ensures
        r == slices_cmp(models(a@), models(b@)),
{
    let ghost ma = models(a@);
    let ghost mb = models(b@);
    let n: usize = if a.len() < b.len() {
        a.len()
    } else {
        b.len()
    };
    let mut has_greater = false;
    let mut i: usize = 0;
    while i < n
        invariant
            ma == models(a@),
            mb == models(b@),
            n == (if a@.len() < b@.len() { a@.len() } else { b@.len() }),
            i <= n,
            forall|j: int| 0 <= j < i ==> module_cmp(ma[j], mb[j]) != Ordering::Less,
            has_greater == exists|j: int| 0 <= j < i && module_cmp(ma[j], mb[j]) == Ordering::Greater,
        decreases n - i,
    {
        let c = a[i].cmp(&b[i]);
        assert(ma[i as int] == a@[i as int]@ && mb[i as int] == b@[i as int]@);
        match c {
            Ordering::Less => {
                return Ordering::Less;
            },
            Ordering::Greater => {
                has_greater = true;
            },
            Ordering::Equal => {},
        }
        i = i + 1;
    }
    if a.len() < b.len() {
        return Ordering::Less;
    }
    if a.len() > b.len() {
        return Ordering::Greater;
    }
    if has_greater {
        Ordering::Greater
    } else {
        Ordering::Equal
    }
}

/// The oracle: equal strings are `Equal`; otherwise both are parsed into
/// sorted module lists, which are compared.
pub open spec fn versions_cmp(a: Seq<char>, b: Seq<char>, arch: Seq<char>) -> Ordering {
    if a == b {
        Ordering::Equal
    } else {
        slices_cmp(package_list(a, arch), package_list(b, arch))
    }
}

/// Compares two comma-joined version strings; `Less` means `a` can upgrade
/// to `b`. `arch` is the host architecture suffix of full NEVRA tokens.
pub fn compare_package_versions(a: &str, b: &str, arch: &str) -> (r: Ordering)
    ensures
        r == versions_cmp(a@, b@, arch@),
{
    proof {
        lemma_seq_cmp_equal(a@, b@);
    }
    if matches!(cmp_text(a, b), Ordering::Equal) {
        return Ordering::Equal;
    }
    let pa = parse_evr_vec(a, arch);
    let pb = parse_evr_vec(b, arch);
    compare_package_slices(pa.as_slice(), pb.as_slice())
}

/// The comma-joined form of a list of tokens.
pub open spec fn join_commas(t: Seq<Seq<char>>) -> Seq<char>
    decreases t.len(),
{
    if t.len() == 0 {
        Seq::empty()
    } else if t.len() == 1 {
        t[0]
    } else {
        join_commas(t.drop_last()) + seq![','] + t.last()
    }
}

pub proof fn lemma_module_cmp_refl(x: ModuleModel)
    ensures
        module_cmp(x, x) == Ordering::Equal,
{
    lemma_seq_cmp_equal(x.name, x.name);
}

proof fn lemma_slices_cmp_refl(u: Seq<ModuleModel>)
    ensures
        slices_cmp(u, u) == Ordering::Equal,
{
    assert forall|i: int| 0 <= i < u.len() implies module_cmp(u[i], u[i]) == Ordering::Equal by {
        lemma_module_cmp_refl(u[i]);
    }
}

proof fn lemma_split_no_sep(t: Seq<char>)
    requires
        !t.contains(','),
    ensures
        split_on(t, ',') == seq![t],
    decreases t.len(),
{
    if t.len() > 0 {
        assert(!t.drop_last().contains(',')) by {
            if t.drop_last().contains(',') {
                let k = choose|k: int| 0 <= k < t.drop_last().len() && t.drop_last()[k] == ',';
                assert(t[k] == ',');
            }
        }
        lemma_split_no_sep(t.drop_last());
        assert(t[t.len() - 1] != ',');
        assert(t.drop_last().push(t.last()) =~= t);
        assert(split_on(t, ',') =~= seq![t]);
    } else {
        assert(t =~= Seq::<char>::empty());
    }
}

/// Splitting `a` followed by ',' and a comma-free `t` gives the pieces of `a`
/// and then `t`.
pub proof fn lemma_split_append(a: Seq<char>, t: Seq<char>)
    requires
        !t.contains(','),
    ensures
        split_on(a + seq![','] + t, ',') == split_on(a, ',').push(t),
    decreases t.len(),
{
    let s = a + seq![','] + t;
    if t.len() == 0 {
        assert(s.drop_last() =~= a);
        assert(t =~= Seq::<char>::empty());
        assert(s =~= a + seq![',']);
    } else {
        assert(!t.drop_last().contains(',')) by {
            if t.drop_last().contains(',') {
                let k = choose|k: int| 0 <= k < t.drop_last().len() && t.drop_last()[k] == ',';
                assert(t[k] == ',');
            }
        }
        lemma_split_append(a, t.drop_last());
        assert(s.drop_last() =~= a + seq![','] + t.drop_last());
        assert(s.last() == t[t.len() - 1]);
        let init = split_on(a, ',').push(t.drop_last());
        assert(t.drop_last().push(s.last()) =~= t);
        assert(init.last() == t.drop_last());
        assert(init.update(init.len() - 1, init.last().push(s.last())) =~= split_on(a, ',').push(t));
    }
}

/// Joining comma-free tokens and splitting again gives the tokens back.
pub proof fn lemma_split_join(t: Seq<Seq<char>>)
    requires
        t.len() > 0,
        forall|i: int| 0 <= i < t.len() ==> !(#[trigger] t[i]).contains(','),
    ensures
        split_on(join_commas(t), ',') == t,
    decreases t.len(),
{
    if t.len() == 1 {
        lemma_split_no_sep(t[0]);
        assert(t =~= seq![t[0]]);
    } else {
        let init = t.drop_last();
        assert forall|i: int| 0 <= i < init.len() implies !(#[trigger] init[i]).contains(',') by {
            assert(init[i] == t[i]);
        }
        lemma_split_join(init);
        assert(!t[t.len() - 1].contains(','));
        lemma_split_append(join_commas(init), t.last());
        assert(init.push(t.last()) =~= t);
    }
}

proof fn lemma_insert_sorted_contains(r: Seq<ModuleModel>, x: ModuleModel, y: ModuleModel)
    ensures
        insert_sorted(r, x).contains(y) <==> (r.contains(y) || y == x),
    decreases r.len(),
{
    if r.len() == 0 {
        assert(insert_sorted(r, x)[0] == x);
    } else if module_cmp(r[0], x) == Ordering::Less {
        let t = r.drop_first();
        lemma_insert_sorted_contains(t, x, y);
        lemma_seq_concat_contains_all_elements(seq![r[0]], insert_sorted(t, x), y);
        lemma_seq_concat_contains_all_elements(seq![r[0]], t, y);
        assert(seq![r[0]] + t =~= r);
        assert(seq![r[0]].contains(y) <==> y == r[0]) by {
            if y == r[0] {
                assert(seq![r[0]][0] == y);
            }
        }
    } else {
        lemma_seq_concat_contains_all_elements(seq![x], r, y);
        assert(seq![x].contains(y) <==> y == x) by {
            if y == x {
                assert(seq![x][0] == y);
            }
        }
    }
}

/// Every module of the deduplicated list comes from its input.
pub proof fn lemma_sorted_unique_sub(s: Seq<ModuleModel>, y: ModuleModel)
    ensures
        sorted_unique(s).contains(y) ==> s.contains(y),
    decreases s.len(),
{
    if s.len() > 0 {
        let r = sorted_unique(s.drop_last());
        lemma_sorted_unique_sub(s.drop_last(), y);
        lemma_insert_sorted_contains(r, s.last(), y);
        lemma_seq_contains_after_push(s.drop_last(), s.last(), y);
        assert(s.drop_last().push(s.last()) =~= s);
    }
}

/// Modules that order equal have the same name.
pub proof fn lemma_equal_same_name(x: ModuleModel, y: ModuleModel)
    ensures
        module_cmp(x, y) == Ordering::Equal ==> x.name == y.name,
{
    lemma_seq_cmp_equal(x.name, y.name);
}

/// With one EVR per package name, deduplication drops only repeats: every
/// module of the input is kept.
pub proof fn lemma_sorted_unique_complete(s: Seq<ModuleModel>, y: ModuleModel)
    requires
        one_evr_per_name(s),
        s.contains(y),
    ensures
        sorted_unique(s).contains(y),
    decreases s.len(),
{
    let init = s.drop_last();
    let x = s.last();
    let r = sorted_unique(init);
    assert(init.push(x) =~= s);
    lemma_seq_contains_after_push(init, x, y);
    assert(one_evr_per_name(init)) by {
        assert forall|i: int, j: int|
            0 <= i < init.len() && 0 <= j < init.len() && #[trigger] init[i].name == #[trigger] init[j].name implies init[i] == init[j] by {
            assert(init[i] == s[i] && init[j] == s[j]);
        }
    }
    if y != x {
        lemma_sorted_unique_complete(init, y);
        lemma_insert_sorted_contains(r, x, y);
    } else if has_equal(r, x) {
        let i = choose|i: int| 0 <= i < r.len() && module_cmp(r[i], x) == Ordering::Equal;
        assert(r.contains(r[i]));
        lemma_sorted_unique_sub(init, r[i]);
        let k = choose|k: int| 0 <= k < init.len() && init[k] == r[i];
        lemma_equal_same_name(r[i], x);
        assert(s[k] == r[i] && s[s.len() - 1] == x);
        assert(r[i] == x);
    } else {
        lemma_insert_sorted_contains(r, x, y);
    }
}

/// Appending a comma and a token whose module orders after the module of
/// every token of `a` gives an upgrade of `a`, of which `a` is a downgrade.
pub proof fn lemma_appended_package_upgrades(a: Seq<char>, t: Seq<char>, arch: Seq<char>)
    requires
        !t.contains(','),
        forall|i: int|
            0 <= i < split_on(a, ',').len() ==> module_cmp(
                parse_evr_spec(#[trigger] split_on(a, ',')[i], arch),
                parse_evr_spec(t, arch),
            ) == Ordering::Less,
    ensures
        versions_cmp(a, a + seq![','] + t, arch) == Ordering::Less,
        versions_cmp(a + seq![','] + t, a, arch) == Ordering::Greater,
{
    let b = a + seq![','] + t;
    let m = parse_evr_spec(t, arch);
    let ps = parse_all(split_on(a, ','), arch);
    lemma_split_append(a, t);
    assert(parse_all(split_on(b, ','), arch) =~= ps.push(m));
    assert(ps.push(m).drop_last() =~= ps);
    let r = sorted_unique(ps);
    assert forall|j: int| 0 <= j < r.len() implies module_cmp(r[j], m) == Ordering::Less by {
        assert(r.contains(r[j]));
        lemma_sorted_unique_sub(ps, r[j]);
        let k = choose|k: int| 0 <= k < ps.len() && ps[k] == r[j];
        assert(ps[k] == parse_evr_spec(split_on(a, ',')[k], arch));
    }
    assert(!has_equal(r, m));
    lemma_insert_sorted_at(r, m, r.len() as int);
    assert(r.insert(r.len() as int, m) =~= r.push(m));
    assert(package_list(b, arch) == r.push(m));
    assert(b.len() > a.len());
    assert(a != b);
    assert forall|i: int| 0 <= i < r.len() implies module_cmp(r[i], r.push(m)[i]) == Ordering::Equal by {
        lemma_module_cmp_refl(r[i]);
    }
    assert forall|i: int| 0 <= i < r.len() implies module_cmp(r.push(m)[i], r[i]) == Ordering::Equal by {
        lemma_module_cmp_refl(r[i]);
    }
}

/// Modules strictly increasing by name.
pub open spec fn name_sorted(r: Seq<ModuleModel>) -> bool {
    forall|i: int, j: int| 0 <= i < j < r.len() ==> seq_cmp(r[i].name, r[j].name) == Ordering::Less
}

/// Modules of `s` with the same name are identical.
pub open spec fn one_evr_per_name(s: Seq<ModuleModel>) -> bool {
    forall|i: int, j: int|
        0 <= i < s.len() && 0 <= j < s.len() && #[trigger] s[i].name == #[trigger] s[j].name ==> s[i] == s[j]
}

proof fn lemma_insert_sorted_name_sorted(r: Seq<ModuleModel>, x: ModuleModel)
    requires
        name_sorted(r),
        forall|j: int| 0 <= j < r.len() ==> r[j].name != x.name,
    ensures
        name_sorted(insert_sorted(r, x)),
    decreases r.len(),
{
    if r.len() == 0 {
    } else if module_cmp(r[0], x) == Ordering::Less {
        let t = r.drop_first();
        lemma_insert_sorted_name_sorted(t, x);
        let res = insert_sorted(r, x);
        let tail = insert_sorted(t, x);
        assert(res == seq![r[0]] + tail);
        lemma_seq_cmp_equal(r[0].name, x.name);
        assert(seq_cmp(r[0].name, x.name) == Ordering::Less);
        assert forall|i: int, j: int| 0 <= i < j < res.len() implies seq_cmp(res[i].name, res[j].name) == Ordering::Less by {
            if i > 0 {
                assert(res[i] == tail[i - 1] && res[j] == tail[j - 1]);
            } else {
                assert(res[j] == tail[j - 1]);
                assert(tail.contains(tail[j - 1]));
                lemma_insert_sorted_contains(t, x, tail[j - 1]);
                if tail[j - 1] != x {
                    let k = choose|k: int| 0 <= k < t.len() && t[k] == tail[j - 1];
                    assert(t[k] == r[k + 1]);
                }
            }
        }
    } else {
        let res = seq![x] + r;
        lemma_seq_cmp_equal(r[0].name, x.name);
        lemma_seq_cmp_reverse(r[0].name, x.name);
        assert(seq_cmp(x.name, r[0].name) == Ordering::Less);
        assert forall|i: int, j: int| 0 <= i < j < res.len() implies seq_cmp(res[i].name, res[j].name) == Ordering::Less by {
            if i > 0 {
                assert(res[i] == r[i - 1] && res[j] == r[j - 1]);
            } else if j > 1 {
                assert(res[j] == r[j - 1]);
                lemma_seq_cmp_transitive(x.name, r[0].name, r[j - 1].name);
            }
        }
    }
}

proof fn lemma_sorted_unique_name_sorted(s: Seq<ModuleModel>)
    requires
        one_evr_per_name(s),
    ensures
        name_sorted(sorted_unique(s)),
    decreases s.len(),
{
    if s.len() > 0 {
        let init = s.drop_last();
        assert(one_evr_per_name(init)) by {
            assert forall|i: int, j: int|
                0 <= i < init.len() && 0 <= j < init.len() && #[trigger] init[i].name == #[trigger] init[j].name implies init[i] == init[j] by {
                assert(init[i] == s[i] && init[j] == s[j]);
            }
        }
        lemma_sorted_unique_name_sorted(init);
        let r = sorted_unique(init);
        let x = s.last();
        if !has_equal(r, x) {
            assert forall|j: int| 0 <= j < r.len() implies r[j].name != x.name by {
                assert(r.contains(r[j]));
                lemma_sorted_unique_sub(init, r[j]);
                let k = choose|k: int| 0 <= k < init.len() && init[k] == r[j];
                assert(s[k] == r[j]);
                if r[j].name == x.name {
                    assert(s[k].name == s[s.len() - 1].name);
                    lemma_module_cmp_refl(x);
                    assert(module_cmp(r[j], x) == Ordering::Equal);
                }
            }
            lemma_insert_sorted_name_sorted(r, x);
        }
    }
}

proof fn lemma_name_sorted_unique(p: Seq<ModuleModel>, q: Seq<ModuleModel>)
    requires
        name_sorted(p),
        name_sorted(q),
        forall|y: ModuleModel| p.contains(y) <==> q.contains(y),
    ensures
        p == q,
    decreases p.len(),
{
    if p.len() == 0 {
        if q.len() > 0 {
            assert(q.contains(q[0]));
        }
        assert(p =~= q);
    } else {
        assert(p.contains(p[0]));
        let k = choose|k: int| 0 <= k < q.len() && q[k] == p[0];
        assert(q.contains(q[0]));
        let l = choose|l: int| 0 <= l < p.len() && p[l] == q[0];
        if k > 0 && l > 0 {
            lemma_seq_cmp_reverse(q[0].name, q[k].name);
        }
        if k > 0 {
            if l == 0 {
                lemma_seq_cmp_equal(q[0].name, q[k].name);
            }
        } else if l > 0 {
            lemma_seq_cmp_equal(p[0].name, p[l].name);
        }
        assert(p[0] == q[0]);
        let pt = p.drop_first();
        let qt = q.drop_first();
        assert forall|y: ModuleModel| pt.contains(y) <==> qt.contains(y) by {
            if pt.contains(y) {
                let i = choose|i: int| 0 <= i < pt.len() && pt[i] == y;
                assert(p[i + 1] == y);
                assert(p.contains(y));
                let j = choose|j: int| 0 <= j < q.len() && q[j] == y;
                if j == 0 {
                    lemma_seq_cmp_equal(p[0].name, p[i + 1].name);
                }
                assert(qt[j - 1] == y);
            }
            if qt.contains(y) {
                let i = choose|i: int| 0 <= i < qt.len() && qt[i] == y;
                assert(q[i + 1] == y);
                assert(q.contains(y));
                let j = choose|j: int| 0 <= j < p.len() && p[j] == y;
                if j == 0 {
                    lemma_seq_cmp_equal(q[0].name, q[i + 1].name);
                }
                assert(pt[j - 1] == y);
            }
        }
        lemma_name_sorted_unique(pt, qt);
        assert(p =~= seq![p[0]] + pt);
        assert(q =~= seq![q[0]] + qt);
    }
}

/// When each package of `b` comes with a single EVR, listing `b`'s tokens in
/// any other order keeps an upgrade from `a` an upgrade.
pub proof fn lemma_upgrade_ignores_token_order(
    a: Seq<char>,
    tb: Seq<Seq<char>>,
    tc: Seq<Seq<char>>,
    arch: Seq<char>,
)
    requires
        tb.len() > 0,
        forall|i: int| 0 <= i < tb.len() ==> !(#[trigger] tb[i]).contains(','),
        tc.to_multiset() == tb.to_multiset(),
        one_evr_per_name(parse_all(tb, arch)),
        versions_cmp(a, join_commas(tb), arch) == Ordering::Less,
    ensures
        versions_cmp(a, join_commas(tc), arch) == Ordering::Less,
{
    tb.to_multiset_ensures();
    tc.to_multiset_ensures();
    assert(tc.len() == tb.len());
    assert forall|y: Seq<char>| #[trigger] tc.contains(y) <==> tb.contains(y) by {
        let ct = tc.to_multiset().count(y);
        let cb = tb.to_multiset().count(y);
        assert(ct == cb);
        assert(tc.contains(y) <==> ct > 0);
        assert(tb.contains(y) <==> cb > 0);
    }
    assert forall|i: int| 0 <= i < tc.len() implies !(#[trigger] tc[i]).contains(',') by {
        assert(tc.contains(tc[i]));
        let k = choose|k: int| 0 <= k < tb.len() && tb[k] == tc[i];
        assert(!tb[k].contains(','));
    }
    lemma_split_join(tb);
    lemma_split_join(tc);
    let pb = parse_all(tb, arch);
    let pc = parse_all(tc, arch);
    assert forall|y: ModuleModel| pb.contains(y) <==> pc.contains(y) by {
        if pb.contains(y) {
            let i = choose|i: int| 0 <= i < pb.len() && pb[i] == y;
            assert(tb.contains(tb[i]));
            assert(tc.contains(tb[i]));
            let j = choose|j: int| 0 <= j < tc.len() && tc[j] == tb[i];
            assert(pc[j] == parse_evr_spec(tc[j], arch));
            assert(pb[i] == parse_evr_spec(tb[i], arch));
            assert(pc.contains(y)) by {
                assert(pc[j] == y);
            }
        }
        if pc.contains(y) {
            let i = choose|i: int| 0 <= i < pc.len() && pc[i] == y;
            assert(tc.contains(tc[i]));
            let j = choose|j: int| 0 <= j < tb.len() && tb[j] == tc[i];
            assert(pb[j] == parse_evr_spec(tb[j], arch));
            assert(pc[i] == parse_evr_spec(tc[i], arch));
            assert(pb.contains(y)) by {
                assert(pb[j] == y);
            }
        }
    }
    assert(one_evr_per_name(pc)) by {
        assert forall|i: int, j: int|
            0 <= i < pc.len() && 0 <= j < pc.len() && #[trigger] pc[i].name == #[trigger] pc[j].name implies pc[i] == pc[j] by {
            assert(pb.contains(pc[i])) by {
                assert(pc.contains(pc[i]));
            }
            assert(pb.contains(pc[j])) by {
                assert(pc.contains(pc[j]));
            }
            let k = choose|k: int| 0 <= k < pb.len() && pb[k] == pc[i];
            let l = choose|l: int| 0 <= l < pb.len() && pb[l] == pc[j];
            assert(pb[k].name == pb[l].name);
        }
    }
    lemma_sorted_unique_name_sorted(pb);
    lemma_sorted_unique_name_sorted(pc);
    assert forall|y: ModuleModel| sorted_unique(pb).contains(y) <==> sorted_unique(pc).contains(y) by {
        lemma_sorted_unique_sub(pb, y);
        lemma_sorted_unique_sub(pc, y);
        if pb.contains(y) {
            lemma_sorted_unique_complete(pb, y);
            lemma_sorted_unique_complete(pc, y);
        }
    }
    lemma_name_sorted_unique(sorted_unique(pb), sorted_unique(pc));
    assert(package_list(join_commas(tb), arch) == package_list(join_commas(tc), arch));
    if a == join_commas(tc) {
        lemma_slices_cmp_refl(package_list(a, arch));
    }
}

/// A package build time given as seconds since the epoch, read as chrono's
/// `%s` format reads it, as UTC seconds and nanoseconds.
pub uninterp spec fn buildtime_of(s: Seq<char>) -> Option<(i64, u32)>;

/// Relies on `chrono::DateTime::parse_from_str` with the format `%s`, and
/// on `timestamp` and `timestamp_subsec_nanos` of the result; the outcome
/// depends on the text alone.
#[verifier::external_body]
fn parse_buildtime(s: &str) -> (r: Option<(i64, u32)>)
    ensures
        r == buildtime_of(s@),
{
    match chrono::DateTime::parse_from_str(s, "%s") {
        Ok(t) => Some((t.timestamp(), t.timestamp_subsec_nanos())),
        Err(_) => None,
    }
}

/// Why the output of an rpm query was refused.
#[derive(Debug, PartialEq, Eq)]
pub enum RpmParseError {
    /// A word without ',' between NEVRA and build time.
    Malformed(String),
    /// A build time that does not read as seconds since the epoch.
    BadBuildtime(String),
    /// No package at all.
    NoPackages,
}

pub open spec fn word_nevra(w: Seq<char>) -> Seq<char> {
    before_first(w, ',')
}

/// A word `nevra,buildtime` whose build time reads.
pub open spec fn word_ok(w: Seq<char>) -> bool {
    first_index(w, ',') >= 0 && buildtime_of(after_first(w, ',')) is Some
}

pub open spec fn word_time(w: Seq<char>) -> Timestamp {
    let t = buildtime_of(after_first(w, ','))->0;
    Timestamp { secs: t.0, nanos: t.1 }
}

/// Build time of the last word for the package `n`.
pub open spec fn last_time(ws: Seq<Seq<char>>, n: Seq<char>) -> Option<Timestamp>
    decreases ws.len(),
{
    if ws.len() == 0 {
        None
    } else if word_nevra(ws.last()) == n {
        Some(word_time(ws.last()))
    } else {
        last_time(ws.drop_last(), n)
    }
}

pub open spec fn strings_sorted(k: Seq<Seq<char>>) -> bool {
    forall|i: int, j: int| 0 <= i < j < k.len() ==> seq_cmp(k[i], k[j]) == Ordering::Less
}

/// `m` is the metadata of the packages named by the words `ws`: `k` lists
/// them once each, sorted; the version joins them with ','; the modules are
/// theirs, sorted; the timestamp is the latest build time.
pub open spec fn rpm_meta_with(ws: Seq<Seq<char>>, m: MetaModel, arch: Seq<char>, k: Seq<Seq<char>>) -> bool {
    &&& strings_sorted(k)
    &&& forall|n: Seq<char>| k.contains(n) <==> last_time(ws, n) is Some
    &&& m.version == joined(k, seq![','])
    &&& m.versions == Some(sorted_all(k.map_values(|n: Seq<char>| parse_evr_spec(n, arch))))
    &&& forall|n: Seq<char>| k.contains(n) ==> ts_le(last_time(ws, n)->0, m.timestamp)
    &&& exists|n: Seq<char>| k.contains(n) && last_time(ws, n) == Some(m.timestamp)
}

/// Reads the output of `rpm -q --queryformat "%{nevra},%{buildtime} "`.
pub fn rpm_parse_metadata(stdout: &str, arch: &str) -> (r: Result<ContentMetadata, RpmParseError>)
    ensures
        r is Ok <==> (words_of(stdout@).len() > 0 && forall|i: int| 0 <= i < words_of(stdout@).len() ==> word_ok(#[trigger] words_of(stdout@)[i])),
        r matches Ok(m) ==> exists|k: Seq<Seq<char>>| rpm_meta_with(words_of(stdout@), m@, arch@, k),
        r matches Err(RpmParseError::Malformed(w)) ==> words_of(stdout@).contains(w@) && first_index(w@, ',') < 0,
        r matches Err(RpmParseError::BadBuildtime(w)) ==> words_of(stdout@).contains(w@) && !word_ok(w@),
        r matches Err(RpmParseError::NoPackages) ==> words_of(stdout@).len() == 0,
{
    let ws = split_whitespace(stdout);
    let ghost wv = views_of(ws@);
    let mut map: Vec<Named<Timestamp>> = Vec::new();
    let mut i: usize = 0;
    assert(wv.take(0) =~= Seq::<Seq<char>>::empty());
    while i < ws.len()
        invariant
            wv == views_of(ws@),
            wv == words_of(stdout@),
            i <= wv.len(),
            names_sorted(named_views(map@)),
            forall|j: int| 0 <= j < i ==> word_ok(#[trigger] wv[j]),
            forall|n: Seq<char>| #[trigger] lookup(named_views(map@), n) == last_time(wv.take(i as int), n),
        decreases wv.len() - i,
    {
        let w = ws[i].as_str();
        assert(w@ == wv[i as int]);
        assert(wv.take(i + 1).drop_last() =~= wv.take(i as int));
        assert(wv.take(i + 1).last() == w@);
        proof {
            lemma_first_index(w@, ',');
        }
        let l = w.unicode_len();
        match find_char(w, ',') {
            None => {
                assert(wv.contains(w@)) by {
                    assert(wv[i as int] == w@);
                }
                return Err(RpmParseError::Malformed(w.to_owned()));
            },
            Some(c) => {
                let name = substring(w, 0, c);
                let ts = substring(w, c + 1, l);
                match parse_buildtime(ts.as_str()) {
                    None => {
                        assert(wv.contains(w@)) by {
                            assert(wv[i as int] == w@);
                        }
                        return Err(RpmParseError::BadBuildtime(w.to_owned()));
                    },
                    Some((secs, nanos)) => {
                        let ghost before = named_views(map@);
                        upsert_sorted(&mut map, Named { name, value: Timestamp { secs, nanos } });
                        assert forall|n: Seq<char>| #[trigger] lookup(named_views(map@), n) == last_time(wv.take(i + 1), n) by {
                            assert(lookup(named_views(map@), n) == (if n == word_nevra(w@) { Some(word_time(w@)) } else { lookup(before, n) }));
                        }
                    },
                }
            },
        }
        i = i + 1;
    }
    assert(wv.take(i as int) =~= wv);
    let ghost mv = named_views(map@);
    proof {
        lemma_sorted_unique(mv);
    }
    if map.len() == 0 {
        proof {
            if wv.len() > 0 {
                assert(last_time(wv, word_nevra(wv.last())) is Some);
                assert(lookup(mv, word_nevra(wv.last())) is Some);
            }
        }
        return Err(RpmParseError::NoPackages);
    }
    let mut best = map[0].value;
    let mut j: usize = 1;
    assert(mv[0].1 == best);
    while j < map.len()
        invariant
            mv == named_views(map@),
            1 <= j <= mv.len(),
            forall|k: int| 0 <= k < j ==> ts_le(#[trigger] mv[k].1, best),
            exists|k: int| 0 <= k < j && mv[k].1 == best,
        decreases mv.len() - j,
    {
        let t = map[j].value;
        assert(mv[j as int].1 == t);
        if best.secs < t.secs || (best.secs == t.secs && best.nanos < t.nanos) {
            best = t;
        }
        j = j + 1;
    }
    let mut keys: Vec<String> = Vec::new();
    let mut mods: Vec<Module> = Vec::new();
    let mut q: usize = 0;
    while q < map.len()
        invariant
            mv == named_views(map@),
            q <= mv.len(),
            views_of(keys@) == mv.take(q as int).map_values(|e: (Seq<char>, Timestamp)| e.0),
            models(mods@) == sorted_all(views_of(keys@).map_values(|n: Seq<char>| parse_evr_spec(n, arch@))),
        decreases mv.len() - q,
    {
        let key = map[q].name.clone();
        assert(key@ == mv[q as int].0);
        let m = parse_evr(key.as_str(), arch);
        let ghost kv = views_of(keys@);
        insert_module_sorted(&mut mods, m);
        keys.push(key);
        assert(views_of(keys@) =~= kv.push(mv[q as int].0));
        assert(mv.take(q + 1).map_values(|e: (Seq<char>, Timestamp)| e.0) =~= mv.take(q as int).map_values(|e: (Seq<char>, Timestamp)| e.0).push(mv[q as int].0));
        let ghost pk = views_of(keys@).map_values(|n: Seq<char>| parse_evr_spec(n, arch@));
        assert(pk.drop_last() =~= kv.map_values(|n: Seq<char>| parse_evr_spec(n, arch@)));
        q = q + 1;
    }
    assert(mv.take(q as int) =~= mv);
    let version = join(&keys, ",");
    let ghost k = views_of(keys@);
    proof {
        reveal_strlit(",");
        assert(","@ =~= seq![',']);
        assert forall|a: int, b: int| 0 <= a < b < k.len() implies seq_cmp(k[a], k[b]) == Ordering::Less by {
            assert(k[a] == mv[a].0 && k[b] == mv[b].0);
        }
        assert forall|n: Seq<char>| k.contains(n) <==> last_time(wv, n) is Some by {
            if k.contains(n) {
                let a = choose|a: int| 0 <= a < k.len() && k[a] == n;
                assert(k[a] == mv[a].0);
                lemma_lookup_at(mv, a);
            }
            if last_time(wv, n) is Some {
                if !k.contains(n) {
                    assert forall|a: int| 0 <= a < mv.len() implies mv[a].0 != n by {
                        assert(k[a] == mv[a].0);
                    }
                    lemma_lookup_absent(mv, n);
                }
            }
        }
        assert forall|n: Seq<char>| k.contains(n) implies ts_le(last_time(wv, n)->0, best) by {
            let a = choose|a: int| 0 <= a < k.len() && k[a] == n;
            assert(k[a] == mv[a].0);
            lemma_lookup_at(mv, a);
            assert(ts_le(mv[a].1, best));
        }
        let b = choose|b: int| 0 <= b < mv.len() && mv[b].1 == best;
        assert(k[b] == mv[b].0);
        lemma_lookup_at(mv, b);
        assert(k.contains(k[b]) && last_time(wv, k[b]) == Some(best));
    }
    let meta = ContentMetadata { timestamp: best, version, versions: Some(mods) };
    assert(rpm_meta_with(wv, meta@, arch@, k));
    Ok(meta)
}

} // verus!
