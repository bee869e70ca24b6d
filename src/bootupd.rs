//! Orchestration decisions: static GRUB configuration migration, component
//! selection at install time, and what an update run does.
use vstd::prelude::*;
use crate::text::{lines_of, views_of, lines, text_eq, concat, join, joined};
use crate::component::{ComponentKind, kind_name};
use crate::model::{Status, StatusModel, ComponentStatus, ComponentUpdatable, MetaModel, Adoptable};
use crate::named::named_views;

verus! {

/// First line of the block that ostree generates in `grub.cfg`.
pub const OSTREE_BEGIN: &'static str = "### BEGIN /etc/grub.d/15_ostree ###";

/// Last line of the block that ostree generates in `grub.cfg`.
pub const OSTREE_END: &'static str = "### END /etc/grub.d/15_ostree ###";

/// The lines kept outside the ostree block; `skip` holds inside it. Both
/// fences are dropped too.
pub open spec fn kept_lines(ls: Seq<Seq<char>>, skip: bool) -> Seq<Seq<char>>
    decreases ls.len(),
{
    if ls.len() == 0 {
        Seq::empty()
    } else {
        let l = ls[0];
        let rest = ls.drop_first();
        if l == OSTREE_END@ {
            kept_lines(rest, false)
        } else if skip {
            kept_lines(rest, true)
        } else if l == OSTREE_BEGIN@ {
            kept_lines(rest, true)
        } else {
            seq![l] + kept_lines(rest, false)
        }
    }
}

/// Each line followed by a newline.
pub open spec fn render_lines(ls: Seq<Seq<char>>) -> Seq<char>
    decreases ls.len(),
{
    if ls.len() == 0 {
        Seq::empty()
    } else {
        ls[0] + seq!['\n'] + render_lines(ls.drop_first())
    }
}

/// The GRUB configuration without the block between the ostree fences
/// (fences included); every kept line ends with a newline.
pub fn strip_grub_config(content: &str) -> (r: String)
    ensures
        r@ == render_lines(kept_lines(lines_of(content@), false)),
{
    let ls = lines(content);
    let ghost lv = views_of(ls@);
    let mut out = String::new();
    let mut skip = false;
    let mut i: usize = 0;
    assert(lv.skip(0) =~= lv);
    assert(out@ + render_lines(kept_lines(lv, false)) =~= render_lines(kept_lines(lv, false)));
    while i < ls.len()
        invariant
            lv == views_of(ls@),
            i <= lv.len(),
            render_lines(kept_lines(lv, false)) == out@ + render_lines(kept_lines(lv.skip(i as int), skip)),
        decreases lv.len() - i,
    {
        let line = ls[i].as_str();
        let ghost t = lv.skip(i as int);
        assert(t[0] == line@);
        assert(t.drop_first() =~= lv.skip(i + 1));
        if text_eq(line, OSTREE_END) {
            skip = false;
        } else if skip {
        } else if text_eq(line, OSTREE_BEGIN) {
            skip = true;
        } else {
            let ghost before = out@;
            let ghost rest = kept_lines(lv.skip(i + 1), false);
            out.append(line);
            out.append("\n");
            proof {
                reveal_strlit("\n");
                assert("\n"@ =~= seq!['\n']);
                assert((seq![line@] + rest).drop_first() =~= rest);
                assert(out@ + render_lines(rest) =~= before + render_lines(seq![line@] + rest));
            }
        }
        i = i + 1;
    }
    assert(lv.skip(i as int) =~= Seq::<Seq<char>>::empty());
    assert(out@ + Seq::<char>::empty() =~= out@);
    out
}

/// Which static GRUB configuration an install writes.
#[derive(Debug, Clone, Copy, PartialEq, Eq, Structural)]
pub enum ConfigMode {
    Disabled,
    Static,
    WithUUID,
}

impl ConfigMode {
    /// `None` when no static configuration is written; otherwise whether the
    /// boot filesystem UUID is written too.
    pub fn enabled_with_uuid(&self) -> (r: Option<bool>)
        ensures
            r == match *self {
                ConfigMode::Disabled => None::<bool>,
                ConfigMode::Static => Some(false),
                ConfigMode::WithUUID => Some(true),
            },
    {
        match self {
            ConfigMode::Disabled => None,
            ConfigMode::Static => Some(false),
            ConfigMode::WithUUID => Some(true),
        }
    }
}

/// Why an install was refused before anything was written.
#[derive(Debug, PartialEq, Eq)]
pub enum InstallError {
    /// A requested component that this architecture does not have.
    UnknownComponent(String),
    /// The request names no component.
    NoComponents,
}

/// The kind among `all` called `name`.
pub open spec fn kind_named(all: Seq<ComponentKind>, name: Seq<char>) -> Option<ComponentKind>
    decreases all.len(),
{
    if all.len() == 0 {
        None
    } else if kind_name(all[0]) == name {
        Some(all[0])
    } else {
        kind_named(all.drop_first(), name)
    }
}

fn find_kind(all: &Vec<ComponentKind>, name: &str) -> (r: Option<ComponentKind>)
    ensures
        r == kind_named(all@, name@),
{
    let mut i: usize = 0;
    assert(all@.skip(0) =~= all@);
    while i < all.len()
        invariant
            i <= all@.len(),
            kind_named(all@, name@) == kind_named(all@.skip(i as int), name@),
        decreases all@.len() - i,
    {
        assert(all@.skip(i as int)[0] == all@[i as int]);
        if text_eq(all[i].name(), name) {
            return Some(all[i]);
        }
        assert(all@.skip(i as int).drop_first() =~= all@.skip(i + 1));
        i = i + 1;
    }
    None
}

/// The components to install: all known ones, or the requested ones in the
/// order given, each of which must be known.
pub fn select_install_components(all: &Vec<ComponentKind>, targets: Option<&Vec<String>>, auto: bool) -> (r: Result<Vec<ComponentKind>, InstallError>)
    ensures
        targets is None ==> (r matches Ok(v) && v@ == all@),
        targets matches Some(ts) ==> {
            if exists|i: int| 0 <= i < ts@.len() && kind_named(all@, #[trigger] ts@[i]@) is None {
                r matches Err(InstallError::UnknownComponent(n)) && exists|i: int| 0 <= i < ts@.len() && ts@[i]@ == n@ && kind_named(all@, n@) is None
            } else if ts@.len() == 0 && !auto {
                r matches Err(InstallError::NoComponents)
            } else {
                r matches Ok(v) && v@.len() == ts@.len() && forall|i: int| 0 <= i < ts@.len() ==> Some(#[trigger] v@[i]) == kind_named(all@, ts@[i]@)
            }
        },
{
    match targets {
        None => {
            let mut v: Vec<ComponentKind> = Vec::new();
            let mut i: usize = 0;
            while i < all.len()
                invariant
                    i <= all@.len(),
                    v@ == all@.take(i as int),
                decreases all@.len() - i,
            {
                v.push(all[i]);
                assert(v@ =~= all@.take(i + 1));
                i = i + 1;
            }
            assert(all@.take(i as int) =~= all@);
            Ok(v)
        },
        Some(ts) => {
            let mut v: Vec<ComponentKind> = Vec::new();
            let mut i: usize = 0;
            while i < ts.len()
                invariant
                    targets == Some(ts),
                    i <= ts@.len(),
                    v@.len() == i,
                    forall|k: int| 0 <= k < i ==> Some(#[trigger] v@[k]) == kind_named(all@, ts@[k]@),
                decreases ts@.len() - i,
            {
                match find_kind(all, ts[i].as_str()) {
                    Some(k) => {
                        v.push(k);
                    },
                    None => {
                        assert(kind_named(all@, ts@[i as int]@) is None);
                        return Err(InstallError::UnknownComponent(ts[i].clone()));
                    },
                }
                i = i + 1;
            }
            if ts.len() == 0 && !auto {
                return Err(InstallError::NoComponents);
            }
            proof {
                assert forall|k: int| 0 <= k < ts@.len() implies kind_named(all@, #[trigger] ts@[k]@) is Some by {
                    assert(Some(v@[k]) == kind_named(all@, ts@[k]@));
                }
            }
            Ok(v)
        },
    }
}

/// Why a component is left out of an install.
#[derive(Debug, Clone, Copy, PartialEq, Eq, Structural)]
pub enum InstallSkip {
    /// BIOS needs a target disk.
    NoDevice,
    /// The source has no update metadata for it.
    NoMetadata,
}

/// Whether an install skips `kind`: BIOS without a device, or any
/// component without update metadata.
pub fn install_skip(kind: ComponentKind, device: &str, has_update: bool) -> (r: Option<InstallSkip>)
    ensures
        (kind == ComponentKind::Bios && device@.len() == 0) ==> r == Some(InstallSkip::NoDevice),
        !(kind == ComponentKind::Bios && device@.len() == 0) && !has_update ==> r == Some(InstallSkip::NoMetadata),
        !(kind == ComponentKind::Bios && device@.len() == 0) && has_update ==> r is None,
{
    if kind == ComponentKind::Bios && device.unicode_len() == 0 {
        return Some(InstallSkip::NoDevice);
    }
    if !has_update {
        return Some(InstallSkip::NoMetadata);
    }
    None
}

pub open spec fn comp_views(s: &Status) -> Seq<(Seq<char>, StatusModel)> {
    named_views(s.components@)
}

pub open spec fn adopt_views(s: &Status) -> Seq<(Seq<char>, (MetaModel, bool))> {
    named_views(s.adoptable@)
}

/// Names of the upgradable components, then of the confidently adoptable
/// ones.
pub open spec fn available_names(cs: Seq<(Seq<char>, StatusModel)>, ads: Seq<(Seq<char>, (MetaModel, bool))>) -> Seq<Seq<char>> {
    cs.filter(|c: (Seq<char>, StatusModel)| c.1.updatable == ComponentUpdatable::Upgradable).map_values(
        |c: (Seq<char>, StatusModel)| c.0,
    ) + ads.filter(|a: (Seq<char>, (MetaModel, bool))| a.1.1).map_values(|a: (Seq<char>, (MetaModel, bool))| a.0)
}

/// Names of the upgradable components.
pub fn upgradable_components(status: &Status) -> (r: Vec<String>)
    ensures
        views_of(r@) == comp_views(status).filter(|c: (Seq<char>, StatusModel)| c.1.updatable == ComponentUpdatable::Upgradable).map_values(|c: (Seq<char>, StatusModel)| c.0),
{
    let ghost cv = comp_views(status);
    let ghost f = |c: (Seq<char>, StatusModel)| c.1.updatable == ComponentUpdatable::Upgradable;
    let mut out: Vec<String> = Vec::new();
    let mut i: usize = 0;
    while i < status.components.len()
        invariant
            cv == comp_views(status),
            f == (|c: (Seq<char>, StatusModel)| c.1.updatable == ComponentUpdatable::Upgradable),
            i <= cv.len(),
            views_of(out@) == cv.take(i as int).filter(f).map_values(|c: (Seq<char>, StatusModel)| c.0),
        decreases cv.len() - i,
    {
        let ghost pre = cv.take(i as int);
        assert(cv.take(i + 1) =~= pre.push(cv[i as int]));
        proof {
            pre.lemma_filter_push(cv[i as int], f);
        }
        let e = &status.components[i];
        assert(cv[i as int] == e@);
        if e.value.updatable == ComponentUpdatable::Upgradable {
            let ghost before = views_of(out@);
            out.push(e.name.clone());
            assert(views_of(out@) =~= before.push(e.name@));
            assert(pre.filter(f).push(cv[i as int]).map_values(|c: (Seq<char>, StatusModel)| c.0) =~= pre.filter(f).map_values(|c: (Seq<char>, StatusModel)| c.0).push(e.name@));
        }
        i = i + 1;
    }
    assert(cv.take(i as int) =~= cv);
    out
}

/// Names of the components that can be adopted with confidence.
pub fn confident_adoptables(status: &Status) -> (r: Vec<String>)
    ensures
        views_of(r@) == adopt_views(status).filter(|a: (Seq<char>, (MetaModel, bool))| a.1.1).map_values(|a: (Seq<char>, (MetaModel, bool))| a.0),
{
    let ghost av = adopt_views(status);
    let ghost f = |a: (Seq<char>, (MetaModel, bool))| a.1.1;
    let mut out: Vec<String> = Vec::new();
    let mut i: usize = 0;
    while i < status.adoptable.len()
        invariant
            av == adopt_views(status),
            f == (|a: (Seq<char>, (MetaModel, bool))| a.1.1),
            i <= av.len(),
            views_of(out@) == av.take(i as int).filter(f).map_values(|a: (Seq<char>, (MetaModel, bool))| a.0),
        decreases av.len() - i,
    {
        let ghost pre = av.take(i as int);
        assert(av.take(i + 1) =~= pre.push(av[i as int]));
        proof {
            pre.lemma_filter_push(av[i as int], f);
        }
        let e = &status.adoptable[i];
        assert(av[i as int] == e@);
        if e.value.confident {
            let ghost before = views_of(out@);
            out.push(e.name.clone());
            assert(views_of(out@) =~= before.push(e.name@));
            assert(pre.filter(f).push(av[i as int]).map_values(|a: (Seq<char>, (MetaModel, bool))| a.0) =~= pre.filter(f).map_values(|a: (Seq<char>, (MetaModel, bool))| a.0).push(e.name@));
        }
        i = i + 1;
    }
    assert(av.take(i as int) =~= av);
    out
}

/// The line `status --print-if-available` prints: `Updates available: `
/// and the names, space-separated; nothing when there are none.
pub fn updates_available_line(status: &Status) -> (r: Option<String>)
    ensures
        available_names(comp_views(status), adopt_views(status)).len() == 0 ==> r is None,
        available_names(comp_views(status), adopt_views(status)).len() > 0 ==> (r matches Some(l) && l@
            == "Updates available: "@ + joined(available_names(comp_views(status), adopt_views(status)), " "@)),
{
    let mut names = upgradable_components(status);
    let mut more = confident_adoptables(status);
    let ghost a = views_of(names@);
    let ghost b = views_of(more@);
    names.append(&mut more);
    assert(views_of(names@) =~= a + b);
    if names.len() == 0 {
        return None;
    }
    let j = join(&names, " ");
    Some(concat("Updates available: ", j.as_str()))
}

/// What the status report says of the available update.
pub open spec fn update_msg(c: StatusModel) -> Seq<char> {
    match c.updatable {
        ComponentUpdatable::NoUpdateAvailable => "No update found"@,
        ComponentUpdatable::AtLatestVersion => "At latest version"@,
        ComponentUpdatable::WouldDowngrade => "Ignoring downgrade"@,
        ComponentUpdatable::Upgradable => match c.update {
            Some(u) => "Available: "@ + u.version,
            None => "No update found"@,
        },
    }
}

/// The report's lines for one installed component.
pub open spec fn component_lines(name: Seq<char>, c: StatusModel) -> Seq<Seq<char>> {
    seq!["Component "@ + name, "  Installed: "@ + c.installed.version] + (match c.interrupted {
        Some(i) => seq!["  WARNING: Previous update to "@ + i.version + " was interrupted"@],
        None => Seq::empty(),
    }) + seq!["  Update: "@ + update_msg(c)]
}

pub open spec fn all_component_lines(cs: Seq<(Seq<char>, StatusModel)>) -> Seq<Seq<char>>
    decreases cs.len(),
{
    if cs.len() == 0 {
        Seq::empty()
    } else {
        all_component_lines(cs.drop_last()) + component_lines(cs.last().0, cs.last().1)
    }
}

/// The report's line for one adoptable component.
pub open spec fn adopt_line(name: Seq<char>, a: (MetaModel, bool)) -> Seq<char> {
    (if a.1 {
        "Detected: "@
    } else {
        "Adoptable: "@
    }) + name + ": "@ + a.0.version
}

/// The whole status report; `aleph` is the CoreOS aleph version and
/// `boot_method` how the system booted, when known.
pub open spec fn status_lines_spec(
    cs: Seq<(Seq<char>, StatusModel)>,
    ads: Seq<(Seq<char>, (MetaModel, bool))>,
    aleph: Option<Seq<char>>,
    boot_method: Option<Seq<char>>,
) -> Seq<Seq<char>> {
    (if cs.len() == 0 {
        seq!["No components installed."@]
    } else {
        Seq::empty()
    }) + all_component_lines(cs) + (if ads.len() == 0 {
        seq!["No components are adoptable."@]
    } else {
        Seq::empty()
    }) + ads.map_values(|a: (Seq<char>, (MetaModel, bool))| adopt_line(a.0, a.1)) + (match aleph {
        Some(v) => seq!["CoreOS aleph version: "@ + v],
        None => Seq::empty(),
    }) + (match boot_method {
        Some(m) => seq!["Boot method: "@ + m],
        None => Seq::empty(),
    })
}

fn push_component_lines(out: &mut Vec<String>, name: &str, c: &ComponentStatus)
    ensures
        views_of(final(out)@) == views_of(old(out)@) + component_lines(name@, c@),
{
    let ghost start = views_of(out@);
    out.push(concat("Component ", name));
    out.push(concat("  Installed: ", c.installed.version.as_str()));
    let ghost mid = views_of(out@);
    assert(mid =~= start + seq!["Component "@ + name@, "  Installed: "@ + c@.installed.version]);
    match &c.interrupted {
        Some(i) => {
            let a = concat("  WARNING: Previous update to ", i.version.as_str());
            out.push(concat(a.as_str(), " was interrupted"));
        },
        None => {},
    }
    let msg = match c.updatable {
        ComponentUpdatable::NoUpdateAvailable => "No update found".to_owned(),
        ComponentUpdatable::AtLatestVersion => "At latest version".to_owned(),
        ComponentUpdatable::WouldDowngrade => "Ignoring downgrade".to_owned(),
        ComponentUpdatable::Upgradable => match &c.update {
            Some(u) => concat("Available: ", u.version.as_str()),
            None => "No update found".to_owned(),
        },
    };
    assert(msg@ == update_msg(c@));
    out.push(concat("  Update: ", msg.as_str()));
    assert(views_of(out@) =~= views_of(old(out)@) + component_lines(name@, c@));
}

/// The lines of the human-readable status report, in order.
pub fn status_lines(status: &Status, aleph: Option<&str>, boot_method: Option<&str>) -> (r: Vec<String>)
    ensures
        views_of(r@) == status_lines_spec(comp_views(status), adopt_views(status), match aleph {
            Some(v) => Some(v@),
            None => None,
        }, match boot_method {
            Some(m) => Some(m@),
            None => None,
        }),
{
    let ghost cv = comp_views(status);
    let ghost av = adopt_views(status);
    let mut out: Vec<String> = Vec::new();
    if status.components.len() == 0 {
        out.push("No components installed.".to_owned());
    }
    let ghost head = views_of(out@);
    assert(head =~= (if cv.len() == 0 {
        seq!["No components installed."@]
    } else {
        Seq::empty()
    }));
    let mut i: usize = 0;
    assert(cv.take(0) =~= Seq::<(Seq<char>, StatusModel)>::empty());
    assert(views_of(out@) =~= head + all_component_lines(cv.take(0)));
    while i < status.components.len()
        invariant
            cv == comp_views(status),
            i <= cv.len(),
            views_of(out@) == head + all_component_lines(cv.take(i as int)),
        decreases cv.len() - i,
    {
        let e = &status.components[i];
        assert(cv[i as int] == e@);
        assert(cv.take(i + 1).drop_last() =~= cv.take(i as int));
        assert(cv.take(i + 1).last() == e@);
        push_component_lines(&mut out, e.name.as_str(), &e.value);
        assert(views_of(out@) =~= head + all_component_lines(cv.take(i + 1)));
        i = i + 1;
    }
    assert(cv.take(i as int) =~= cv);
    if status.adoptable.len() == 0 {
        out.push("No components are adoptable.".to_owned());
    }
    let ghost mid = views_of(out@);
    assert(mid =~= head + all_component_lines(cv) + (if av.len() == 0 {
        seq!["No components are adoptable."@]
    } else {
        Seq::empty()
    }));
    let mut j: usize = 0;
    while j < status.adoptable.len()
        invariant
            av == adopt_views(status),
            j <= av.len(),
            views_of(out@) == mid + av.take(j as int).map_values(|a: (Seq<char>, (MetaModel, bool))| adopt_line(a.0, a.1)),
        decreases av.len() - j,
    {
        let e = &status.adoptable[j];
        assert(av[j as int] == e@);
        let lead = if e.value.confident {
            "Detected: "
        } else {
            "Adoptable: "
        };
        let a = concat(lead, e.name.as_str());
        let b = concat(a.as_str(), ": ");
        let line = concat(b.as_str(), e.value.version.version.as_str());
        assert(line@ =~= adopt_line(e.name@, e.value@));
        let ghost before = views_of(out@);
        out.push(line);
        assert(views_of(out@) =~= before.push(adopt_line(e.name@, e.value@)));
        assert(av.take(j + 1).map_values(|a: (Seq<char>, (MetaModel, bool))| adopt_line(a.0, a.1)) =~= av.take(j as int).map_values(|a: (Seq<char>, (MetaModel, bool))| adopt_line(a.0, a.1)).push(adopt_line(e.name@, e.value@)));
        j = j + 1;
    }
    assert(av.take(j as int) =~= av);
    let ghost upto_adoptable = views_of(out@);
    if let Some(v) = aleph {
        out.push(concat("CoreOS aleph version: ", v));
    }
    let ghost al0 = match aleph {
        Some(v) => seq!["CoreOS aleph version: "@ + v@],
        None => Seq::<Seq<char>>::empty(),
    };
    assert(views_of(out@) =~= upto_adoptable + al0);
    let ghost upto_aleph = views_of(out@);
    if let Some(m) = boot_method {
        out.push(concat("Boot method: ", m));
    }
    let ghost bm0 = match boot_method {
        Some(m) => seq!["Boot method: "@ + m@],
        None => Seq::<Seq<char>>::empty(),
    };
    assert(views_of(out@) =~= upto_aleph + bm0);
    let ghost al = match aleph {
        Some(v) => Some(v@),
        None => None,
    };
    let ghost bm = match boot_method {
        Some(m) => Some(m@),
        None => None,
    };
    assert(views_of(out@) =~= status_lines_spec(cv, av, al, bm));
    out
}

} // verus!
