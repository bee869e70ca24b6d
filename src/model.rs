//! Installed and available content, the persisted state and the status
//! derived from them.
use vstd::prelude::*;
use core::cmp::Ordering;
use crate::filetree::{FileTree, TreeModel};
use crate::component::{ComponentKind, kind_name};
use crate::text::text_eq;
use crate::named::{Named, named_views, lookup, unique_names, get_named, set_named, remove_named, lemma_lookup_at};
use crate::packagesystem::{
    Module, ModuleModel, models, slices_cmp, versions_cmp, compare_package_slices,
    compare_package_versions,
};

verus! {

/// An instant, as seconds and nanoseconds since the Unix epoch (UTC).
#[derive(Clone, Copy, Debug, PartialEq, Eq, Structural)]
pub struct Timestamp {
    pub secs: i64,
    pub nanos: u32,
}

impl View for Timestamp {
    type V = Timestamp;

    open spec fn view(&self) -> Timestamp {
        *self
    }
}

/// `a` is not later than `b`.
pub open spec fn ts_le(a: Timestamp, b: Timestamp) -> bool {
    a.secs < b.secs || (a.secs == b.secs && a.nanos <= b.nanos)
}

/// Metadata of one version of a component's content.
#[derive(Debug, PartialEq, Eq)]
pub struct ContentMetadata {
    /// The newest build time of the packages it came from.
    pub timestamp: Timestamp,
    /// Comma-joined package identities; shown, and compared when
    /// `versions` is absent.
    pub version: String,
    /// The same packages as sorted modules.
    pub versions: Option<Vec<Module>>,
}

pub struct MetaModel {
    pub timestamp: Timestamp,
    pub version: Seq<char>,
    pub versions: Option<Seq<ModuleModel>>,
}

impl View for ContentMetadata {
    type V = MetaModel;

    open spec fn view(&self) -> MetaModel {
        MetaModel {
            timestamp: self.timestamp,
            version: self.version@,
            versions: match self.versions {
                Some(v) => Some(models(v@)),
                None => None,
            },
        }
    }
}

pub fn duplicate_modules(v: &Vec<Module>) -> (r: Vec<Module>)
    ensures
        models(r@) == models(v@),
{
    let mut out: Vec<Module> = Vec::new();
    let mut i: usize = 0;
    while i < v.len()
        invariant
            i <= v@.len(),
            models(out@) == models(v@.take(i as int)),
        decreases v@.len() - i,
    {
        let d = v[i].duplicate();
        let ghost before = out@;
        let ghost dv = d@;
        out.push(d);
        assert(v@.take(i + 1) =~= v@.take(i as int).push(v@[i as int]));
        assert(models(out@) =~= models(before).push(dv));
        assert(models(v@.take(i + 1)) =~= models(v@.take(i as int)).push(v@[i as int]@));
        i = i + 1;
    }
    assert(v@.take(i as int) =~= v@);
    out
}

impl ContentMetadata {
    pub fn duplicate(&self) -> (r: ContentMetadata)
        ensures
            r@ == self@,
    {
        let versions = match &self.versions {
            Some(v) => Some(duplicate_modules(v)),
            None => None,
        };
        ContentMetadata { timestamp: self.timestamp, version: self.version.clone(), versions }
    }

    /// `Less` when this content can be upgraded to `target`: the module lists
    /// are compared when both have them, the version strings otherwise.
    pub fn can_upgrade_to(&self, target: &ContentMetadata, arch: &str) -> (r: Ordering)
        ensures
            r == upgrade_cmp(self@, target@, arch@),
    {
        match (&self.versions, &target.versions) {
            (Some(a), Some(b)) => compare_package_slices(a.as_slice(), b.as_slice()),
            _ => compare_package_versions(self.version.as_str(), target.version.as_str(), arch),
        }
    }
}

pub open spec fn upgrade_cmp(from: MetaModel, to: MetaModel, arch: Seq<char>) -> Ordering {
    match (from.versions, to.versions) {
        (Some(a), Some(b)) => slices_cmp(a, b),
        _ => versions_cmp(from.version, to.version, arch),
    }
}

pub open spec fn opt_meta(m: Option<ContentMetadata>) -> Option<MetaModel> {
    match m {
        Some(x) => Some(x@),
        None => None,
    }
}

pub fn duplicate_opt(m: &Option<ContentMetadata>) -> (r: Option<ContentMetadata>)
    ensures
        opt_meta(r) == opt_meta(*m),
{
    match m {
        Some(x) => Some(x.duplicate()),
        None => None,
    }
}

/// How an installed version relates to the available one.
#[derive(Clone, Copy, Debug, PartialEq, Eq, Structural)]
pub enum ComponentUpdatable {
    NoUpdateAvailable,
    AtLatestVersion,
    Upgradable,
    WouldDowngrade,
}

pub open spec fn updatable_spec(from: MetaModel, to: Option<MetaModel>, arch: Seq<char>) -> ComponentUpdatable {
    match to {
        None => ComponentUpdatable::NoUpdateAvailable,
        Some(t) => match upgrade_cmp(from, t, arch) {
            Ordering::Equal => ComponentUpdatable::AtLatestVersion,
            Ordering::Less => ComponentUpdatable::Upgradable,
            Ordering::Greater => ComponentUpdatable::WouldDowngrade,
        },
    }
}

impl ComponentUpdatable {
    pub fn from_metadata(from: &ContentMetadata, to: Option<&ContentMetadata>, arch: &str) -> (r: ComponentUpdatable)
        ensures
            r == updatable_spec(from@, match to {
                Some(t) => Some(t@),
                None => None,
            }, arch@),
    {
        match to {
            Some(t) => match from.can_upgrade_to(t, arch) {
                Ordering::Equal => ComponentUpdatable::AtLatestVersion,
                Ordering::Less => ComponentUpdatable::Upgradable,
                Ordering::Greater => ComponentUpdatable::WouldDowngrade,
            },
            None => ComponentUpdatable::NoUpdateAvailable,
        }
    }
}

/// What is installed for a component.
#[derive(Debug)]
pub struct InstalledContent {
    pub meta: ContentMetadata,
    /// The files written, for file-based components.
    pub filetree: Option<FileTree>,
    /// The synthesized version this content was adopted from.
    pub adopted_from: Option<ContentMetadata>,
}

pub struct InstalledModel {
    pub meta: MetaModel,
    pub filetree: Option<TreeModel>,
    pub adopted_from: Option<MetaModel>,
}

impl View for InstalledContent {
    type V = InstalledModel;

    open spec fn view(&self) -> InstalledModel {
        InstalledModel {
            meta: self.meta@,
            filetree: match self.filetree {
                Some(t) => Some(t@),
                None => None,
            },
            adopted_from: opt_meta(self.adopted_from),
        }
    }
}

/// The persisted record of installed components and updates in progress.
#[derive(Debug)]
pub struct SavedState {
    /// Component name → what is installed.
    pub installed: Vec<Named<InstalledContent>>,
    /// Component name → update in progress.
    pub pending: Option<Vec<Named<ContentMetadata>>>,
    /// The static bootloader configuration version, when enabled.
    pub static_configs: Option<ContentMetadata>,
}

pub open spec fn installed_of(s: &SavedState, name: Seq<char>) -> Option<InstalledModel> {
    lookup(named_views(s.installed@), name)
}

pub open spec fn pending_of(s: &SavedState, name: Seq<char>) -> Option<MetaModel> {
    match s.pending {
        Some(p) => lookup(named_views(p@), name),
        None => None,
    }
}

pub open spec fn static_of(s: &SavedState) -> Option<MetaModel> {
    opt_meta(s.static_configs)
}

/// What the status of one installed component reports.
#[derive(Debug)]
pub struct ComponentStatus {
    /// Currently installed version.
    pub installed: ContentMetadata,
    /// An update that was started and not completed.
    pub interrupted: Option<ContentMetadata>,
    /// The version available in the booted tree.
    pub update: Option<ContentMetadata>,
    pub updatable: ComponentUpdatable,
    /// The version the installed content was adopted from.
    pub adopted_from: Option<ContentMetadata>,
}

pub struct StatusModel {
    pub installed: MetaModel,
    pub interrupted: Option<MetaModel>,
    pub update: Option<MetaModel>,
    pub updatable: ComponentUpdatable,
    pub adopted_from: Option<MetaModel>,
}

impl View for ComponentStatus {
    type V = StatusModel;

    open spec fn view(&self) -> StatusModel {
        StatusModel {
            installed: self.installed@,
            interrupted: opt_meta(self.interrupted),
            update: opt_meta(self.update),
            updatable: self.updatable,
            adopted_from: opt_meta(self.adopted_from),
        }
    }
}

/// The status of `name` in `s` given the available update.
pub open spec fn status_spec(s: &SavedState, name: Seq<char>, update: Option<MetaModel>, arch: Seq<char>) -> Option<StatusModel> {
    match installed_of(s, name) {
        None => None,
        Some(ic) => Some(
            StatusModel {
                installed: ic.meta,
                interrupted: pending_of(s, name),
                update,
                updatable: updatable_spec(ic.meta, update, arch),
                adopted_from: ic.adopted_from,
            },
        ),
    }
}

/// Why a state change was refused.
#[derive(Debug, PartialEq, Eq)]
pub enum StateError {
    NotInstalled,
    AlreadyInstalled,
}

/// Outcome of deciding an update.
#[derive(Debug)]
pub enum ComponentUpdateResult {
    AtLatestVersion,
    Updated { previous: ContentMetadata, interrupted: Option<ContentMetadata>, new: ContentMetadata },
}

/// `new` is `old` with `pending[name]` set to `meta`.
pub open spec fn marks_pending(old: &SavedState, new: &SavedState, name: Seq<char>, meta: MetaModel) -> bool {
    &&& new.wf()
    &&& named_views(new.installed@) == named_views(old.installed@)
    &&& static_of(new) == static_of(old)
    &&& forall|k: Seq<char>| #[trigger] pending_of(new, k) == (if k == name { Some(meta) } else { pending_of(old, k) })
}

impl SavedState {
    /// Names are unique, and every pending update is for an installed
    /// component.
    pub open spec fn wf(&self) -> bool {
        &&& unique_names(named_views(self.installed@))
        &&& match self.pending {
            Some(p) => unique_names(named_views(p@)),
            None => true,
        }
        &&& forall|k: Seq<char>| #[trigger] pending_of(self, k) is Some ==> installed_of(self, k) is Some
    }

    /// A state with nothing installed.
    pub fn new() -> (r: SavedState)
        ensures
            r.wf(),
            r.installed@.len() == 0,
            r.pending is None,
            r.static_configs is None,
    {
        let r = SavedState { installed: Vec::new(), pending: None, static_configs: None };
        assert forall|k: Seq<char>| #[trigger] pending_of(&r, k) is Some implies installed_of(&r, k) is Some by {}
        r
    }

    pub fn get_installed(&self, name: &str) -> (r: Option<&InstalledContent>)
        requires
            self.wf(),
        ensures
            match r {
                Some(x) => installed_of(self, name@) == Some(x@),
                None => installed_of(self, name@) is None,
            },
    {
        get_named(&self.installed, name)
    }

    pub fn get_pending(&self, name: &str) -> (r: Option<&ContentMetadata>)
        requires
            self.wf(),
        ensures
            match r {
                Some(x) => pending_of(self, name@) == Some(x@),
                None => pending_of(self, name@) is None,
            },
    {
        match &self.pending {
            Some(p) => get_named(p, name),
            None => None,
        }
    }

    /// The status of the installed component `name`, given the update
    /// available for it.
    pub fn component_status(&self, name: &str, update: Option<ContentMetadata>, arch: &str) -> (r: Option<ComponentStatus>)
        requires
            self.wf(),
        ensures
            match r {
                Some(st) => status_spec(self, name@, opt_meta(update), arch@) == Some(st@),
                None => status_spec(self, name@, opt_meta(update), arch@) is None,
            },
    {
        match self.get_installed(name) {
            None => None,
            Some(ic) => {
                let updatable = ComponentUpdatable::from_metadata(&ic.meta, update.as_ref(), arch);
                let interrupted = match self.get_pending(name) {
                    Some(m) => Some(m.duplicate()),
                    None => None,
                };
                Some(
                    ComponentStatus {
                        installed: ic.meta.duplicate(),
                        interrupted,
                        update,
                        updatable,
                        adopted_from: duplicate_opt(&ic.adopted_from),
                    },
                )
            },
        }
    }

    /// Decides the update of `name` to `update` and, when it is an upgrade,
    /// records it as pending (the marker that survives an interruption).
    /// Nothing changes unless the result is `Updated`.
    pub fn prepare_update(&mut self, name: &str, update: Option<&ContentMetadata>, arch: &str) -> (r: Result<ComponentUpdateResult, StateError>)
        requires
            old(self).wf(),
        ensures
            final(self).wf(),
            installed_of(old(self), name@) is None ==> r == Err::<ComponentUpdateResult, StateError>(StateError::NotInstalled),
            installed_of(old(self), name@) matches Some(ic) ==> match update {
                Some(u) if upgrade_cmp(ic.meta, u@, arch@) == Ordering::Less => r matches Ok(ComponentUpdateResult::Updated { previous, interrupted, new }) && previous@ == ic.meta && opt_meta(interrupted) == pending_of(old(self), name@) && new@ == u@ && marks_pending(old(self), final(self), name@, u@),
                _ => r matches Ok(ComponentUpdateResult::AtLatestVersion),
            },
            !(r matches Ok(ComponentUpdateResult::Updated { .. })) ==> *final(self) == *old(self),
    {
        let ghost s0 = *self;
        let (previous, interrupted) = match self.get_installed(name) {
            None => {
                return Err(StateError::NotInstalled);
            },
            Some(ic) => {
                let interrupted = match self.get_pending(name) {
                    Some(m) => Some(m.duplicate()),
                    None => None,
                };
                (ic.meta.duplicate(), interrupted)
            },
        };
        let u = match update {
            Some(u) => u,
            None => {
                return Ok(ComponentUpdateResult::AtLatestVersion);
            },
        };
        if !matches!(previous.can_upgrade_to(u, arch), Ordering::Less) {
            return Ok(ComponentUpdateResult::AtLatestVersion);
        }
        let mut pend = match self.pending.take() {
            Some(p) => p,
            None => Vec::new(),
        };
        proof {
            assert(unique_names(named_views(pend@)));
        }
        set_named(&mut pend, name.to_owned(), u.duplicate());
        self.pending = Some(pend);
        proof {
            assert forall|k: Seq<char>| #[trigger] pending_of(self, k) is Some implies installed_of(self, k) is Some by {
                if k != name@ {
                    assert(pending_of(self, k) == pending_of(&s0, k));
                }
            }
            assert forall|k: Seq<char>| #[trigger] pending_of(self, k) == (if k == name@ { Some(u@) } else { pending_of(&s0, k) }) by {}
        }
        Ok(ComponentUpdateResult::Updated { previous, interrupted, new: u.duplicate() })
    }

    /// Records the completed update of `name`: `installed[name]` becomes
    /// `content` and its pending marker is dropped.
    pub fn finish_update(&mut self, name: &str, content: InstalledContent)
        requires
            old(self).wf(),
        ensures
            final(self).wf(),
            static_of(final(self)) == static_of(old(self)),
            forall|k: Seq<char>| #[trigger] installed_of(final(self), k) == (if k == name@ { Some(content@) } else { installed_of(old(self), k) }),
            forall|k: Seq<char>| #[trigger] pending_of(final(self), k) == (if k == name@ { None } else { pending_of(old(self), k) }),
    {
        let ghost s0 = *self;
        let ghost cv = content@;
        set_named(&mut self.installed, name.to_owned(), content);
        match self.pending.take() {
            Some(mut p) => {
                remove_named(&mut p, name);
                self.pending = Some(p);
            },
            None => {},
        }
        proof {
            assert forall|k: Seq<char>| #[trigger] pending_of(self, k) == (if k == name@ { None } else { pending_of(&s0, k) }) by {}
            assert forall|k: Seq<char>| #[trigger] installed_of(self, k) == (if k == name@ { Some(cv) } else { installed_of(&s0, k) }) by {}
            assert forall|k: Seq<char>| #[trigger] pending_of(self, k) is Some implies installed_of(self, k) is Some by {
                if k != name@ {
                    assert(pending_of(self, k) == pending_of(&s0, k));
                }
            }
        }
    }

    /// Records a newly installed or adopted component; refused when it is
    /// already installed.
    pub fn add_installed(&mut self, name: &str, content: InstalledContent) -> (r: Result<(), StateError>)
        requires
            old(self).wf(),
        ensures
            final(self).wf(),
            installed_of(old(self), name@) is Some <==> r is Err,
            r is Err ==> *final(self) == *old(self),
            r is Ok ==> forall|k: Seq<char>| #[trigger] installed_of(final(self), k) == (if k == name@ { Some(content@) } else { installed_of(old(self), k) }),
            r is Ok ==> forall|k: Seq<char>| #[trigger] pending_of(final(self), k) == pending_of(old(self), k),
    {
        if self.get_installed(name).is_some() {
            return Err(StateError::AlreadyInstalled);
        }
        let ghost s0 = *self;
        let ghost cv = content@;
        set_named(&mut self.installed, name.to_owned(), content);
        proof {
            assert forall|k: Seq<char>| #[trigger] installed_of(self, k) == (if k == name@ { Some(cv) } else { installed_of(&s0, k) }) by {}
            assert forall|k: Seq<char>| #[trigger] pending_of(self, k) is Some implies installed_of(self, k) is Some by {
                assert(pending_of(self, k) == pending_of(&s0, k));
            }
        }
        Ok(())
    }
}

/// An update interrupted after its pending marker was written is reported
/// by status with the pending version as interrupted and the version
/// installed before the update as installed.
pub proof fn lemma_interrupted_update_reported(
    before: &SavedState,
    after: &SavedState,
    name: Seq<char>,
    update: MetaModel,
    available: Option<MetaModel>,
    arch: Seq<char>,
)
    requires
        before.wf(),
        installed_of(before, name) is Some,
        marks_pending(before, after, name, update),
    ensures
        status_spec(after, name, available, arch) matches Some(st) && st.interrupted == Some(update)
            && st.installed == installed_of(before, name)->0.meta,
{
    assert(pending_of(after, name) == Some(update));
}

/// A component that looks installed by other means, with a synthesized
/// version.
#[derive(Debug)]
pub struct Adoptable {
    pub version: ContentMetadata,
    /// Whether the system can likely be updated reliably.
    pub confident: bool,
}

impl View for Adoptable {
    type V = (MetaModel, bool);

    open spec fn view(&self) -> (MetaModel, bool) {
        (self.version@, self.confident)
    }
}

/// The state of every known component: installed ones, and those that look
/// installed by other means.
#[derive(Debug)]
pub struct Status {
    pub components: Vec<Named<ComponentStatus>>,
    pub adoptable: Vec<Named<Adoptable>>,
}

impl Adoptable {
    pub fn duplicate(&self) -> (r: Adoptable)
        ensures
            r@ == self@,
    {
        Adoptable { version: self.version.duplicate(), confident: self.confident }
    }
}

/// Why no status could be given.
#[derive(Debug, PartialEq, Eq)]
pub enum StatusError {
    /// The state records a component this system does not know.
    UnknownComponent(String),
}

/// Position in `known` of the component called `name`.
pub open spec fn known_index(known: Seq<ComponentKind>, name: Seq<char>) -> int
    decreases known.len(),
{
    if known.len() == 0 {
        -1
    } else if kind_name(known.last()) == name {
        known.len() - 1
    } else {
        known_index(known.drop_last(), name)
    }
}

/// The components not installed that have an update, each with the
/// adoptable version, in the order of `known`; none when nothing looks
/// adoptable.
pub open spec fn adoptable_spec(
    s: &SavedState,
    known: Seq<ComponentKind>,
    updates: Seq<Option<ContentMetadata>>,
    adopt: Option<(MetaModel, bool)>,
) -> Seq<(Seq<char>, (MetaModel, bool))>
    decreases known.len(),
{
    if known.len() == 0 || adopt is None {
        Seq::empty()
    } else {
        let init = adoptable_spec(s, known.drop_last(), updates.drop_last(), adopt);
        let k = known.last();
        if installed_of(s, kind_name(k)) is None && updates.last() is Some {
            init.push((kind_name(k), adopt->0))
        } else {
            init
        }
    }
}

fn find_known(known: &Vec<ComponentKind>, name: &str) -> (r: Option<usize>)
    ensures
        match r {
            Some(j) => j < known@.len() && kind_name(known@[j as int]) == name@ && j as int == known_index(known@, name@),
            None => known_index(known@, name@) < 0,
        },
{
    let mut j: usize = known.len();
    assert(known@.take(j as int) =~= known@);
    while j > 0
        invariant
            j <= known@.len(),
            known_index(known@, name@) == known_index(known@.take(j as int), name@),
        decreases j,
    {
        assert(known@.take(j as int).last() == known@[j - 1]);
        assert(known@.take(j as int).drop_last() =~= known@.take(j - 1));
        if text_eq(known[j - 1].name(), name) {
            return Some(j - 1);
        }
        j = j - 1;
    }
    None
}

/// The status of every known component: one entry per installed component,
/// in the order of the state, with the update available for it (`updates`
/// holds one per known component); then the components that look
/// adoptable. An installed component that is not known is an error.
pub fn build_status(
    state: &SavedState,
    known: &Vec<ComponentKind>,
    updates: &Vec<Option<ContentMetadata>>,
    adopt: &Option<Adoptable>,
    arch: &str,
) -> (r: Result<Status, StatusError>)
    requires
        state.wf(),
        updates@.len() == known@.len(),
    ensures
        r is Ok <==> forall|i: int| 0 <= i < state.installed@.len() ==> known_index(known@, #[trigger] state.installed@[i].name@) >= 0,
        r matches Err(StatusError::UnknownComponent(n)) ==> exists|i: int| 0 <= i < state.installed@.len() && #[trigger] state.installed@[i].name@ == n@ && known_index(known@, n@) < 0,
        r matches Ok(st) ==> {
            &&& st.components@.len() == state.installed@.len()
            &&& forall|i: int| 0 <= i < state.installed@.len() ==> {
                let n = #[trigger] state.installed@[i].name@;
                &&& st.components@[i].name@ == n
                &&& status_spec(state, n, opt_meta(updates@[known_index(known@, n)]), arch@) == Some(st.components@[i].value@)
            }
            &&& named_views(st.adoptable@) == adoptable_spec(state, known@, updates@, match adopt {
                Some(a) => Some(a@),
                None => None,
            })
        },
{
    let ghost iv = named_views(state.installed@);
    let mut comps: Vec<Named<ComponentStatus>> = Vec::new();
    let mut i: usize = 0;
    while i < state.installed.len()
        invariant
            state.wf(),
            iv == named_views(state.installed@),
            updates@.len() == known@.len(),
            i <= state.installed@.len(),
            comps@.len() == i,
            forall|k: int| 0 <= k < i ==> known_index(known@, #[trigger] state.installed@[k].name@) >= 0,
            forall|k: int| 0 <= k < i ==> {
                let n = #[trigger] state.installed@[k].name@;
                &&& comps@[k].name@ == n
                &&& status_spec(state, n, opt_meta(updates@[known_index(known@, n)]), arch@) == Some(comps@[k].value@)
            },
        decreases state.installed@.len() - i,
    {
        let name = state.installed[i].name.as_str();
        let j = match find_known(known, name) {
            Some(j) => j,
            None => {
                return Err(StatusError::UnknownComponent(name.to_owned()));
            },
        };
        let upd = duplicate_opt(&updates[j]);
        proof {
            assert(iv[i as int].0 == name@);
            lemma_lookup_at(iv, i as int);
        }
        match state.component_status(name, upd, arch) {
            Some(st) => {
                comps.push(Named { name: name.to_owned(), value: st });
            },
            None => {
                proof {
                    assert(installed_of(state, name@) is Some);
                }
                return Err(StatusError::UnknownComponent(name.to_owned()));
            },
        }
        i = i + 1;
    }
    let ghost av = match adopt {
        Some(a) => Some(a@),
        None => None::<(MetaModel, bool)>,
    };
    let mut ads: Vec<Named<Adoptable>> = Vec::new();
    let mut j: usize = 0;
    assert(known@.take(0) =~= Seq::<ComponentKind>::empty());
    while j < known.len()
        invariant
            state.wf(),
            updates@.len() == known@.len(),
            av == (match adopt {
                Some(a) => Some(a@),
                None => None::<(MetaModel, bool)>,
            }),
            j <= known@.len(),
            named_views(ads@) == adoptable_spec(state, known@.take(j as int), updates@.take(j as int), av),
        decreases known@.len() - j,
    {
        let ghost before = named_views(ads@);
        assert(known@.take(j + 1).drop_last() =~= known@.take(j as int));
        assert(updates@.take(j + 1).drop_last() =~= updates@.take(j as int));
        assert(known@.take(j + 1).last() == known@[j as int]);
        assert(updates@.take(j + 1).last() == updates@[j as int]);
        let k = known[j];
        if let Some(a) = adopt {
            if state.get_installed(k.name()).is_none() && updates[j].is_some() {
                ads.push(Named { name: k.name().to_owned(), value: a.duplicate() });
                assert(named_views(ads@) =~= before.push((kind_name(k), a@)));
            }
        }
        j = j + 1;
    }
    assert(known@.take(j as int) =~= known@);
    assert(updates@.take(j as int) =~= updates@);
    Ok(Status { components: comps, adoptable: ads })
}

} // verus!
