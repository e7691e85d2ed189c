//! The event normalizer and the pump step: raw, platform-shaped
//! filesystem notifications reduced to a closed set of semantic intents,
//! and intents applied to the store.
//!
//! Renames arrive in three shapes, by platform convention: one combined
//! event carrying the old and the new path; two tagged half-events
//! (`From` and `To`); or two untagged events, one per endpoint, told
//! apart by whether the path still exists on disk.  All three reduce to
//! the same rule — the vacated name is ignored, the new name is
//! refreshed when tracked and otherwise added in directory mode — so
//! the store never sees a platform.  A tracked document's removal is
//! always ignored: editors save by renaming the live file away and
//! writing a fresh one, and evicting on removal would open a not-found
//! window on every save.  An image asset's creation, modification or
//! removal triggers a bare reload, since cached pages may reference it.

use crate::paths::{base_name, is_image_path, is_markdown_path};
use crate::store::{add_result, refresh_result, refresh_would_change, new_entry, FileProbe,
    FileView, SourceFile, TrackedFileSet};
use vstd::prelude::*;
use vstd::string::*;

verus! {

/// How a rename was reported: mirrors the platform conventions for
/// rename notifications.
#[derive(Clone, Copy, Debug, PartialEq, Eq, Structural)]
pub enum RenameKind {
    /// Untagged: one event per endpoint, with no old/new marker.
    Any,
    /// The path a file was renamed to.
    To,
    /// The path a file was renamed away from.
    From,
    /// One combined event carrying the old and the new path.
    Both,
    /// Some other rename shape.
    Other,
}

/// What about a file was modified.
#[derive(Clone, Copy, Debug, PartialEq, Eq, Structural)]
pub enum ModifyKind {
    Any,
    /// The file's content changed.
    Data,
    /// Only metadata changed.
    Metadata,
    /// The file was renamed.
    Name(RenameKind),
    Other,
}

/// The shape of a raw filesystem notification.
#[derive(Clone, Copy, Debug, PartialEq, Eq, Structural)]
pub enum FsEventKind {
    Access,
    Create,
    Modify(ModifyKind),
    Remove,
    Any,
    Other,
}

/// One path a notification names, together with what the disk shows
/// for it right now: whether the path still exists.  Existence is read
/// only to tell the two endpoints of an untagged rename apart.
pub struct PathObs {
    pub path: String,
    pub exists: bool,
}

/// The model of an observed path.
pub ghost struct PathView {
    pub path: Seq<char>,
    pub exists: bool,
}

impl View for PathObs {
    type V = PathView;

    open spec fn view(&self) -> PathView {
        PathView { path: self.path@, exists: self.exists }
    }
}

/// A raw filesystem notification: its shape and the paths it names.
pub struct FsEvent {
    pub kind: FsEventKind,
    pub paths: Vec<PathObs>,
}

/// The model of a raw notification.
pub ghost struct EventView {
    pub kind: FsEventKind,
    pub paths: Seq<PathView>,
}

impl View for FsEvent {
    type V = EventView;

    open spec fn view(&self) -> EventView {
        EventView { kind: self.kind, paths: self.paths@.map_values(|p: PathObs| p@) }
    }
}

/// The normalized, platform-independent classification of one raw
/// notification: what the store should do about it.
pub enum WatchIntent {
    /// Re-read and re-render an already tracked document.
    RefreshExisting { key: String },
    /// Register a newly appearing document (directory mode only).
    AddNew { path: String },
    /// A referenced static asset changed: viewers must re-fetch, but the
    /// store holds nothing to update.
    AssetReload,
    /// Noise.
    Ignore,
}

/// The model of a normalized intent.
pub ghost enum IntentView {
    Refresh(Seq<char>),
    Add(Seq<char>),
    AssetReload,
    Ignore,
}

impl View for WatchIntent {
    type V = IntentView;

    open spec fn view(&self) -> IntentView {
        match self {
            WatchIntent::RefreshExisting { key } => IntentView::Refresh(key@),
            WatchIntent::AddNew { path } => IntentView::Add(path@),
            WatchIntent::AssetReload => IntentView::AssetReload,
            WatchIntent::Ignore => IntentView::Ignore,
        }
    }
}

/// The models of a sequence of intents.
pub open spec fn intent_views(s: Seq<WatchIntent>) -> Seq<IntentView> {
    s.map_values(|x: WatchIntent| x@)
}

/// The rule for a markdown-like path that changed or appeared: refresh
/// it when tracked, add it in directory mode, otherwise ignore it.
pub open spec fn spec_classify_path(
    p: Seq<char>,
    m: Map<Seq<char>, FileView>,
    dir_mode: bool,
) -> IntentView {
    if !is_markdown_path(p) {
        IntentView::Ignore
    } else if m.contains_key(base_name(p)) {
        IntentView::Refresh(base_name(p))
    } else if dir_mode {
        IntentView::Add(p)
    } else {
        IntentView::Ignore
    }
}

/// The rule for one path of a non-rename notification.  A markdown path
/// reacts to creation and data modification; its removal is ignored by
/// design.  An image-extension path triggers a bare reload on any
/// creation, modification or removal, unconditionally: cached pages may
/// reference it and the browser must re-fetch, and for a removal the
/// path is already gone from disk.  Everything else is noise.
pub open spec fn spec_classify_one(
    pv: PathView,
    kind: FsEventKind,
    m: Map<Seq<char>, FileView>,
    dir_mode: bool,
) -> IntentView {
    if is_markdown_path(pv.path) {
        match kind {
            FsEventKind::Create => spec_classify_path(pv.path, m, dir_mode),
            FsEventKind::Modify(ModifyKind::Data) => spec_classify_path(pv.path, m, dir_mode),
            _ => IntentView::Ignore,
        }
    } else if is_image_path(pv.path) {
        match kind {
            FsEventKind::Create => IntentView::AssetReload,
            FsEventKind::Modify(_) => IntentView::AssetReload,
            FsEventKind::Remove => IntentView::AssetReload,
            _ => IntentView::Ignore,
        }
    } else {
        IntentView::Ignore
    }
}

/// The normalizer: one raw notification reduced to zero or more
/// intents, a pure function of the event, of what the disk shows for
/// its paths, and of which keys are tracked.
pub open spec fn spec_classify_event(
    e: EventView,
    m: Map<Seq<char>, FileView>,
    dir_mode: bool,
) -> Seq<IntentView> {
    match e.kind {
        FsEventKind::Modify(ModifyKind::Name(rk)) => match rk {
            RenameKind::Both => if e.paths.len() == 2 {
                seq![spec_classify_path(e.paths[1].path, m, dir_mode)]
            } else {
                Seq::empty()
            },
            RenameKind::From => Seq::empty(),
            RenameKind::To => if e.paths.len() >= 1 {
                seq![spec_classify_path(e.paths[0].path, m, dir_mode)]
            } else {
                Seq::empty()
            },
            RenameKind::Any => if e.paths.len() >= 1 && e.paths[0].exists {
                seq![spec_classify_path(e.paths[0].path, m, dir_mode)]
            } else {
                Seq::empty()
            },
            RenameKind::Other => Seq::empty(),
        },
        _ => Seq::new(e.paths.len(), |i: int| spec_classify_one(e.paths[i], e.kind, m, dir_mode)),
    }
}

/// Classifies a markdown-like path that changed or appeared.
fn classify_path(path: &str, store: &TrackedFileSet) -> (r: WatchIntent)
    requires
        store.wf(),
    ensures
        r@ == spec_classify_path(path@, store@, store.spec_directory_mode()),
{
    if !crate::paths::is_markdown_file(path) {
        return WatchIntent::Ignore;
    }
    let key = crate::paths::base_name_str(path);
    match store.get(key.as_str()) {
        Some(_) => WatchIntent::RefreshExisting { key },
        None => {
            if store.directory_mode() {
                WatchIntent::AddNew { path: path.to_owned() }
            } else {
                WatchIntent::Ignore
            }
        },
    }
}

/// Classifies one path of a non-rename notification.
fn classify_one(p: &PathObs, kind: FsEventKind, store: &TrackedFileSet) -> (r: WatchIntent)
    requires
        store.wf(),
    ensures
        r@ == spec_classify_one(p@, kind, store@, store.spec_directory_mode()),
{
    if crate::paths::is_markdown_file(p.path.as_str()) {
        match kind {
            FsEventKind::Create => classify_path(p.path.as_str(), store),
            FsEventKind::Modify(ModifyKind::Data) => classify_path(p.path.as_str(), store),
            _ => WatchIntent::Ignore,
        }
    } else if crate::paths::is_image_file(p.path.as_str()) {
        match kind {
            FsEventKind::Create => WatchIntent::AssetReload,
            FsEventKind::Modify(_) => WatchIntent::AssetReload,
            FsEventKind::Remove => WatchIntent::AssetReload,
            _ => WatchIntent::Ignore,
        }
    } else {
        WatchIntent::Ignore
    }
}

/// The event normalizer.  Reduces one raw notification to the intents
/// the pump applies, never touching the store: the store is only read
/// for which keys are tracked.
pub fn classify_event(e: &FsEvent, store: &TrackedFileSet) -> (intents: Vec<WatchIntent>)
    requires
        store.wf(),
    ensures
        intent_views(intents@) == spec_classify_event(e@, store@, store.spec_directory_mode()),
{
    let ghost goal = spec_classify_event(e@, store@, store.spec_directory_mode());
    let mut intents: Vec<WatchIntent> = Vec::new();
    match e.kind {
        FsEventKind::Modify(ModifyKind::Name(rk)) => {
            match rk {
                RenameKind::Both => {
                    if e.paths.len() == 2 {
                        let intent = classify_path(e.paths[1].path.as_str(), store);
                        intents.push(intent);
                    }
                },
                RenameKind::From => {},
                RenameKind::To => {
                    if e.paths.len() >= 1 {
                        let intent = classify_path(e.paths[0].path.as_str(), store);
                        intents.push(intent);
                    }
                },
                RenameKind::Any => {
                    if e.paths.len() >= 1 && e.paths[0].exists {
                        let intent = classify_path(e.paths[0].path.as_str(), store);
                        intents.push(intent);
                    }
                },
                RenameKind::Other => {},
            }
            proof {
                assert(intent_views(intents@) =~= goal);
            }
        },
        _ => {
            let n = e.paths.len();
            let mut i: usize = 0;
            while i < n
                invariant
                    0 <= i <= n,
                    n == e.paths@.len(),
                    store.wf(),
                    !(e.kind matches FsEventKind::Modify(ModifyKind::Name(_))),
                    intents@.len() == i,
                    forall|j: int|
                        0 <= j < i ==> (#[trigger] intents@[j])@ == spec_classify_one(
                            e.paths@[j]@,
                            e.kind,
                            store@,
                            store.spec_directory_mode(),
                        ),
                decreases n - i,
            {
                let intent = classify_one(&e.paths[i], e.kind, store);
                intents.push(intent);
                i = i + 1;
            }
            proof {
                assert(intent_views(intents@) =~= goal);
            }
        },
    }
    intents
}

/// What applying an intent does to the table.  Refreshes and additions
/// go through the store's transitions with what the disk probe saw; a
/// bare asset reload and noise leave the table alone.
pub open spec fn spec_apply_result(
    iv: IntentView,
    m: Map<Seq<char>, FileView>,
    probe: FileProbe,
) -> Map<Seq<char>, FileView> {
    match iv {
        IntentView::Refresh(key) => refresh_result(m, key, probe),
        IntentView::Add(path) => if probe.is_present() {
            add_result(m, path, probe.spec_modified(), probe.spec_content())
        } else {
            m
        },
        IntentView::AssetReload => m,
        IntentView::Ignore => m,
    }
}

/// Whether applying an intent publishes a change notification: exactly
/// when served content actually changed, or for a bare asset reload.
/// No-op refreshes and no-op additions publish nothing, so viewers see
/// no spurious reloads.
pub open spec fn spec_apply_publish(
    iv: IntentView,
    m: Map<Seq<char>, FileView>,
    probe: FileProbe,
) -> bool {
    match iv {
        IntentView::Refresh(key) => refresh_would_change(m, key, probe),
        IntentView::Add(path) => probe.is_present() && !m.contains_key(base_name(path)),
        IntentView::AssetReload => true,
        IntentView::Ignore => false,
    }
}

/// The pump step for one intent: applies it to the store under the
/// store's exclusive access, with `probe` being what the disk showed
/// for the intent's path.  Returns whether to publish a change
/// notification to the broadcaster.
pub fn apply_intent(store: &mut TrackedFileSet, intent: WatchIntent, probe: FileProbe) -> (publish:
    bool)
    requires
        old(store).wf(),
        intent matches WatchIntent::AddNew { .. } ==> old(store).spec_directory_mode(),
    ensures
        final(store).wf(),
        publish == spec_apply_publish(intent@, old(store)@, probe),
        final(store)@ == spec_apply_result(intent@, old(store)@, probe),
        final(store).spec_directory_mode() == old(store).spec_directory_mode(),
        final(store).spec_base_dir() == old(store).spec_base_dir(),
{
    match intent {
        WatchIntent::RefreshExisting { key } => store.refresh(key.as_str(), probe),
        WatchIntent::AddNew { path } => {
            match probe {
                FileProbe::Missing => false,
                FileProbe::Present { modified, content } => {
                    store.add_if_absent(SourceFile { path, modified, content })
                },
            }
        },
        WatchIntent::AssetReload => true,
        WatchIntent::Ignore => false,
    }
}

/// Law: removal notifications never remove a key.  Every intent a
/// `Remove` event normalizes to leaves the table exactly as it was, so
/// every tracked key still resolves to its prior cached entry.
pub proof fn lemma_removal_never_untracks(
    e: EventView,
    m: Map<Seq<char>, FileView>,
    dir_mode: bool,
)
    requires
        e.kind == FsEventKind::Remove,
    ensures
        forall|i: int, probe: FileProbe|
            0 <= i < spec_classify_event(e, m, dir_mode).len() ==> #[trigger] spec_apply_result(
                spec_classify_event(e, m, dir_mode)[i],
                m,
                probe,
            ) == m,
{
    assert forall|i: int, probe: FileProbe|
        0 <= i < spec_classify_event(e, m, dir_mode).len() implies #[trigger] spec_apply_result(
        spec_classify_event(e, m, dir_mode)[i],
        m,
        probe,
    ) == m by {
        let iv = spec_classify_event(e, m, dir_mode)[i];
        assert(iv == spec_classify_one(e.paths[i], e.kind, m, dir_mode));
        assert(iv == IntentView::AssetReload || iv == IntentView::Ignore);
    }
}

/// Law: a rename to a new, untracked markdown name, reported as one
/// combined event and applied in directory mode, yields exactly one
/// intent; applying it with what the disk shows for the new file tracks
/// the new key with that content, and every previously tracked key
/// keeps exactly its prior entry.  (The vacated old key is among them:
/// by the no-eviction policy it stays tracked with its last cached
/// content rather than turning not-found.)
pub proof fn lemma_rename_tracks_new_key(e: EventView, m: Map<Seq<char>, FileView>, probe: FileProbe)
    requires
        e.kind == FsEventKind::Modify(ModifyKind::Name(RenameKind::Both)),
        e.paths.len() == 2,
        is_markdown_path(e.paths[1].path),
        !m.contains_key(base_name(e.paths[1].path)),
        probe.is_present(),
    ensures
        spec_classify_event(e, m, true).len() == 1,
        ({
            let m2 = spec_apply_result(spec_classify_event(e, m, true)[0], m, probe);
            &&& m2.contains_key(base_name(e.paths[1].path))
            &&& m2[base_name(e.paths[1].path)] == new_entry(
                e.paths[1].path,
                probe.spec_modified(),
                probe.spec_content(),
            )
            &&& forall|k: Seq<char>|
                #[trigger] m.contains_key(k) ==> m2.contains_key(k) && m2[k] == m[k]
        }),
{
}

} // verus!
