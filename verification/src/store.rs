//! The tracked-file store: an in-memory table of known documents, each
//! with its cached rendered output and the modification time the cache
//! was taken at.
//!
//! The table is the single source of truth for what is currently served.
//! Entries are created when the store is initialized or, in directory
//! mode, when a new matching file appears; they are refreshed in place
//! when the on-disk modification time advances; they are never removed
//! by the watch pipeline, so an editor that deletes and recreates a file
//! mid-save never opens a not-found window.  A file that disappears for
//! good therefore stays visible with its last cached content: that is a
//! deliberate trade of strictness for save-safety.

use crate::paths::base_name;
use crate::render::{html_of, render_markdown};
use crate::text::{key_lt, lemma_key_lt_connected, lemma_lex_lt_irrefl, lemma_lex_lt_trans, str_eq,
    str_lt};
use vstd::map::*;
use vstd::prelude::*;
use vstd::string::*;

verus! {

/// The model of one tracked document.
#[verifier::ext_equal]
pub ghost struct FileView {
    /// The resolved filesystem location, fixed at registration.
    pub path: Seq<char>,
    /// The modification time the cached rendering was taken at.
    pub modified: u64,
    /// The source text read at `modified`.
    pub source: Seq<char>,
    /// The cached rendering of `source`.
    pub html: Seq<char>,
}

/// One tracked document: a servable file with its cached rendering.
pub struct TrackedFile {
    /// The stable identifier: the file's base name.
    pub key: String,
    /// The resolved filesystem location, fixed at registration.
    pub path: String,
    /// The modification time of the content currently cached.
    pub modified: u64,
    /// The cached rendering of the file's content at `modified`.
    pub html: String,
    /// The source text the cached rendering was made from.
    pub source: Ghost<Seq<char>>,
}

impl View for TrackedFile {
    type V = FileView;

    open spec fn view(&self) -> FileView {
        FileView {
            path: self.path@,
            modified: self.modified,
            source: self.source@,
            html: self.html@,
        }
    }
}

impl TrackedFile {
    /// The cached rendering is exactly the rendering of the source text
    /// read when `modified` was recorded, never a mix of old and new,
    /// and the key is the path's base name.
    pub open spec fn wf(self) -> bool {
        self.html@ == html_of(self.source@) && self.key@ == base_name(self.path@)
    }
}

/// What one look at a path on disk found: nothing, or a modification
/// time together with the content read under it.
pub enum FileProbe {
    /// The file was not there (or not readable just now).
    Missing,
    /// The file was there, with this modification time and content.
    Present { modified: u64, content: String },
}

impl FileProbe {
    pub open spec fn is_present(self) -> bool {
        self matches FileProbe::Present { .. }
    }

    pub open spec fn spec_modified(self) -> u64 {
        match self {
            FileProbe::Present { modified, .. } => modified,
            FileProbe::Missing => 0,
        }
    }

    pub open spec fn spec_content(self) -> Seq<char> {
        match self {
            FileProbe::Present { content, .. } => content@,
            FileProbe::Missing => Seq::empty(),
        }
    }
}

/// A file read at startup: its path, modification time, and content.
pub struct SourceFile {
    pub path: String,
    pub modified: u64,
    pub content: String,
}

/// The table as a map from key to file model.
pub open spec fn map_of(s: Seq<TrackedFile>) -> Map<Seq<char>, FileView>
    decreases s.len(),
{
    if s.len() == 0 {
        Map::empty()
    } else {
        map_of(s.drop_last()).insert(s.last().key@, s.last()@)
    }
}

/// Entries are sorted strictly by key (so keys are unique) and each
/// entry is well formed.
pub open spec fn entries_wf(s: Seq<TrackedFile>) -> bool {
    &&& forall|i: int, j: int|
        0 <= i < j < s.len() ==> key_lt(#[trigger] s[i].key@, #[trigger] s[j].key@)
    &&& forall|i: int| 0 <= i < s.len() ==> (#[trigger] s[i]).wf()
}

proof fn lemma_map_of_contains(s: Seq<TrackedFile>, k: Seq<char>)
    ensures
        map_of(s).contains_key(k) <==> exists|i: int| 0 <= i < s.len() && s[i].key@ == k,
    decreases s.len(),
{
    if s.len() > 0 {
        lemma_map_of_contains(s.drop_last(), k);
        if map_of(s).contains_key(k) {
            if s.last().key@ == k {
                assert(s[s.len() - 1].key@ == k);
            } else {
                let i = choose|i: int| 0 <= i < s.len() - 1 && s.drop_last()[i].key@ == k;
                assert(s[i].key@ == k);
            }
        }
        if exists|i: int| 0 <= i < s.len() && s[i].key@ == k {
            let i = choose|i: int| 0 <= i < s.len() && s[i].key@ == k;
            if i < s.len() - 1 {
                assert(s.drop_last()[i].key@ == k);
            }
        }
    }
}

proof fn lemma_map_of_index(s: Seq<TrackedFile>, i: int)
    requires
        0 <= i < s.len(),
        forall|a: int, b: int|
            0 <= a < b < s.len() ==> (#[trigger] s[a].key@) != (#[trigger] s[b].key@),
    ensures
        map_of(s).contains_key(s[i].key@),
        map_of(s)[s[i].key@] == s[i]@,
    decreases s.len(),
{
    lemma_map_of_contains(s, s[i].key@);
    if i == s.len() - 1 {
    } else {
        lemma_map_of_index(s.drop_last(), i);
        assert(s.drop_last()[i] == s[i]);
        assert(s[i].key@ != s[s.len() - 1].key@);
    }
}

/// Strictly sorted keys are unique.
proof fn lemma_sorted_unique(s: Seq<TrackedFile>)
    requires
        forall|i: int, j: int|
            0 <= i < j < s.len() ==> key_lt(#[trigger] s[i].key@, #[trigger] s[j].key@),
    ensures
        forall|i: int, j: int|
            0 <= i < j < s.len() ==> (#[trigger] s[i].key@) != (#[trigger] s[j].key@),
{
    assert forall|i: int, j: int|
        0 <= i < j < s.len() implies (#[trigger] s[i].key@) != (#[trigger] s[j].key@) by {
        if s[i].key@ == s[j].key@ {
            lemma_lex_lt_irrefl(vstd::utf8::encode_utf8(s[i].key@));
        }
    }
}

/// Inserting an entry with a fresh key inserts its record into the table.
proof fn lemma_map_of_insert(s: Seq<TrackedFile>, pos: int, f: TrackedFile)
    requires
        0 <= pos <= s.len(),
        forall|a: int, b: int|
            0 <= a < b < s.len() ==> (#[trigger] s[a].key@) != (#[trigger] s[b].key@),
        forall|i: int| 0 <= i < s.len() ==> (#[trigger] s[i].key@) != f.key@,
    ensures
        map_of(s.insert(pos, f)) == map_of(s).insert(f.key@, f@),
{
    let s2 = s.insert(pos, f);
    s.insert_ensures(pos, f);
    assert forall|a: int, b: int|
        0 <= a < b < s2.len() implies (#[trigger] s2[a].key@) != (#[trigger] s2[b].key@) by {
        if a < pos && b < pos {
        } else if a < pos && b == pos {
            assert(s2[a] == s[a]);
        } else if b > pos {
            assert(s2[b] == s[b - 1]);
            if a < pos {
                assert(s2[a] == s[a]);
            } else if a == pos {
            } else {
                assert(s2[a] == s[a - 1]);
            }
        }
    }
    assert_maps_equal!(map_of(s.insert(pos, f)), map_of(s).insert(f.key@, f@), k => {
        lemma_map_of_contains(s2, k);
        lemma_map_of_contains(s, k);
        if k == f.key@ {
            assert(s2[pos] == f);
            lemma_map_of_index(s2, pos);
        } else {
            if map_of(s).contains_key(k) {
                let i = choose|i: int| 0 <= i < s.len() && s[i].key@ == k;
                lemma_map_of_index(s, i);
                let i2 = if i < pos {
                    i
                } else {
                    i + 1
                };
                assert(s2[i2] == s[i]);
                lemma_map_of_index(s2, i2);
            }
            if map_of(s2).contains_key(k) {
                let i2 = choose|i2: int| 0 <= i2 < s2.len() && s2[i2].key@ == k;
                let i = if i2 < pos {
                    i2
                } else {
                    i2 - 1
                };
                assert(s2[i2] == s[i]);
            }
        }
    });
}

/// Replacing the entry at `i` by one with the same key updates its
/// record in the table.
proof fn lemma_map_of_update(s: Seq<TrackedFile>, i: int, f: TrackedFile)
    requires
        0 <= i < s.len(),
        forall|a: int, b: int|
            0 <= a < b < s.len() ==> (#[trigger] s[a].key@) != (#[trigger] s[b].key@),
        f.key@ == s[i].key@,
    ensures
        map_of(s.update(i, f)) == map_of(s).insert(f.key@, f@),
{
    let s2 = s.update(i, f);
    assert forall|a: int, b: int|
        0 <= a < b < s2.len() implies (#[trigger] s2[a].key@) != (#[trigger] s2[b].key@) by {
        assert(s2[a].key@ == s[a].key@);
        assert(s2[b].key@ == s[b].key@);
    }
    assert_maps_equal!(map_of(s.update(i, f)), map_of(s).insert(f.key@, f@), k => {
        lemma_map_of_contains(s2, k);
        lemma_map_of_contains(s, k);
        if k == f.key@ {
            assert(s2[i] == f);
            lemma_map_of_index(s2, i);
        } else {
            if map_of(s).contains_key(k) {
                let j = choose|j: int| 0 <= j < s.len() && s[j].key@ == k;
                lemma_map_of_index(s, j);
                assert(s2[j] == s[j]);
                lemma_map_of_index(s2, j);
            }
            if map_of(s2).contains_key(k) {
                let j = choose|j: int| 0 <= j < s2.len() && s2[j].key@ == k;
                assert(s2[j] == s[j]);
            }
        }
    });
}

/// Whether a refresh with what `probe` observed would change the entry
/// under `key`: the file is tracked, it is present on disk, and its
/// modification time has strictly advanced.
pub open spec fn refresh_would_change(
    m: Map<Seq<char>, FileView>,
    key: Seq<char>,
    probe: FileProbe,
) -> bool {
    m.contains_key(key) && probe.is_present() && probe.spec_modified() > m[key].modified
}

/// The entry after a refresh from `probe`: modification time, source and
/// rendering are all taken from the one observation; the path is fixed.
pub open spec fn refreshed_entry(entry: FileView, probe: FileProbe) -> FileView {
    FileView {
        path: entry.path,
        modified: probe.spec_modified(),
        source: probe.spec_content(),
        html: html_of(probe.spec_content()),
    }
}

/// The table after a refresh of `key` from what `probe` observed.  When
/// the file is untracked, missing, or not newer, the table is untouched:
/// staleness is preferred over a visible gap.
pub open spec fn refresh_result(
    m: Map<Seq<char>, FileView>,
    key: Seq<char>,
    probe: FileProbe,
) -> Map<Seq<char>, FileView> {
    if refresh_would_change(m, key, probe) {
        m.insert(key, refreshed_entry(m[key], probe))
    } else {
        m
    }
}

/// The record registered for a newly seen file.
pub open spec fn new_entry(path: Seq<char>, modified: u64, content: Seq<char>) -> FileView {
    FileView { path, modified, source: content, html: html_of(content) }
}

/// The table after offering it a file: registered under its base name
/// unless that key is already taken (the first registration wins).
pub open spec fn add_result(
    m: Map<Seq<char>, FileView>,
    path: Seq<char>,
    modified: u64,
    content: Seq<char>,
) -> Map<Seq<char>, FileView> {
    if m.contains_key(base_name(path)) {
        m
    } else {
        m.insert(base_name(path), new_entry(path, modified, content))
    }
}

/// The table the initial scan produces: each file registered in order,
/// the first registration of a key winning.
pub open spec fn initial_map(srcs: Seq<SourceFile>) -> Map<Seq<char>, FileView>
    decreases srcs.len(),
{
    if srcs.len() == 0 {
        Map::empty()
    } else {
        add_result(
            initial_map(srcs.drop_last()),
            srcs.last().path@,
            srcs.last().modified,
            srcs.last().content@,
        )
    }
}

/// The store's table of tracked files, with the operating mode fixed at
/// startup.  Entries are kept sorted by key.
pub struct TrackedFileSet {
    base_dir: String,
    directory_mode: bool,
    files: Vec<TrackedFile>,
}

impl View for TrackedFileSet {
    type V = Map<Seq<char>, FileView>;

    closed spec fn view(&self) -> Map<Seq<char>, FileView> {
        map_of(self.files@)
    }
}

impl TrackedFileSet {
    /// Entries are sorted strictly by key and each caches the rendering
    /// of the source read at its recorded modification time.
    pub closed spec fn wf(self) -> bool {
        entries_wf(self.files@)
    }

    /// Whether the tracked set may grow as new files appear.
    pub closed spec fn spec_directory_mode(self) -> bool {
        self.directory_mode
    }

    /// The directory the watch is bound to.
    pub closed spec fn spec_base_dir(self) -> Seq<char> {
        self.base_dir@
    }

    /// Builds the store from the files read at startup.  Every initial
    /// file is registered, keyed by base name, first registration
    /// winning; reading them (and failing fast when one cannot be read)
    /// is the caller's step.
    pub fn initialize(base_dir: String, directory_mode: bool, sources: Vec<SourceFile>) -> (s: Self)
        ensures
            s.wf(),
            s@ == initial_map(sources@),
            s.spec_directory_mode() == directory_mode,
            s.spec_base_dir() == base_dir@,
    {
        let ghost orig = sources@;
        let mut sources = sources;
        let mut s = TrackedFileSet { base_dir, directory_mode, files: Vec::new() };
        let ghost mut done: int = 0;
        while sources.len() > 0
            invariant
                0 <= done <= orig.len(),
                sources@ =~= orig.skip(done),
                s.wf(),
                s@ == initial_map(orig.take(done)),
                s.directory_mode == directory_mode,
                s.base_dir@ == base_dir@,
            decreases sources@.len(),
        {
            let f = sources.remove(0);
            proof {
                assert(f == orig[done]);
                assert(orig.take(done + 1).drop_last() =~= orig.take(done));
                assert(orig.take(done + 1).last() == orig[done]);
                assert(sources@ =~= orig.skip(done + 1));
            }
            s.add_file(f);
            proof {
                done = done + 1;
            }
        }
        proof {
            assert(orig.take(done) =~= orig);
        }
        s
    }

    /// The index of the entry with this key, if it is tracked.
    fn find_index(&self, key: &str) -> (r: Option<usize>)
        ensures
            match r {
                Some(i) => i < self.files@.len() && self.files@[i as int].key@ == key@,
                None => forall|i: int|
                    0 <= i < self.files@.len() ==> (#[trigger] self.files@[i]).key@ != key@,
            },
    {
        let n = self.files.len();
        let mut i: usize = 0;
        while i < n
            invariant
                0 <= i <= n,
                n == self.files@.len(),
                forall|j: int| 0 <= j < i ==> (#[trigger] self.files@[j]).key@ != key@,
            decreases n - i,
        {
            if str_eq(self.files[i].key.as_str(), key) {
                return Some(i);
            }
            i = i + 1;
        }
        None
    }

    /// Inserts an entry with a fresh key at its place in the key order.
    fn insert_sorted(&mut self, f: TrackedFile)
        requires
            old(self).wf(),
            f.wf(),
            forall|i: int|
                0 <= i < old(self).files@.len() ==> (#[trigger] old(self).files@[i]).key@ != f.key@,
        ensures
            final(self).wf(),
            final(self)@ == old(self)@.insert(f.key@, f@),
            final(self).directory_mode == old(self).directory_mode,
            final(self).base_dir == old(self).base_dir,
    {
        let n = self.files.len();
        let mut pos: usize = 0;
        while pos < n && str_lt(self.files[pos].key.as_str(), f.key.as_str())
            invariant
                0 <= pos <= n,
                n == self.files@.len(),
                forall|j: int| 0 <= j < pos ==> key_lt((#[trigger] self.files@[j]).key@, f.key@),
            decreases n - pos,
        {
            pos = pos + 1;
        }
        proof {
            assert forall|j: int|
                pos <= j < n implies key_lt(f.key@, (#[trigger] self.files@[j]).key@) by {
                if !key_lt(f.key@, self.files@[pos as int].key@) {
                    lemma_key_lt_connected(self.files@[pos as int].key@, f.key@);
                }
                if j > pos {
                    lemma_lex_lt_trans(
                        vstd::utf8::encode_utf8(f.key@),
                        vstd::utf8::encode_utf8(self.files@[pos as int].key@),
                        vstd::utf8::encode_utf8(self.files@[j].key@),
                    );
                }
            }
            lemma_sorted_unique(self.files@);
            lemma_map_of_insert(self.files@, pos as int, f);
            self.files@.insert_ensures(pos as int, f);
        }
        let ghost before = self.files@;
        self.files.insert(pos, f);
        proof {
            let s2 = before.insert(pos as int, f);
            assert forall|a: int, b: int|
                0 <= a < b < s2.len() implies key_lt(
                (#[trigger] s2[a].key@),
                (#[trigger] s2[b].key@),
            ) by {
                if b < pos {
                    assert(s2[a] == before[a]);
                    assert(s2[b] == before[b]);
                } else if b == pos {
                    assert(s2[a] == before[a]);
                } else {
                    assert(s2[b] == before[b - 1]);
                    if a < pos {
                        assert(s2[a] == before[a]);
                    } else if a > pos {
                        assert(s2[a] == before[a - 1]);
                    }
                }
            }
            assert forall|i: int| 0 <= i < s2.len() implies (#[trigger] s2[i]).wf() by {
                if i < pos {
                    assert(s2[i] == before[i]);
                } else if i > pos {
                    assert(s2[i] == before[i - 1]);
                }
            }
        }
    }

    /// Offers the store a file to track.  Registers it under its base
    /// name and returns true, unless that key is already tracked: then
    /// nothing changes and the result is false, whatever the new path's
    /// content — the first registration wins, so a stale re-add can
    /// never clobber a just-refreshed entry.
    fn add_file(&mut self, file: SourceFile) -> (added: bool)
        requires
            old(self).wf(),
        ensures
            final(self).wf(),
            added == !old(self)@.contains_key(base_name(file.path@)),
            final(self)@ == add_result(old(self)@, file.path@, file.modified, file.content@),
            final(self).directory_mode == old(self).directory_mode,
            final(self).base_dir == old(self).base_dir,
    {
        let key = crate::paths::base_name_str(file.path.as_str());
        proof {
            lemma_map_of_contains(self.files@, key@);
        }
        match self.find_index(key.as_str()) {
            Some(_) => false,
            None => {
                let html = render_markdown(file.content.as_str());
                let ghost source = file.content@;
                let f = TrackedFile {
                    key,
                    path: file.path,
                    modified: file.modified,
                    html,
                    source: Ghost(source),
                };
                self.insert_sorted(f);
                true
            },
        }
    }

    /// Registers a newly appearing file, in directory mode.  Returns
    /// whether the tracked set grew; an already tracked key is left
    /// exactly as it was.
    pub fn add_if_absent(&mut self, file: SourceFile) -> (added: bool)
        requires
            old(self).wf(),
            old(self).spec_directory_mode(),
        ensures
            final(self).wf(),
            added == !old(self)@.contains_key(base_name(file.path@)),
            final(self)@ == add_result(old(self)@, file.path@, file.modified, file.content@),
            final(self).spec_directory_mode() == old(self).spec_directory_mode(),
            final(self).spec_base_dir() == old(self).spec_base_dir(),
    {
        self.add_file(file)
    }

    /// Refreshes the entry under `key` from one observation of its file
    /// on disk.  The cache changes only when the observed modification
    /// time strictly advances, and then rendering, source and time are
    /// replaced together; a missing file leaves the entry untouched, so
    /// a request mid-save sees the last cached content instead of a gap.
    /// Returns whether served content changed.
    pub fn refresh(&mut self, key: &str, probe: FileProbe) -> (changed: bool)
        requires
            old(self).wf(),
        ensures
            final(self).wf(),
            changed == refresh_would_change(old(self)@, key@, probe),
            final(self)@ == refresh_result(old(self)@, key@, probe),
            final(self).spec_directory_mode() == old(self).spec_directory_mode(),
            final(self).spec_base_dir() == old(self).spec_base_dir(),
    {
        proof {
            lemma_map_of_contains(self.files@, key@);
        }
        match self.find_index(key) {
            None => false,
            Some(i) => {
                proof {
                    lemma_sorted_unique(self.files@);
                    lemma_map_of_index(self.files@, i as int);
                }
                match probe {
                    FileProbe::Missing => false,
                    FileProbe::Present { modified, content } => {
                        if modified > self.files[i].modified {
                            let html = render_markdown(content.as_str());
                            let ghost source = content@;
                            let f = TrackedFile {
                                key: self.files[i].key.clone(),
                                path: self.files[i].path.clone(),
                                modified,
                                html,
                                source: Ghost(source),
                            };
                            proof {
                                lemma_map_of_update(self.files@, i as int, f);
                            }
                            let ghost before = self.files@;
                            self.files[i] = f;
                            proof {
                                let s2 = before.update(i as int, f);
                                assert forall|a: int, b: int|
                                    0 <= a < b < s2.len() implies key_lt(
                                    (#[trigger] s2[a].key@),
                                    (#[trigger] s2[b].key@),
                                ) by {
                                    assert(s2[a].key@ == before[a].key@);
                                    assert(s2[b].key@ == before[b].key@);
                                }
                                assert forall|j: int|
                                    0 <= j < s2.len() implies (#[trigger] s2[j]).wf() by {
                                    if j != i {
                                        assert(s2[j] == before[j]);
                                    }
                                }
                                assert(f@ =~= refreshed_entry(old(self)@[key@], probe));
                            }
                            true
                        } else {
                            false
                        }
                    },
                }
            },
        }
    }

    /// Whether a refresh is due: the key is tracked and the observed
    /// modification time strictly exceeds the cached one.  The serving
    /// layer asks this before re-reading the file, so an unchanged file
    /// costs no second read.
    pub fn needs_refresh(&self, key: &str, modified: u64) -> (r: bool)
        requires
            self.wf(),
        ensures
            r == (self@.contains_key(key@) && modified > self@[key@].modified),
    {
        proof {
            lemma_map_of_contains(self.files@, key@);
        }
        match self.find_index(key) {
            None => false,
            Some(i) => {
                proof {
                    lemma_sorted_unique(self.files@);
                    lemma_map_of_index(self.files@, i as int);
                }
                modified > self.files[i].modified
            },
        }
    }

    /// Looks up a tracked file by key, for the serving layer.  An
    /// unknown key is reported as not found, which is distinct from a
    /// transient refresh failure: the latter never unregisters a key.
    pub fn get(&self, key: &str) -> (r: Option<&TrackedFile>)
        requires
            self.wf(),
        ensures
            match r {
                Some(f) => {
                    &&& self@.contains_key(key@)
                    &&& f@ == self@[key@]
                    &&& f.key@ == key@
                    &&& f.wf()
                },
                None => !self@.contains_key(key@),
            },
    {
        proof {
            lemma_map_of_contains(self.files@, key@);
        }
        match self.find_index(key) {
            None => None,
            Some(i) => {
                proof {
                    lemma_sorted_unique(self.files@);
                    lemma_map_of_index(self.files@, i as int);
                }
                Some(&self.files[i])
            },
        }
    }

    /// The tracked keys in lexicographic order: the stable navigation
    /// order, whose first key is the default document.
    pub fn list_keys_sorted(&self) -> (keys: Vec<String>)
        requires
            self.wf(),
        ensures
            forall|i: int| 0 <= i < keys@.len() ==> self@.contains_key((#[trigger] keys@[i])@),
            forall|k: Seq<char>|
                self@.contains_key(k) ==> exists|i: int| 0 <= i < keys@.len() && (#[trigger] keys@[i])@ == k,
            forall|i: int, j: int|
                0 <= i < j < keys@.len() ==> key_lt((#[trigger] keys@[i])@, (#[trigger] keys@[j])@),
    {
        let n = self.files.len();
        let mut keys: Vec<String> = Vec::new();
        let mut i: usize = 0;
        while i < n
            invariant
                0 <= i <= n,
                n == self.files@.len(),
                keys@.len() == i,
                forall|j: int| 0 <= j < i ==> (#[trigger] keys@[j])@ == self.files@[j].key@,
            decreases n - i,
        {
            keys.push(self.files[i].key.clone());
            i = i + 1;
        }
        proof {
            assert forall|k: Seq<char>|
                self@.contains_key(k) implies exists|i: int|
                0 <= i < keys@.len() && (#[trigger] keys@[i])@ == k by {
                lemma_map_of_contains(self.files@, k);
                let j = choose|j: int| 0 <= j < self.files@.len() && self.files@[j].key@ == k;
                assert(keys@[j]@ == k);
            }
            assert forall|i: int|
                0 <= i < keys@.len() implies self@.contains_key((#[trigger] keys@[i])@) by {
                lemma_map_of_contains(self.files@, keys@[i]@);
            }
        }
        keys
    }

    /// The default document: the lexicographically first tracked key,
    /// served when no key is named in a request.  Nothing is served
    /// from an empty store.
    pub fn default_document(&self) -> (r: Option<String>)
        requires
            self.wf(),
        ensures
            match r {
                Some(k) => self@.contains_key(k@) && (forall|k2: Seq<char>|
                    self@.contains_key(k2) ==> !key_lt(k2, k@)),
                None => self@ =~= Map::<Seq<char>, FileView>::empty(),
            },
    {
        if self.files.len() == 0 {
            proof {
                lemma_map_of_contains(self.files@, choose|k: Seq<char>| self@.contains_key(k));
                assert forall|k: Seq<char>| !self@.contains_key(k) by {
                    lemma_map_of_contains(self.files@, k);
                }
                assert(self@ =~= Map::<Seq<char>, FileView>::empty());
            }
            None
        } else {
            let first = self.files[0].key.clone();
            proof {
                lemma_map_of_contains(self.files@, first@);
                lemma_sorted_unique(self.files@);
                assert forall|k2: Seq<char>|
                    self@.contains_key(k2) implies !key_lt(k2, first@) by {
                    lemma_map_of_contains(self.files@, k2);
                    let i = choose|i: int| 0 <= i < self.files@.len() && self.files@[i].key@ == k2;
                    if key_lt(k2, first@) {
                        if i == 0 {
                            lemma_lex_lt_irrefl(vstd::utf8::encode_utf8(first@));
                        } else {
                            lemma_lex_lt_trans(
                                vstd::utf8::encode_utf8(k2),
                                vstd::utf8::encode_utf8(first@),
                                vstd::utf8::encode_utf8(self.files@[i].key@),
                            );
                            lemma_lex_lt_irrefl(vstd::utf8::encode_utf8(k2));
                        }
                    }
                }
            }
            Some(first)
        }
    }

    /// Whether the tracked set may grow as new files appear.
    pub fn directory_mode(&self) -> (r: bool)
        ensures
            r == self.spec_directory_mode(),
    {
        self.directory_mode
    }

    /// The navigation sidebar is shown exactly in directory mode.
    pub fn show_navigation(&self) -> (r: bool)
        ensures
            r == self.spec_directory_mode(),
    {
        self.directory_mode
    }

    /// The directory the watch is bound to.
    pub fn base_dir(&self) -> (r: &String)
        ensures
            r@ == self.spec_base_dir(),
    {
        &self.base_dir
    }
}

/// Law: a tracked entry's cached rendering is always the rendering of
/// the source text read at its recorded modification time, never a mix
/// of an old and a new read.
pub proof fn lemma_rendered_reflects_source(s: TrackedFileSet, k: Seq<char>)
    requires
        s.wf(),
        s@.contains_key(k),
    ensures
        s@[k].html == html_of(s@[k].source),
{
    lemma_map_of_contains(s.files@, k);
    let i = choose|i: int| 0 <= i < s.files@.len() && s.files@[i].key@ == k;
    lemma_sorted_unique(s.files@);
    lemma_map_of_index(s.files@, i);
}

/// Law: refreshing is idempotent.  After a refresh from one observation
/// of the disk, a second refresh from the same observation is not due —
/// so the serving layer performs no second read — and changes nothing.
pub proof fn lemma_refresh_idempotent(
    m: Map<Seq<char>, FileView>,
    key: Seq<char>,
    probe: FileProbe,
)
    ensures
        !refresh_would_change(refresh_result(m, key, probe), key, probe),
        refresh_result(refresh_result(m, key, probe), key, probe) == refresh_result(m, key, probe),
{
}

/// Law: offering a path whose key is already tracked changes nothing,
/// whatever content or modification time comes with it.
pub proof fn lemma_add_if_absent_noop(
    m: Map<Seq<char>, FileView>,
    path: Seq<char>,
    modified: u64,
    content: Seq<char>,
)
    requires
        m.contains_key(base_name(path)),
    ensures
        add_result(m, path, modified, content) == m,
{
}

/// Law: a tracked entry's modification time never decreases across a
/// refresh.
pub proof fn lemma_refresh_monotonic(m: Map<Seq<char>, FileView>, key: Seq<char>, probe: FileProbe)
    requires
        m.contains_key(key),
    ensures
        refresh_result(m, key, probe)[key].modified >= m[key].modified,
{
}

} // verus!
