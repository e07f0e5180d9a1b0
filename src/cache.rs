//! The archive cache: a registry of loaded message archives keyed by
//! logical path and localization flag, seeded from a list of definitions.

use vstd::prelude::*;

use crate::archive::{
    archive_delete, archive_get, archive_has, archive_key_order, archive_keys, archive_messages,
    archive_set, empty_archive, escape_newlines, unescape_newlines, without_key,
};

verus! {

/// Identifies a loaded archive: its logical path and whether it is
/// localized.
pub type ArchiveId = (Seq<char>, bool);

/// The messages of one archive, keyed by message identifier.
pub type Messages = Map<Seq<char>, Seq<char>>;

/// What the cache holds for one archive: its messages, whether they were
/// changed since it was loaded or created, and the order of its keys.
pub type ArchiveState = (Messages, bool, Seq<Seq<char>>);

/// What the cache holds, archive by archive.
pub type CacheView = Map<ArchiveId, ArchiveState>;

/// The value a definition takes for `localized` when it leaves the field out.
pub fn default_localized_value() -> (r: bool)
    ensures
        r,
{
    true
}

/// One archive that the cache manages by default.
#[derive(Debug)]
pub struct TextDataDefinition {
    pub path: String,
    pub localized: bool,
}

impl TextDataDefinition {
    pub open spec fn id(&self) -> ArchiveId {
        (self.path@, self.localized)
    }
}

/// The identifier of an archive, as listed by `dirty_keys`.
#[derive(Debug)]
pub struct ArchiveKey {
    pub path: String,
    pub localized: bool,
}

impl View for ArchiveKey {
    type V = ArchiveId;

    open spec fn view(&self) -> ArchiveId {
        (self.path@, self.localized)
    }
}

/// The identifiers of a list of archive keys.
pub open spec fn key_views(keys: Seq<ArchiveKey>) -> Seq<ArchiveId> {
    keys.map_values(|k: ArchiveKey| k@)
}

/// Why an operation of the cache failed.
#[derive(Debug)]
pub enum TextDataError {
    /// The definition file could not be read.
    Io { path: String, detail: String },
    /// The definition file is malformed.
    Format { path: String, detail: String },
    /// An archive could not be read or decoded.
    Load { path: String, localized: bool, source: mila::LayeredFilesystemError },
    /// An archive could not be encoded or written.
    Save { path: String, localized: bool, source: mila::LayeredFilesystemError },
    /// A message was changed in an archive that is not loaded.
    NotLoaded { path: String, localized: bool },
    /// The archives on disk could not be listed.
    Enumeration { source: mila::LayeredFilesystemError },
}

impl TextDataError {
    pub open spec fn is_load_of(&self, id: ArchiveId) -> bool {
        match self {
            TextDataError::Load { path, localized, .. } => id == (path@, *localized),
            _ => false,
        }
    }

    /// Whether a load, save or enumeration error carries the filesystem's
    /// error.
    pub open spec fn carries(&self, e: mila::LayeredFilesystemError) -> bool {
        match self {
            TextDataError::Load { source, .. } => *source == e,
            TextDataError::Save { source, .. } => *source == e,
            TextDataError::Enumeration { source } => *source == e,
            _ => false,
        }
    }

    pub open spec fn is_save_of(&self, id: ArchiveId) -> bool {
        match self {
            TextDataError::Save { path, localized, .. } => id == (path@, *localized),
            _ => false,
        }
    }

    pub open spec fn is_not_loaded_of(&self, id: ArchiveId) -> bool {
        match self {
            TextDataError::NotLoaded { path, localized } => id == (path@, *localized),
            _ => false,
        }
    }
}

/// Whether the archive is loaded and holds the key.
pub open spec fn has_in(cache: CacheView, id: ArchiveId, key: Seq<char>) -> bool {
    cache.contains_key(id) && cache[id].0.contains_key(key)
}

/// The message as it is read back: `None` where the archive is not loaded
/// or lacks the key, else the stored message with line breaks escaped.
pub open spec fn message_in(cache: CacheView, id: ArchiveId, key: Seq<char>) -> Option<Seq<char>> {
    if has_in(cache, id, key) {
        Some(escape_newlines(cache[id].0[key]))
    } else {
        None
    }
}

/// The messages after setting a key to a value (stored with escaped line
/// breaks unescaped), or after deleting it when there is no value.
pub open spec fn edited(messages: Messages, key: Seq<char>, value: Option<Seq<char>>) -> Messages {
    match value {
        Some(v) => messages.insert(key, unescape_newlines(v)),
        None => messages.remove(key),
    }
}

/// The key order after setting a key (which moves it to the end) or
/// deleting it.
pub open spec fn edited_order(order: Seq<Seq<char>>, key: Seq<char>, value: Option<Seq<char>>) -> Seq<Seq<char>> {
    match value {
        Some(_) => without_key(order, key).push(key),
        None => without_key(order, key),
    }
}

/// The cache after one edit of a loaded archive, which marks it changed.
pub open spec fn updated(cache: CacheView, id: ArchiveId, key: Seq<char>, value: Option<Seq<char>>) -> CacheView {
    cache.insert(id, (edited(cache[id].0, key, value), true, edited_order(cache[id].2, key, value)))
}

/// An optional string as an optional sequence of characters.
pub open spec fn opt_view(value: Option<String>) -> Option<Seq<char>> {
    match value {
        Some(v) => Some(v@),
        None => None,
    }
}

/// One edit of a message: the archive, the key, and the new value, or
/// `None` for a deletion.
pub type Edit = (ArchiveId, Seq<char>, Option<Seq<char>>);

/// The cache after a run of `set_message` calls: an edit of a loaded
/// archive updates it, an edit of an archive that is not loaded changes
/// nothing.
pub open spec fn apply_edits(cache: CacheView, edits: Seq<Edit>) -> CacheView
    decreases edits.len(),
{
    if edits.len() == 0 {
        cache
    } else {
        let before = apply_edits(cache, edits.drop_last());
        let e = edits.last();
        if before.contains_key(e.0) {
            updated(before, e.0, e.1, e.2)
        } else {
            before
        }
    }
}

/// The identifiers of the changed archives of a cache.
pub open spec fn dirty_ids(cache: CacheView) -> Set<ArchiveId> {
    cache.dom().filter(|id: ArchiveId| cache[id].1)
}

/// A cache that holds exactly the archives of the first `n` definitions,
/// none of them changed.
pub open spec fn holds_first(cache: CacheView, defs: Seq<ArchiveId>, n: int) -> bool {
    &&& cache.dom() == defs.take(n).to_set()
    &&& forall|id: ArchiveId| #[trigger] cache.contains_key(id) ==> !cache[id].1
}

/// An archive held by the cache.
struct LoadedArchive {
    path: String,
    localized: bool,
    archive: mila::TextArchive,
    dirty: bool,
}

spec fn entry_id(e: LoadedArchive) -> ArchiveId {
    (e.path@, e.localized)
}

spec fn entry_state(e: LoadedArchive) -> ArchiveState {
    (archive_messages(e.archive), e.dirty, archive_key_order(e.archive))
}

spec fn state_of(s: Seq<LoadedArchive>) -> CacheView
    decreases s.len(),
{
    if s.len() == 0 {
        Map::empty()
    } else {
        state_of(s.drop_last()).insert(entry_id(s.last()), entry_state(s.last()))
    }
}

spec fn ids_unique(s: Seq<LoadedArchive>) -> bool {
    forall|i: int, j: int|
        0 <= i < s.len() && 0 <= j < s.len() && i != j ==> entry_id(s[i]) != entry_id(s[j])
}

proof fn lemma_state_lookup(s: Seq<LoadedArchive>)
    requires
        ids_unique(s),
    ensures
        forall|i: int|
            #![trigger s[i]]
            0 <= i < s.len() ==> state_of(s).contains_key(entry_id(s[i])) && state_of(s)[entry_id(
                s[i],
            )] == entry_state(s[i]),
        forall|k: ArchiveId|
            #[trigger] state_of(s).contains_key(k) ==> exists|i: int|
                0 <= i < s.len() && entry_id(s[i]) == k,
    decreases s.len(),
{
    if s.len() > 0 {
        let t = s.drop_last();
        let last = s.len() - 1;
        assert(ids_unique(t)) by {
            assert forall|i: int, j: int|
                0 <= i < t.len() && 0 <= j < t.len() && i != j implies entry_id(t[i]) != entry_id(
                t[j],
            ) by {
                assert(t[i] == s[i] && t[j] == s[j]);
            }
        }
        lemma_state_lookup(t);
        assert forall|i: int|
            #![trigger s[i]]
            0 <= i < s.len() implies state_of(s).contains_key(entry_id(s[i])) && state_of(s)[entry_id(
            s[i],
        )] == entry_state(s[i]) by {
            if i < last {
                assert(t[i] == s[i]);
                assert(entry_id(s[i]) != entry_id(s[last]));
            }
        }
        assert forall|k: ArchiveId| #[trigger]
            state_of(s).contains_key(k) implies exists|i: int|
                0 <= i < s.len() && entry_id(s[i]) == k by {
            if k != entry_id(s[last]) {
                assert(state_of(t).contains_key(k));
                let i = choose|i: int| 0 <= i < t.len() && entry_id(t[i]) == k;
                assert(s[i] == t[i]);
            } else {
                assert(entry_id(s[last]) == k);
            }
        }
    }
}

proof fn lemma_state_update(s: Seq<LoadedArchive>, i: int, e: LoadedArchive)
    requires
        ids_unique(s),
        0 <= i < s.len(),
        entry_id(e) == entry_id(s[i]),
    ensures
        ids_unique(s.update(i, e)),
        state_of(s.update(i, e)) == state_of(s).insert(entry_id(e), entry_state(e)),
    decreases s.len(),
{
    let u = s.update(i, e);
    assert forall|a: int| 0 <= a < u.len() implies entry_id(#[trigger] u[a]) == entry_id(s[a]) by {}
    let last = s.len() - 1;
    if i == last {
        assert(u.drop_last() =~= s.drop_last());
        assert(state_of(u) =~= state_of(s).insert(entry_id(e), entry_state(e)));
    } else {
        let t = s.drop_last();
        assert(ids_unique(t)) by {
            assert forall|a: int, b: int|
                0 <= a < t.len() && 0 <= b < t.len() && a != b implies entry_id(t[a]) != entry_id(
                t[b],
            ) by {
                assert(t[a] == s[a] && t[b] == s[b]);
            }
        }
        assert(u.drop_last() =~= t.update(i, e));
        lemma_state_update(t, i, e);
        assert(entry_id(s[i]) != entry_id(s[last]));
        assert(state_of(u) =~= state_of(s).insert(entry_id(e), entry_state(e)));
    }
}

proof fn lemma_state_push(s: Seq<LoadedArchive>, e: LoadedArchive)
    requires
        ids_unique(s),
        forall|j: int| 0 <= j < s.len() ==> entry_id(#[trigger] s[j]) != entry_id(e),
    ensures
        ids_unique(s.push(e)),
        state_of(s.push(e)) == state_of(s).insert(entry_id(e), entry_state(e)),
{
    let p = s.push(e);
    assert(p.drop_last() =~= s);
    assert forall|i: int, j: int|
        0 <= i < p.len() && 0 <= j < p.len() && i != j implies entry_id(p[i]) != entry_id(
        p[j],
    ) by {
        if i < s.len() {
            assert(p[i] == s[i]);
        }
        if j < s.len() {
            assert(p[j] == s[j]);
        }
    }
}

/// The message store of every archive the cache holds, together with the
/// definitions that a reload loads.
pub struct TextData {
    defs: Vec<TextDataDefinition>,
    archives: Vec<LoadedArchive>,
}

impl View for TextData {
    type V = CacheView;

    closed spec fn view(&self) -> CacheView {
        state_of(self.archives@)
    }
}

impl TextData {
    /// No two archives of the cache share an identifier.
    pub closed spec fn wf(&self) -> bool {
        ids_unique(self.archives@)
    }

    /// The identifiers of the definitions, in definition order.
    pub closed spec fn definitions(&self) -> Seq<ArchiveId> {
        self.defs@.map_values(|d: TextDataDefinition| d.id())
    }

    /// A cache with the given definitions and no archive loaded.
    pub fn from_definitions(defs: Vec<TextDataDefinition>) -> (r: TextData)
        ensures
            r.wf(),
            r.definitions() == defs@.map_values(|d: TextDataDefinition| d.id()),
            r@ == CacheView::empty(),
    {
        let r = TextData { defs, archives: Vec::new() };
        assert(r@ =~= CacheView::empty());
        r
    }

    /// The position of the archive with the given identifier, if loaded.
    fn find(&self, path: &String, localized: bool) -> (r: Option<usize>)
        requires
            self.wf(),
        ensures
            match r {
                Some(i) => i < self.archives@.len() && entry_id(self.archives@[i as int]) == (
                    path@,
                    localized,
                ) && self@.contains_key((path@, localized)) && self@[(path@, localized)]
                    == entry_state(self.archives@[i as int]),
                None => !self@.contains_key((path@, localized)) && forall|j: int|
                    0 <= j < self.archives@.len() ==> entry_id(#[trigger] self.archives@[j]) != (
                        path@,
                        localized,
                    ),
            },
    {
        proof {
            lemma_state_lookup(self.archives@);
        }
        let mut i: usize = 0;
        while i < self.archives.len()
            invariant
                self.wf(),
                0 <= i <= self.archives@.len(),
                forall|j: int|
                    0 <= j < i ==> entry_id(#[trigger] self.archives@[j]) != (path@, localized),
            decreases self.archives@.len() - i,
        {
            let e = &self.archives[i];
            if e.localized == localized && e.path == *path {
                proof {
                    lemma_state_lookup(self.archives@);
                }
                assert(entry_id(self.archives@[i as int]) == (path@, localized));
                return Some(i);
            }
            i += 1;
        }
        None
    }

    /// Puts an archive at the given identifier, replacing any archive there.
    fn insert_entry(&mut self, path: String, localized: bool, archive: mila::TextArchive)
        requires
            old(self).wf(),
        ensures
            final(self).wf(),
            final(self).defs == old(self).defs,
            final(self)@ == old(self)@.insert((path@, localized), (archive_messages(archive), false, archive_key_order(archive))),
    {
        let ghost s = self.archives@;
        let ghost id = (path@, localized);
        let found = self.find(&path, localized);
        let entry = LoadedArchive { path, localized, archive, dirty: false };
        assert(entry_id(entry) == id);
        match found {
            Some(i) => {
                self.archives[i] = entry;
                proof {
                    lemma_state_update(s, i as int, entry);
                }
            },
            None => {
                self.archives.push(entry);
                proof {
                    lemma_state_push(s, entry);
                }
            },
        }
    }

    /// Puts a new, empty archive at the given identifier, replacing any
    /// archive there.
    pub fn new_archive(&mut self, path: String, localized: bool)
        requires
            old(self).wf(),
        ensures
            final(self).wf(),
            final(self).definitions() == old(self).definitions(),
            final(self)@ == old(self)@.insert((path@, localized), (Messages::empty(), false, Seq::empty())),
    {
        let a = empty_archive();
        assert(archive_messages(a) =~= Messages::empty());
        assert(archive_key_order(a) =~= Seq::<Seq<char>>::empty());
        self.insert_entry(path, localized, a);
    }

    /// Takes the outcome of reading the archive at the given identifier:
    /// a decoded archive is put in the cache, replacing any archive there; a
    /// failure becomes a load error that names the archive.
    pub fn accept_archive(
        &mut self,
        path: String,
        localized: bool,
        outcome: Result<mila::TextArchive, mila::LayeredFilesystemError>,
    ) -> (r: Result<(), TextDataError>)
        requires
            old(self).wf(),
        ensures
            final(self).wf(),
            final(self).definitions() == old(self).definitions(),
            match outcome {
                Ok(a) => r is Ok && final(self)@ == old(self)@.insert(
                    (path@, localized),
                    (archive_messages(a), false, archive_key_order(a)),
                ),
                Err(e) => r == Err::<(), TextDataError>(
                    (TextDataError::Load { path: path, localized: localized, source: e }),
                ) && final(self)@ == old(self)@,
            },
    {
        match outcome {
            Ok(a) => {
                self.insert_entry(path, localized, a);
                Ok(())
            },
            Err(e) => Err(TextDataError::Load { path, localized, source: e }),
        }
    }

    /// Whether the archive at the given identifier must be read before it
    /// can be used: it is not loaded yet. A loaded archive is never read
    /// again by opening it.
    pub fn needs_load(&self, path: String, localized: bool) -> (r: bool)
        requires
            self.wf(),
        ensures
            r == !self@.contains_key((path@, localized)),
    {
        match self.find(&path, localized) {
            Some(_) => false,
            None => true,
        }
    }

    /// The number of definitions.
    pub fn definition_count(&self) -> (r: usize)
        ensures
            r == self.definitions().len(),
    {
        self.defs.len()
    }

    /// The definition at the given position.
    pub fn definition(&self, i: usize) -> (r: &TextDataDefinition)
        requires
            i < self.definitions().len(),
        ensures
            r.id() == self.definitions()[i as int],
    {
        &self.defs[i]
    }

    /// Empties the cache before the definitions are loaded again.
    pub fn begin_reload(&mut self)
        ensures
            final(self).wf(),
            final(self).definitions() == old(self).definitions(),
            final(self)@ == CacheView::empty(),
            holds_first(final(self)@, final(self).definitions(), 0),
    {
        self.archives = Vec::new();
        assert(self@ =~= CacheView::empty());
        assert(self.definitions().take(0) =~= Seq::<ArchiveId>::empty());
        assert(self@.dom() =~= self.definitions().take(0).to_set());
    }

    /// Takes the outcome of reading definition `i`: a decoded archive is
    /// stored at its identifier, and the result says whether a definition
    /// is left to read; a failure becomes a load error that names definition
    /// `i` and carries the filesystem's error, and nothing after it is to be
    /// read. Loading the definitions in order from an emptied cache keeps
    /// exactly the ones loaded so far.
    pub fn read_step(
        &mut self,
        i: usize,
        outcome: Result<mila::TextArchive, mila::LayeredFilesystemError>,
    ) -> (r: Result<bool, TextDataError>)
        requires
            old(self).wf(),
            i < old(self).definitions().len(),
        ensures
            final(self).wf(),
            final(self).definitions() == old(self).definitions(),
            match outcome {
                Ok(a) => r == Ok::<bool, TextDataError>(i + 1 < old(self).definitions().len())
                    && final(self)@ == old(self)@.insert(
                    old(self).definitions()[i as int],
                    (archive_messages(a), false, archive_key_order(a)),
                ) && (holds_first(old(self)@, old(self).definitions(), i as int) ==> holds_first(
                    final(self)@,
                    old(self).definitions(),
                    i + 1,
                )),
                Err(e) => r is Err && r->Err_0.is_load_of(old(self).definitions()[i as int])
                    && r->Err_0.carries(e) && final(self)@ == old(self)@,
            },
    {
        let ghost defs = self.definitions();
        let localized = self.defs[i].localized;
        let path = self.defs[i].path.clone();
        assert(defs[i as int] == (path@, localized));
        let step = self.accept_archive(path, localized, outcome);
        match step {
            Ok(()) => {
                proof {
                    if holds_first(old(self)@, defs, i as int) {
                        assert(defs.take(i + 1) =~= defs.take(i as int).push(defs[i as int]));
                        defs.take(i as int).lemma_push_to_set_commute(defs[i as int]);
                        assert(self@.dom() =~= defs.take(i + 1).to_set());
                    }
                }
                Ok(i < self.defs.len() - 1)
            },
            Err(e) => Err(e),
        }
    }

    /// Takes the outcome of writing the archive at the given identifier:
    /// success gives its key, a failure becomes a save error that names it.
    pub fn accept_write(
        path: String,
        localized: bool,
        outcome: Result<(), mila::LayeredFilesystemError>,
    ) -> (r: Result<ArchiveKey, TextDataError>)
        ensures
            match outcome {
                Ok(_) => r is Ok && r->Ok_0@ == (path@, localized),
                Err(e) => r == Err::<ArchiveKey, TextDataError>(
                    (TextDataError::Save { path: path, localized: localized, source: e }),
                ),
            },
    {
        match outcome {
            Ok(()) => Ok(ArchiveKey { path, localized }),
            Err(source) => Err(TextDataError::Save { path, localized, source }),
        }
    }

    /// The identifiers of the changed archives, each once, in the cache's
    /// order: exactly the archives that saving writes back.
    pub fn dirty_keys(&self) -> (written: Vec<ArchiveKey>)
        requires
            self.wf(),
        ensures
            key_views(written@).no_duplicates(),
            key_views(written@).to_set() == dirty_ids(self@),
    {
        let ghost s = self.archives@;
        proof {
            lemma_state_lookup(s);
        }
        let mut written: Vec<ArchiveKey> = Vec::new();
        let mut i: usize = 0;
        while i < self.archives.len()
            invariant
                s == self.archives@,
                ids_unique(s),
                0 <= i <= s.len(),
                key_views(written@).no_duplicates(),
                forall|id: ArchiveId|
                    #[trigger] key_views(written@).contains(id) <==> exists|j: int|
                        0 <= j < i && s[j].dirty && entry_id(s[j]) == id,
                forall|j: int|
                    #![trigger s[j]]
                    0 <= j < s.len() ==> state_of(s).contains_key(entry_id(s[j])) && state_of(s)[entry_id(
                        s[j],
                    )] == entry_state(s[j]),
            decreases s.len() - i,
        {
            let e = &self.archives[i];
            if e.dirty {
                let key = ArchiveKey { path: e.path.clone(), localized: e.localized };
                let ghost before = key_views(written@);
                written.push(key);
                proof {
                    let id = entry_id(s[i as int]);
                    assert(key_views(written@) =~= before.push(id));
                    assert(!before.contains(id)) by {
                        if before.contains(id) {
                            let j = choose|j: int| 0 <= j < i && s[j].dirty && entry_id(s[j]) == id;
                            assert(j != i);
                        }
                    }
                    assert forall|x: ArchiveId|
                        #[trigger] key_views(written@).contains(x) <==> exists|j: int|
                            0 <= j < i + 1 && s[j].dirty && entry_id(s[j]) == x by {
                        if x == id {
                            assert(key_views(written@)[before.len() as int] == x);
                        }
                        if key_views(written@).contains(x) && x != id {
                            let k = choose|k: int| 0 <= k < key_views(written@).len() && key_views(written@)[k] == x;
                            assert(before[k] == x);
                        }
                        if before.contains(x) {
                            let k = choose|k: int| 0 <= k < before.len() && before[k] == x;
                            assert(key_views(written@)[k] == x);
                        }
                    }
                }
            } else {
                proof {
                    assert forall|x: ArchiveId|
                        #[trigger] key_views(written@).contains(x) <==> exists|j: int|
                            0 <= j < i + 1 && s[j].dirty && entry_id(s[j]) == x by {
                        if exists|j: int| 0 <= j < i + 1 && s[j].dirty && entry_id(s[j]) == x {
                            let j = choose|j: int| 0 <= j < i + 1 && s[j].dirty && entry_id(s[j]) == x;
                            assert(j != i);
                        }
                    }
                }
            }
            i += 1;
        }
        proof {
            assert forall|id: ArchiveId|
                key_views(written@).to_set().contains(id) <==> #[trigger] dirty_ids(self@).contains(id) by {
                if dirty_ids(self@).contains(id) {
                    let j = choose|j: int| 0 <= j < s.len() && entry_id(s[j]) == id;
                    assert(s[j].dirty);
                }
                if key_views(written@).contains(id) {
                    let j = choose|j: int| 0 <= j < i && s[j].dirty && entry_id(s[j]) == id;
                    assert(state_of(s)[entry_id(s[j])] == entry_state(s[j]));
                }
            }
            assert(key_views(written@).to_set() =~= dirty_ids(self@));
        }
        written
    }


    /// The store of a loaded archive, to be written back.
    pub fn archive_for(&self, path: String, localized: bool) -> (r: Option<&mila::TextArchive>)
        requires
            self.wf(),
        ensures
            r is Some <==> self@.contains_key((path@, localized)),
            r is Some ==> archive_messages(*r->Some_0) == self@[(path@, localized)].0
                && archive_key_order(*r->Some_0) == self@[(path@, localized)].2,
    {
        match self.find(&path, localized) {
            Some(i) => Some(&self.archives[i].archive),
            None => None,
        }
    }

    /// Whether the archive is loaded and holds the key.
    pub fn has_message(&self, path: String, localized: bool, key: &str) -> (r: bool)
        requires
            self.wf(),
        ensures
            r == has_in(self@, (path@, localized), key@),
    {
        match self.find(&path, localized) {
            Some(i) => archive_has(&self.archives[i].archive, key),
            None => false,
        }
    }

    /// The message at the key, with line breaks escaped; `None` where the
    /// archive is not loaded or lacks the key.
    pub fn message(&self, path: String, localized: bool, key: &str) -> (r: Option<String>)
        requires
            self.wf(),
        ensures
            opt_view(r) == message_in(self@, (path@, localized), key@),
    {
        match self.find(&path, localized) {
            Some(i) => archive_get(&self.archives[i].archive, key),
            None => None,
        }
    }

    /// The keys of a loaded archive, each once, in the archive's own order
    /// (the order in which they were last set);
    /// `None` where the archive is not loaded.
    pub fn enumerate_messages(&self, path: String, localized: bool) -> (r: Option<Vec<String>>)
        requires
            self.wf(),
        ensures
            r is None <==> !self@.contains_key((path@, localized)),
            r is Some ==> r->Some_0@.map_values(|k: String| k@).no_duplicates() && r->Some_0@.map_values(
                |k: String| k@,
            ).to_set() == self@[(path@, localized)].0.dom(),
            r is Some ==> r->Some_0@.map_values(|k: String| k@) == self@[(path@, localized)].2,
    {
        match self.find(&path, localized) {
            Some(i) => Some(archive_keys(&self.archives[i].archive)),
            None => None,
        }
    }

    /// Sets the key of a loaded archive to the value, or deletes the key
    /// when there is no value (an absent key is no error). Either way the
    /// archive is marked changed. An archive that is not loaded is an error.
    pub fn set_message(
        &mut self,
        path: String,
        localized: bool,
        key: &str,
        value: Option<String>,
    ) -> (r: Result<(), TextDataError>)
        requires
            old(self).wf(),
        ensures
            final(self).wf(),
            final(self).definitions() == old(self).definitions(),
            old(self)@.contains_key((path@, localized)) ==> r is Ok && final(self)@ == updated(
                old(self)@,
                (path@, localized),
                key@,
                opt_view(value),
            ),
            !old(self)@.contains_key((path@, localized)) ==> r is Err && r->Err_0.is_not_loaded_of(
                (path@, localized),
            ) && final(self)@ == old(self)@,
            final(self)@ == apply_edits(old(self)@, seq![((path@, localized), key@, opt_view(value))]),
    {
        proof {
            let one = seq![((path@, localized), key@, opt_view(value))];
            assert(one.drop_last() =~= Seq::<Edit>::empty());
            assert(apply_edits(old(self)@, one.drop_last()) == old(self)@);
        }
        let ghost s = self.archives@;
        match self.find(&path, localized) {
            Some(i) => {
                let entry = &mut self.archives[i];
                match value {
                    Some(v) => archive_set(&mut entry.archive, key, v.as_str()),
                    None => archive_delete(&mut entry.archive, key),
                }
                entry.dirty = true;
                proof {
                    lemma_state_update(s, i as int, self.archives@[i as int]);
                    assert(self.archives@ =~= s.update(i as int, self.archives@[i as int]));
                    assert(final(self)@ =~= updated(
                        old(self)@,
                        (path@, localized),
                        key@,
                        opt_view(value),
                    ));
                }
                Ok(())
            },
            None => Err(TextDataError::NotLoaded { path, localized }),
        }
    }

    /// The mount point and the glob pattern under which archive files are
    /// listed: `m` and `**/*.bin.lz`.
    pub fn archive_listing() -> (r: (&'static str, &'static str))
        ensures
            r.0@ == "m"@,
            r.1@ == "**/*.bin.lz"@,
    {
        ("m", "**/*.bin.lz")
    }

    /// Takes the outcome of listing the archive files: a listing is handed
    /// back as it came, a failure becomes an enumeration error.
    pub fn accept_listing(outcome: Result<Vec<String>, mila::LayeredFilesystemError>) -> (r: Result<
        Vec<String>,
        TextDataError,
    >)
        ensures
            match outcome {
                Ok(v) => r is Ok && r->Ok_0@ == v@,
                Err(e) => r == Err::<Vec<String>, TextDataError>(
                    (TextDataError::Enumeration { source: e }),
                ),
            },
    {
        match outcome {
            Ok(paths) => Ok(paths),
            Err(source) => Err(TextDataError::Enumeration { source }),
        }
    }
}

} // verus!
