//! What holds of the cache across several operations.

use vstd::prelude::*;

use crate::archive::lemma_escape_unescape;
use crate::cache::{
    apply_edits, dirty_ids, has_in, holds_first, message_in, updated, ArchiveId, CacheView, Edit,
};

verus! {

/// Whether an edit is of the given key of the given archive.
pub open spec fn touches(e: Edit, id: ArchiveId, key: Seq<char>) -> bool {
    e.0 == id && e.1 == key
}

/// Whether the key of the archive is set by some edit and deleted by none
/// after it.
pub open spec fn set_and_kept(edits: Seq<Edit>, id: ArchiveId, key: Seq<char>) -> bool {
    exists|i: int|
        #![trigger edits[i]]
        0 <= i < edits.len() && touches(edits[i], id, key) && edits[i].2 is Some && forall|j: int|
            #![trigger edits[j]]
            i < j < edits.len() && touches(edits[j], id, key) ==> edits[j].2 is Some
}

/// Whether no edit deletes the key of the archive.
pub open spec fn never_deleted(edits: Seq<Edit>, id: ArchiveId, key: Seq<char>) -> bool {
    forall|j: int|
        #![trigger edits[j]]
        0 <= j < edits.len() && touches(edits[j], id, key) ==> edits[j].2 is Some
}

/// Whether some edit is of the given archive.
pub open spec fn edited_archive(edits: Seq<Edit>, id: ArchiveId) -> bool {
    exists|i: int| #![trigger edits[i]] 0 <= i < edits.len() && edits[i].0 == id
}

/// Once every definition has been loaded, in order, from an emptied cache
/// (`begin_reload`, then `read_step` for each), every defined archive is
/// loaded; so `needs_load` is false for each of them.
pub proof fn law_reloaded_archives_are_open(cache: CacheView, defs: Seq<ArchiveId>)
    requires
        holds_first(cache, defs, defs.len() as int),
    ensures
        forall|i: int| 0 <= i < defs.len() ==> cache.contains_key(#[trigger] defs[i]),
{
    assert(defs.take(defs.len() as int) =~= defs);
    assert forall|i: int| 0 <= i < defs.len() implies cache.contains_key(#[trigger] defs[i]) by {
        assert(defs.to_set().contains(defs[i]));
    }
}

/// Setting a key of a loaded archive to a message without line breaks, then
/// reading it, gives back that message.
pub proof fn law_set_then_message(
    cache: CacheView,
    id: ArchiveId,
    key: Seq<char>,
    value: Seq<char>,
)
    requires
        cache.contains_key(id),
        !value.contains('\n'),
    ensures
        message_in(updated(cache, id, key, Some(value)), id, key) == Some(value),
{
    lemma_escape_unescape(value);
}

/// Deleting a key of a loaded archive leaves the archive without it,
/// whether or not it held the key before.
pub proof fn law_delete_then_absent(cache: CacheView, id: ArchiveId, key: Seq<char>)
    requires
        cache.contains_key(id),
    ensures
        !has_in(updated(cache, id, key, None), id, key),
{
}

/// Edits keep the set of loaded archives.
pub proof fn law_edits_keep_archives(cache: CacheView, edits: Seq<Edit>)
    ensures
        apply_edits(cache, edits).dom() == cache.dom(),
    decreases edits.len(),
{
    if edits.len() > 0 {
        law_edits_keep_archives(cache, edits.drop_last());
        let before = apply_edits(cache, edits.drop_last());
        if before.contains_key(edits.last().0) {
            assert(apply_edits(cache, edits).dom() =~= before.dom());
        }
    }
}

/// Starting from freshly loaded archives, the archives that are changed
/// (and so listed by `dirty_keys` for writing) are exactly the loaded ones that some edit
/// touched; an archive no edit touched is not written.
pub proof fn law_only_edited_archives_are_dirty(cache: CacheView, edits: Seq<Edit>)
    requires
        forall|id: ArchiveId| #[trigger] cache.contains_key(id) ==> !cache[id].1,
    ensures
        dirty_ids(apply_edits(cache, edits)) == cache.dom().filter(
            |id: ArchiveId| edited_archive(edits, id),
        ),
    decreases edits.len(),
{
    if edits.len() > 0 {
        let init = edits.drop_last();
        law_only_edited_archives_are_dirty(cache, init);
        law_edits_keep_archives(cache, init);
        let before = apply_edits(cache, init);
        let last = edits.len() - 1;
        assert forall|id: ArchiveId|
            edited_archive(edits, id) <==> edited_archive(init, id) || edits[last].0 == id by {
            if edited_archive(init, id) {
                let i = choose|i: int| #![trigger init[i]] 0 <= i < init.len() && init[i].0 == id;
                assert(edits[i] == init[i]);
            }
            if edited_archive(edits, id) && edits[last].0 != id {
                let i = choose|i: int| #![trigger edits[i]] 0 <= i < edits.len() && edits[i].0 == id;
                assert(init[i] == edits[i]);
            }
        }
        let after = apply_edits(cache, edits);
        assert forall|id: ArchiveId|
            #[trigger] dirty_ids(after).contains(id) <==> cache.contains_key(id) && edited_archive(
                edits,
                id,
            ) by {
            if before.contains_key(edits[last].0) && id == edits[last].0 {
                assert(after[id].1);
            }
            assert(dirty_ids(before).contains(id) <==> cache.dom().filter(
                |id: ArchiveId| edited_archive(init, id),
            ).contains(id));
        }
        assert(dirty_ids(apply_edits(cache, edits)) =~= cache.dom().filter(
            |id: ArchiveId| edited_archive(edits, id),
        ));
    }
}

/// The keys an archive holds after a run of edits are those set by an edit
/// and not deleted after it, together with those it held before that no
/// edit deleted.
pub proof fn law_keys_after_edits(
    cache: CacheView,
    edits: Seq<Edit>,
    id: ArchiveId,
    key: Seq<char>,
)
    requires
        cache.contains_key(id),
    ensures
        apply_edits(cache, edits).contains_key(id),
        apply_edits(cache, edits)[id].0.contains_key(key) <==> set_and_kept(edits, id, key) || (
        cache[id].0.contains_key(key) && never_deleted(edits, id, key)),
    decreases edits.len(),
{
    law_edits_keep_archives(cache, edits);
    if edits.len() > 0 {
        let init = edits.drop_last();
        let last = edits.len() - 1;
        let e = edits[last];
        law_keys_after_edits(cache, init, id, key);
        assert forall|j: int| 0 <= j < init.len() implies #[trigger] init[j] == edits[j] by {}
        if touches(e, id, key) {
            if e.2 is Some {
                assert(set_and_kept(edits, id, key)) by {
                    assert(touches(edits[last], id, key));
                }
            } else {
                assert(!set_and_kept(edits, id, key)) by {
                    if set_and_kept(edits, id, key) {
                        let i = choose|i: int|
                            #![trigger edits[i]]
                            0 <= i < edits.len() && touches(edits[i], id, key) && edits[i].2 is Some
                                && forall|j: int|
                                #![trigger edits[j]]
                                i < j < edits.len() && touches(edits[j], id, key) ==> edits[j].2 is Some;
                        assert(i != last);
                        assert(touches(edits[last], id, key));
                    }
                }
                assert(!never_deleted(edits, id, key)) by {
                    assert(touches(edits[last], id, key));
                }
            }
        } else {
            assert(set_and_kept(edits, id, key) <==> set_and_kept(init, id, key)) by {
                if set_and_kept(edits, id, key) {
                    let i = choose|i: int|
                        #![trigger edits[i]]
                        0 <= i < edits.len() && touches(edits[i], id, key) && edits[i].2 is Some
                            && forall|j: int|
                            #![trigger edits[j]]
                            i < j < edits.len() && touches(edits[j], id, key) ==> edits[j].2 is Some;
                    assert(i != last);
                    assert(touches(init[i], id, key));
                    assert forall|j: int|
                        #![trigger init[j]]
                        i < j < init.len() && touches(init[j], id, key) implies init[j].2 is Some by {
                        assert(init[j] == edits[j]);
                    }
                }
                if set_and_kept(init, id, key) {
                    let i = choose|i: int|
                        #![trigger init[i]]
                        0 <= i < init.len() && touches(init[i], id, key) && init[i].2 is Some
                            && forall|j: int|
                            #![trigger init[j]]
                            i < j < init.len() && touches(init[j], id, key) ==> init[j].2 is Some;
                    assert(touches(edits[i], id, key));
                    assert forall|j: int|
                        #![trigger edits[j]]
                        i < j < edits.len() && touches(edits[j], id, key) implies edits[j].2 is Some by {
                        if j < last {
                            assert(init[j] == edits[j]);
                        }
                    }
                }
            }
            assert(never_deleted(edits, id, key) <==> never_deleted(init, id, key)) by {
                if never_deleted(init, id, key) {
                    assert forall|j: int|
                        #![trigger edits[j]]
                        0 <= j < edits.len() && touches(edits[j], id, key) implies edits[j].2 is Some by {
                        if j < last {
                            assert(init[j] == edits[j]);
                        }
                    }
                }
            }
        }
    }
}

/// Applying one run of edits and then another is applying the two runs one
/// after the other; so a run of `set_message` calls, each of which applies
/// one edit, applies the whole run.
pub proof fn law_edits_compose(cache: CacheView, first: Seq<Edit>, then: Seq<Edit>)
    ensures
        apply_edits(apply_edits(cache, first), then) == apply_edits(cache, first + then),
    decreases then.len(),
{
    if then.len() == 0 {
        assert(first + then =~= first);
    } else {
        law_edits_compose(cache, first, then.drop_last());
        assert((first + then).drop_last() =~= first + then.drop_last());
        assert((first + then).last() == then.last());
    }
}

} // verus!
