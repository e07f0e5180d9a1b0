//! The message store of one archive, and the escaping it applies to line
//! breaks.

use vstd::prelude::*;

verus! {

#[verifier::external_type_specification]
#[verifier::external_body]
pub struct ExTextArchive(mila::TextArchive);

/// The messages that an archive holds, keyed by message identifier, as
/// they are stored (line breaks unescaped).
pub uninterp spec fn archive_messages(a: mila::TextArchive) -> Map<Seq<char>, Seq<char>>;

/// The keys of an archive in the order the store hands them out: each new
/// key goes to the end, and setting a key again moves it to the end.
pub uninterp spec fn archive_key_order(a: mila::TextArchive) -> Seq<Seq<char>>;

/// A key order with the key taken out.
pub open spec fn without_key(order: Seq<Seq<char>>, key: Seq<char>) -> Seq<Seq<char>> {
    order.filter(|k: Seq<char>| k != key)
}

/// Replaces every line break with the two characters `\` and `n`.
pub open spec fn escape_newlines(s: Seq<char>) -> Seq<char>
    decreases s.len(),
{
    if s.len() == 0 {
        Seq::empty()
    } else if s[0] == '\n' {
        seq!['\\', 'n'] + escape_newlines(s.drop_first())
    } else {
        seq![s[0]] + escape_newlines(s.drop_first())
    }
}

/// Replaces, from left to right, every pair of characters `\` `n` with a
/// line break.
pub open spec fn unescape_newlines(s: Seq<char>) -> Seq<char>
    decreases s.len(),
{
    if s.len() == 0 {
        Seq::empty()
    } else if s.len() >= 2 && s[0] == '\\' && s[1] == 'n' {
        seq!['\n'] + unescape_newlines(s.subrange(2, s.len() as int))
    } else {
        seq![s[0]] + unescape_newlines(s.drop_first())
    }
}

/// A message that holds no line break comes back unchanged when it is
/// unescaped for storage and escaped again for reading.
pub proof fn lemma_escape_unescape(s: Seq<char>)
    requires
        !s.contains('\n'),
    ensures
        escape_newlines(unescape_newlines(s)) == s,
    decreases s.len(),
{
    if s.len() == 0 {
    } else if s.len() >= 2 && s[0] == '\\' && s[1] == 'n' {
        let rest = s.subrange(2, s.len() as int);
        assert forall|c: char| rest.contains(c) implies s.contains(c) by {
            let j = choose|j: int| 0 <= j < rest.len() && rest[j] == c;
            assert(s[j + 2] == c);
        }
        lemma_escape_unescape(rest);
        let u = seq!['\n'] + unescape_newlines(rest);
        assert(u.drop_first() =~= unescape_newlines(rest));
        assert(s =~= seq!['\\', 'n'] + rest);
    } else {
        let rest = s.drop_first();
        assert forall|c: char| rest.contains(c) implies s.contains(c) by {
            let j = choose|j: int| 0 <= j < rest.len() && rest[j] == c;
            assert(s[j + 1] == c);
        }
        assert(s[0] != '\n') by {
            assert(s.contains(s[0]));
        }
        lemma_escape_unescape(rest);
        let u = seq![s[0]] + unescape_newlines(rest);
        assert(u.drop_first() =~= unescape_newlines(rest));
        assert(s =~= seq![s[0]] + rest);
    }
}

/// Relies on mila::TextArchive::new: a store with no messages.
#[verifier::external_body]
pub(crate) fn empty_archive() -> (r: mila::TextArchive)
    ensures
        archive_messages(r).dom().len() == 0,
        archive_messages(r).dom().finite(),
        archive_key_order(r).len() == 0,
{
    mila::TextArchive::new()
}

/// Relies on mila::TextArchive::has_message: whether the key is present.
#[verifier::external_body]
pub(crate) fn archive_has(a: &mila::TextArchive, key: &str) -> (r: bool)
    ensures
        r == archive_messages(*a).contains_key(key@),
{
    a.has_message(key)
}

/// Relies on mila::TextArchive::get_message: the stored message with its
/// line breaks escaped, or `None` when the key is absent.
#[verifier::external_body]
pub(crate) fn archive_get(a: &mila::TextArchive, key: &str) -> (r: Option<String>)
    ensures
        r is Some <==> archive_messages(*a).contains_key(key@),
        r is Some ==> r->Some_0@ == escape_newlines(archive_messages(*a)[key@]),
{
    a.get_message(key)
}

/// Relies on mila::TextArchive::set_message: stores the message with its
/// escaped line breaks turned back into line breaks; the store's
/// `LinkedHashMap::insert` puts the key at the end of the order.
#[verifier::external_body]
pub(crate) fn archive_set(a: &mut mila::TextArchive, key: &str, message: &str)
    ensures
        archive_messages(*final(a)) == archive_messages(*old(a)).insert(
            key@,
            unescape_newlines(message@),
        ),
        archive_key_order(*final(a)) == without_key(archive_key_order(*old(a)), key@).push(key@),
{
    a.set_message(key, message)
}

/// Relies on mila::TextArchive::delete_message: removes the key if present,
/// and from the order (`LinkedHashMap::remove`).
#[verifier::external_body]
pub(crate) fn archive_delete(a: &mut mila::TextArchive, key: &str)
    ensures
        archive_messages(*final(a)) == archive_messages(*old(a)).remove(key@),
        archive_key_order(*final(a)) == without_key(archive_key_order(*old(a)), key@),
{
    a.delete_message(key)
}

/// Relies on mila::TextArchive::get_entries: the keys of the store, each
/// once, in the store's own order.
#[verifier::external_body]
pub(crate) fn archive_keys(a: &mila::TextArchive) -> (r: Vec<String>)
    ensures
        r@.map_values(|k: String| k@).no_duplicates(),
        r@.map_values(|k: String| k@).to_set() == archive_messages(*a).dom(),
        r@.map_values(|k: String| k@) == archive_key_order(*a),
{
    a.get_entries().keys().cloned().collect()
}

} // verus!
