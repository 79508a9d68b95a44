//! Laws of the store, stated over the views its contracts speak of and
//! proved once and for all.

use vstd::prelude::*;

use crate::document::{DocView, matches_any_tag, tag_pred};
use crate::store::{
    DocumentStorage, apply_update, created_doc_view, distinct_ids, doc_id_pos, has_doc_id,
    lemma_doc_at_unique,
};

verus! {

/// Law: per owner, every live id lies strictly below the allocation
/// counter.  Create returns the counter and advances it, update and delete
/// leave it alone — so ids are handed out sequentially, each exactly once,
/// and an id deleted once never comes back.
pub proof fn lemma_live_ids_below_counter(s: DocumentStorage, owner: u64)
    requires
        s.wf(),
    ensures
        distinct_ids(s.docs_of(owner)),
        forall|k: int|
            0 <= k < s.docs_of(owner).len() ==> (#[trigger] s.docs_of(owner)[k]).id
                < s.next_id_of(owner),
{
    s.lemma_live_ids_below_next(owner);
}

/// Law: a document read back right after its creation carries equal
/// creation and update timestamps.  The hypothesis on `s1` is what a
/// successful authorized `store_document` guarantees of the state it
/// leaves behind.
pub proof fn lemma_create_then_read(
    s0: DocumentStorage,
    s1: DocumentStorage,
    owner: u64,
    content: Seq<u8>,
    name: Seq<char>,
    metadata: Option<Seq<u8>>,
    now: u64,
    tags: Seq<Seq<char>>,
)
    requires
        s0.wf(),
        s1.wf(),
        s1.docs_of(owner) == s0.docs_of(owner).push(
            created_doc_view(s0.next_id_of(owner), owner, content, name, metadata, now, tags),
        ),
    ensures
        s1.doc_at(owner, s0.next_id_of(owner)) == Some(
            created_doc_view(s0.next_id_of(owner), owner, content, name, metadata, now, tags),
        ),
        s1.doc_at(owner, s0.next_id_of(owner))->Some_0.created_at == s1.doc_at(
            owner,
            s0.next_id_of(owner),
        )->Some_0.updated_at,
{
    s1.lemma_live_ids_below_next(owner);
    lemma_doc_at_unique(
        s1.docs_of(owner),
        s0.next_id_of(owner),
        s1.docs_of(owner).len() - 1,
    );
}

/// Law: an update that supplies only a name keeps the content, the
/// metadata and the tags that were set before, makes the name the supplied
/// one, and — the clock being non-decreasing — never moves the update
/// timestamp backwards.  The hypothesis on `s1` is what a successful
/// authorized `update_document` carrying only a name guarantees.
pub proof fn lemma_update_name_preserves_rest(
    s0: DocumentStorage,
    s1: DocumentStorage,
    owner: u64,
    id: u32,
    new_name: Seq<char>,
    now: u64,
)
    requires
        s0.wf(),
        s1.wf(),
        s0.doc_at(owner, id) is Some,
        now >= s0.doc_at(owner, id)->Some_0.updated_at,
        s1.docs_of(owner) == s0.docs_of(owner).update(
            doc_id_pos(s0.docs_of(owner), id),
            apply_update(s0.doc_at(owner, id)->Some_0, None, Some(new_name), None, None, now),
        ),
    ensures
        s1.doc_at(owner, id) is Some,
        s1.doc_at(owner, id)->Some_0.content == s0.doc_at(owner, id)->Some_0.content,
        s1.doc_at(owner, id)->Some_0.metadata == s0.doc_at(owner, id)->Some_0.metadata,
        s1.doc_at(owner, id)->Some_0.tags == s0.doc_at(owner, id)->Some_0.tags,
        s1.doc_at(owner, id)->Some_0.name == new_name,
        s1.doc_at(owner, id)->Some_0.created_at == s0.doc_at(owner, id)->Some_0.created_at,
        s1.doc_at(owner, id)->Some_0.updated_at >= s0.doc_at(owner, id)->Some_0.updated_at,
{
    s0.lemma_live_ids_below_next(owner);
    s1.lemma_live_ids_below_next(owner);
    let p = doc_id_pos(s0.docs_of(owner), id);
    assert(0 <= p < s0.docs_of(owner).len() && s0.docs_of(owner)[p].id == id);
    lemma_doc_at_unique(s1.docs_of(owner), id, p);
}

/// Law: a deletion shortens the owner's listing by exactly one, drops the
/// deleted id from it, and keeps every other document in its old order.
/// The hypothesis on `s1` is what a successful authorized
/// `delete_document` guarantees.
pub proof fn lemma_delete_removes_exactly_one(
    s0: DocumentStorage,
    s1: DocumentStorage,
    owner: u64,
    id: u32,
)
    requires
        s0.wf(),
        s1.wf(),
        s0.doc_at(owner, id) is Some,
        s1.docs_of(owner) == s0.docs_of(owner).remove(doc_id_pos(s0.docs_of(owner), id)),
    ensures
        s1.docs_of(owner).len() == s0.docs_of(owner).len() - 1,
        !has_doc_id(s1.docs_of(owner), id),
        forall|k: int|
            0 <= k < doc_id_pos(s0.docs_of(owner), id) ==> #[trigger] s1.docs_of(owner)[k]
                == s0.docs_of(owner)[k],
        forall|k: int|
            doc_id_pos(s0.docs_of(owner), id) <= k < s1.docs_of(owner).len()
                ==> #[trigger] s1.docs_of(owner)[k] == s0.docs_of(owner)[k + 1],
{
    s0.lemma_live_ids_below_next(owner);
    let p = doc_id_pos(s0.docs_of(owner), id);
    assert(0 <= p < s0.docs_of(owner).len() && s0.docs_of(owner)[p].id == id);
    s0.docs_of(owner).remove_ensures(p);
    assert forall|k: int| 0 <= k < s1.docs_of(owner).len() implies (
    #[trigger] s1.docs_of(owner)[k]).id != id by {
        if k < p {
            assert(s1.docs_of(owner)[k] == s0.docs_of(owner)[k]);
        } else {
            assert(s1.docs_of(owner)[k] == s0.docs_of(owner)[k + 1]);
        }
    }
}

/// Law: an empty search set matches no document, so a tag query with it
/// returns the empty sequence whatever the store holds.
pub proof fn lemma_empty_search_matches_nothing(docs: Seq<DocView>)
    ensures
        docs.filter(tag_pred(Seq::<Seq<char>>::empty())) == Seq::<DocView>::empty(),
    decreases docs.len(),
{
    reveal_with_fuel(Seq::filter, 2);
    if docs.len() > 0 {
        lemma_empty_search_matches_nothing(docs.drop_last());
        assert(!matches_any_tag(docs.last().tags, Seq::<Seq<char>>::empty()));
    }
}

/// Law: a tag query keeps exactly the documents having at least one tag
/// equal to some search tag, each of them in listing order.
pub proof fn lemma_tag_filter_keeps_exactly_matches(docs: Seq<DocView>, search: Seq<Seq<char>>)
    ensures
        forall|k: int|
            0 <= k < docs.filter(tag_pred(search)).len() ==> matches_any_tag(
                (#[trigger] docs.filter(tag_pred(search))[k]).tags,
                search,
            ),
        forall|k: int|
            0 <= k < docs.len() && matches_any_tag((#[trigger] docs[k]).tags, search)
                ==> docs.filter(tag_pred(search)).contains(docs[k]),
{
    docs.filter_lemma(tag_pred(search));
}

} // verus!
