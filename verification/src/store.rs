//! The document store: per-owner allocation counters, insertion-ordered
//! indexes of live ids, and the records themselves, with create / read /
//! update / delete, listing, tag filtering and counting.
//!
//! The host environment's two capabilities reach every mutating call as
//! plain values: `authorized` is the verdict of its credential check for
//! the claimed owner, and `now` is the current value of its monotonically
//! non-decreasing clock.  A call with `authorized == false` returns its
//! failure value and leaves the state exactly as it was.

use vstd::prelude::*;

use crate::document::{DocView, EncryptedDocument, matches_any_tag, tag_pred, tags_match};

verus! {

/// State kept for one owner: the allocation counter, the index of live
/// document ids in creation order, and the records, aligned with the index.
struct OwnerSpace {
    owner: u64,
    next_id: u32,
    index: Vec<u32>,
    docs: Vec<EncryptedDocument>,
}

impl OwnerSpace {
    spec fn wf(self) -> bool {
        &&& self.index@.len() == self.docs@.len()
        &&& forall|k: int|
            0 <= k < self.docs@.len() ==> (#[trigger] self.docs@[k])@.id == self.index@[k]
                && self.docs@[k]@.owner == self.owner
        &&& forall|k: int| 0 <= k < self.index@.len() ==> #[trigger] self.index@[k] < self.next_id
        &&& forall|k1: int, k2: int|
            #![trigger self.index@[k1], self.index@[k2]]
            0 <= k1 < k2 < self.index@.len() ==> self.index@[k1] < self.index@[k2]
    }
}

/// First owner slot of `s` whose owner field is `owner`.
spec fn find_space(s: Seq<OwnerSpace>, owner: u64) -> Option<OwnerSpace>
    decreases s.len(),
{
    if s.len() == 0 {
        None
    } else if s[0].owner == owner {
        Some(s[0])
    } else {
        find_space(s.subrange(1, s.len() as int), owner)
    }
}

/// Some entry of `s` carries the id.
pub open spec fn has_doc_id(s: Seq<DocView>, id: u32) -> bool {
    exists|k: int| 0 <= k < s.len() && (#[trigger] s[k]).id == id
}

/// Position of an entry of `s` carrying the id (the position, when ids are
/// unique and one exists).
pub open spec fn doc_id_pos(s: Seq<DocView>, id: u32) -> int {
    choose|k: int| 0 <= k < s.len() && (#[trigger] s[k]).id == id
}

/// No two entries of `s` share an id.
pub open spec fn distinct_ids(s: Seq<DocView>) -> bool {
    forall|k1: int, k2: int|
        #![trigger s[k1], s[k2]]
        0 <= k1 < k2 < s.len() ==> s[k1].id != s[k2].id
}

/// With unique ids, the lookup of the id found at position `p` yields
/// exactly that position.
pub proof fn lemma_doc_at_unique(s: Seq<DocView>, id: u32, p: int)
    requires
        distinct_ids(s),
        0 <= p < s.len(),
        s[p].id == id,
    ensures
        has_doc_id(s, id),
        doc_id_pos(s, id) == p,
{
    assert(has_doc_id(s, id));
    let c = doc_id_pos(s, id);
    assert(0 <= c < s.len() && s[c].id == id);
    if c < p {
        assert(s[c].id != s[p].id);
    } else if p < c {
        assert(s[p].id != s[c].id);
    }
}

/// The record that create stores: both timestamps equal `now`.
pub open spec fn created_doc_view(
    id: u32,
    owner: u64,
    content: Seq<u8>,
    name: Seq<char>,
    metadata: Option<Seq<u8>>,
    now: u64,
    tags: Seq<Seq<char>>,
) -> DocView {
    DocView {
        id,
        owner,
        content,
        name,
        metadata,
        created_at: now,
        updated_at: now,
        tags,
    }
}

/// The record that update stores: each supplied field replaces the prior
/// value, each absent one is retained, the metadata is never cleared, and
/// the update timestamp becomes `now`.
pub open spec fn apply_update(
    d0: DocView,
    content: Option<Seq<u8>>,
    name: Option<Seq<char>>,
    metadata: Option<Seq<u8>>,
    tags: Option<Seq<Seq<char>>>,
    now: u64,
) -> DocView {
    DocView {
        id: d0.id,
        owner: d0.owner,
        content: match content {
            Some(c) => c,
            None => d0.content,
        },
        name: match name {
            Some(n) => n,
            None => d0.name,
        },
        metadata: match metadata {
            Some(m) => Some(m),
            None => d0.metadata,
        },
        created_at: d0.created_at,
        updated_at: now,
        tags: match tags {
            Some(t) => t,
            None => d0.tags,
        },
    }
}

proof fn lemma_find_space_prefix(s: Seq<OwnerSpace>, owner: u64, i: int)
    requires
        0 <= i <= s.len(),
        forall|k: int| 0 <= k < i ==> (#[trigger] s[k]).owner != owner,
    ensures
        find_space(s, owner) == find_space(s.subrange(i, s.len() as int), owner),
    decreases i,
{
    if i == 0 {
        assert(s.subrange(0, s.len() as int) =~= s);
    } else {
        let tail = s.subrange(1, s.len() as int);
        lemma_find_space_prefix(tail, owner, i - 1);
        assert(tail.subrange(i - 1, tail.len() as int) =~= s.subrange(i, s.len() as int));
    }
}

proof fn lemma_find_space_at(s: Seq<OwnerSpace>, i: int)
    requires
        0 <= i < s.len(),
        forall|k: int| 0 <= k < i ==> (#[trigger] s[k]).owner != s[i].owner,
    ensures
        find_space(s, s[i].owner) == Some(s[i]),
{
    lemma_find_space_prefix(s, s[i].owner, i);
    let tail = s.subrange(i, s.len() as int);
    assert(tail[0] == s[i]);
}

proof fn lemma_find_space_none(s: Seq<OwnerSpace>, owner: u64)
    requires
        forall|k: int| 0 <= k < s.len() ==> (#[trigger] s[k]).owner != owner,
    ensures
        find_space(s, owner) is None,
{
    lemma_find_space_prefix(s, owner, s.len() as int);
    assert(s.subrange(s.len() as int, s.len() as int) =~= Seq::<OwnerSpace>::empty());
}

proof fn lemma_find_space_update(s: Seq<OwnerSpace>, i: int, a: OwnerSpace, owner: u64)
    requires
        0 <= i < s.len(),
        a.owner == s[i].owner,
        forall|k: int| 0 <= k < i ==> (#[trigger] s[k]).owner != a.owner,
    ensures
        find_space(s.update(i, a), owner) == (if owner == a.owner {
            Some(a)
        } else {
            find_space(s, owner)
        }),
    decreases s.len(),
{
    let t = s.update(i, a);
    if i == 0 {
        if owner != a.owner {
            assert(t.subrange(1, t.len() as int) =~= s.subrange(1, s.len() as int));
        }
    } else {
        assert(t[0] == s[0]);
        if s[0].owner != owner {
            let tail = s.subrange(1, s.len() as int);
            assert(t.subrange(1, t.len() as int) =~= tail.update(i - 1, a));
            assert forall|k: int| 0 <= k < i - 1 implies (#[trigger] tail[k]).owner
                != a.owner by {
                assert(tail[k] == s[k + 1]);
            }
            lemma_find_space_update(tail, i - 1, a, owner);
        }
    }
}

proof fn lemma_find_space_push(s: Seq<OwnerSpace>, a: OwnerSpace, owner: u64)
    requires
        forall|k: int| 0 <= k < s.len() ==> (#[trigger] s[k]).owner != a.owner,
    ensures
        find_space(s.push(a), owner) == (if owner == a.owner {
            Some(a)
        } else {
            find_space(s, owner)
        }),
    decreases s.len(),
{
    let t = s.push(a);
    if s.len() == 0 {
        assert(t[0] == a);
        if owner == a.owner {
            assert(find_space(t, owner) == Some(a));
        } else {
            assert(t.subrange(1, t.len() as int) =~= Seq::<OwnerSpace>::empty());
            assert(find_space(t, owner) == find_space(Seq::<OwnerSpace>::empty(), owner));
            assert(find_space(Seq::<OwnerSpace>::empty(), owner) is None);
            assert(s =~= Seq::<OwnerSpace>::empty());
            assert(find_space(s, owner) is None);
        }
    } else {
        assert(t[0] == s[0]);
        if s[0].owner != owner {
            let tail = s.subrange(1, s.len() as int);
            assert(t.subrange(1, t.len() as int) =~= tail.push(a));
            assert forall|k: int| 0 <= k < tail.len() implies (#[trigger] tail[k]).owner
                != a.owner by {
                assert(tail[k] == s[k + 1]);
            }
            lemma_find_space_push(tail, a, owner);
        }
    }
}

/// A found slot is a member of the sequence.
proof fn lemma_find_space_mem(s: Seq<OwnerSpace>, owner: u64)
    ensures
        match find_space(s, owner) {
            Some(a) => exists|i: int| 0 <= i < s.len() && s[i] == a,
            None => true,
        },
    decreases s.len(),
{
    if s.len() > 0 && s[0].owner != owner {
        lemma_find_space_mem(s.subrange(1, s.len() as int), owner);
        if find_space(s, owner) is Some {
            let a = find_space(s, owner)->Some_0;
            let tail = s.subrange(1, s.len() as int);
            let i = choose|i: int| 0 <= i < tail.len() && tail[i] == a;
            assert(s[i + 1] == a);
        }
    }
}

/// The whole store.  Owners appear in at most one slot, and every slot is
/// internally consistent.
pub struct DocumentStorage {
    spaces: Vec<OwnerSpace>,
}

impl DocumentStorage {
    /// Well-formedness: slots belong to pairwise distinct owners; in each
    /// slot, index and records align position by position, every live id is
    /// below the owner's counter, and ids grow strictly along the index.
    pub closed spec fn wf(self) -> bool {
        &&& forall|i: int| 0 <= i < self.spaces@.len() ==> (#[trigger] self.spaces@[i]).wf()
        &&& forall|i1: int, i2: int|
            #![trigger self.spaces@[i1], self.spaces@[i2]]
            0 <= i1 < i2 < self.spaces@.len() ==> self.spaces@[i1].owner != self.spaces@[i2].owner
    }

    /// The owner's allocation counter: the id the next create returns.
    pub closed spec fn next_id_of(self, owner: u64) -> u32 {
        match find_space(self.spaces@, owner) {
            Some(a) => a.next_id,
            None => 0,
        }
    }

    /// The owner's live documents, in creation order.
    pub closed spec fn docs_of(self, owner: u64) -> Seq<DocView> {
        match find_space(self.spaces@, owner) {
            Some(a) => a.docs.deep_view(),
            None => Seq::empty(),
        }
    }

    /// The document stored under `(owner, id)`, if any.
    pub open spec fn doc_at(self, owner: u64, id: u32) -> Option<DocView> {
        if has_doc_id(self.docs_of(owner), id) {
            Some(self.docs_of(owner)[doc_id_pos(self.docs_of(owner), id)])
        } else {
            None
        }
    }

    /// In a well-formed store no two of an owner's documents share an id,
    /// and every live id is strictly below the owner's counter — so the id
    /// of the next create differs from every live id, and (as delete keeps
    /// the counter) from every id ever handed out.
    pub proof fn lemma_live_ids_below_next(self, owner: u64)
        requires
            self.wf(),
        ensures
            distinct_ids(self.docs_of(owner)),
            forall|k: int|
                0 <= k < self.docs_of(owner).len() ==> (#[trigger] self.docs_of(owner)[k]).id
                    < self.next_id_of(owner),
    {
        lemma_find_space_mem(self.spaces@, owner);
        if find_space(self.spaces@, owner) is Some {
            let a = find_space(self.spaces@, owner)->Some_0;
            let i = choose|i: int| 0 <= i < self.spaces@.len() && self.spaces@[i] == a;
            assert(self.spaces@[i].wf());
            assert forall|k: int| 0 <= k < a.docs.deep_view().len() implies (#[trigger] a.docs.deep_view()[k]).id
                < a.next_id by {
                assert(a.docs.deep_view()[k] == a.docs@[k]@);
                assert(a.index@[k] < a.next_id);
            }
            assert forall|k1: int, k2: int|
                #![trigger a.docs.deep_view()[k1], a.docs.deep_view()[k2]]
                0 <= k1 < k2 < a.docs.deep_view().len() implies a.docs.deep_view()[k1].id
                != a.docs.deep_view()[k2].id by {
                assert(a.docs.deep_view()[k1] == a.docs@[k1]@);
                assert(a.docs.deep_view()[k2] == a.docs@[k2]@);
                assert(a.index@[k1] < a.index@[k2]);
            }
        }
    }

    /// Index of the owner's slot, by linear scan.
    fn find_space_index(&self, owner: u64) -> (r: Option<usize>)
        ensures
            match r {
                Some(i) => i < self.spaces@.len() && self.spaces@[i as int].owner == owner
                    && find_space(self.spaces@, owner) == Some(self.spaces@[i as int]),
                None => find_space(self.spaces@, owner) is None,
            },
    {
        let mut i: usize = 0;
        while i < self.spaces.len()
            invariant
                i <= self.spaces@.len(),
                forall|k: int| 0 <= k < i ==> (#[trigger] self.spaces@[k]).owner != owner,
            decreases self.spaces@.len() - i,
        {
            if self.spaces[i].owner == owner {
                proof {
                    lemma_find_space_at(self.spaces@, i as int);
                }
                return Some(i);
            }
            i += 1;
        }
        proof {
            lemma_find_space_none(self.spaces@, owner);
        }
        None
    }

    /// Position of the record carrying `id`, by linear scan.
    fn find_doc_index(docs: &Vec<EncryptedDocument>, id: u32) -> (r: Option<usize>)
        ensures
            match r {
                Some(p) => p < docs@.len() && docs@[p as int]@.id == id,
                None => forall|k: int| 0 <= k < docs@.len() ==> (#[trigger] docs@[k])@.id != id,
            },
    {
        let mut p: usize = 0;
        while p < docs.len()
            invariant
                p <= docs@.len(),
                forall|k: int| 0 <= k < p ==> (#[trigger] docs@[k])@.id != id,
            decreases docs@.len() - p,
        {
            if docs[p].id == id {
                return Some(p);
            }
            p += 1;
        }
        None
    }

    /// A fresh, empty store: no owner has a counter, an index or documents.
    pub fn init() -> (s: DocumentStorage)
        ensures
            s.wf(),
            forall|owner: u64| #[trigger] s.docs_of(owner) == Seq::<DocView>::empty(),
            forall|owner: u64| #[trigger] s.next_id_of(owner) == 0,
    {
        let s = DocumentStorage { spaces: Vec::new() };
        proof {
            assert forall|owner: u64| #[trigger] s.docs_of(owner) == Seq::<DocView>::empty()
                && s.next_id_of(owner) == 0 by {
                assert(find_space(s.spaces@, owner) is None);
            }
        }
        s
    }

    /// Store a new document for `owner`.
    ///
    /// `authorized` is the host's verdict on the caller holding the owner's
    /// credentials; without it nothing is allocated or written.  On success
    /// the returned id is the owner's counter value, the counter advances by
    /// one, and the record — with both timestamps equal to `now` — is
    /// appended to the owner's documents.  Other owners are untouched.
    pub fn store_document(
        &mut self,
        authorized: bool,
        now: u64,
        owner: u64,
        encrypted_content: Vec<u8>,
        name: String,
        encrypted_metadata: Option<Vec<u8>>,
        tags: Vec<String>,
    ) -> (r: Option<u32>)
        requires
            old(self).wf(),
            authorized ==> old(self).next_id_of(owner) < u32::MAX,
        ensures
            final(self).wf(),
            !authorized ==> r is None && *final(self) == *old(self),
            authorized ==> r == Some(old(self).next_id_of(owner)),
            authorized ==> final(self).next_id_of(owner) == old(self).next_id_of(owner) + 1,
            authorized ==> final(self).docs_of(owner) == old(self).docs_of(owner).push(
                created_doc_view(
                    old(self).next_id_of(owner),
                    owner,
                    encrypted_content.deep_view(),
                    name@,
                    encrypted_metadata.deep_view(),
                    now,
                    tags.deep_view(),
                ),
            ),
            authorized ==> final(self).doc_at(owner, old(self).next_id_of(owner)) == Some(
                created_doc_view(
                    old(self).next_id_of(owner),
                    owner,
                    encrypted_content.deep_view(),
                    name@,
                    encrypted_metadata.deep_view(),
                    now,
                    tags.deep_view(),
                ),
            ),
            forall|o: u64| o != owner ==> #[trigger] final(self).docs_of(o) == old(self).docs_of(o),
            forall|o: u64| o != owner ==> #[trigger] final(self).next_id_of(o) == old(
                self,
            ).next_id_of(o),
    {
        if !authorized {
            return None;
        }
        proof {
            old(self).lemma_live_ids_below_next(owner);
        }
        let ghost d = created_doc_view(
            old(self).next_id_of(owner),
            owner,
            encrypted_content.deep_view(),
            name@,
            encrypted_metadata.deep_view(),
            now,
            tags.deep_view(),
        );
        match self.find_space_index(owner) {
            Some(i) => {
                let mut space = self.spaces.remove(i);
                let document_id = space.next_id;
                space.next_id = document_id + 1;
                let document = EncryptedDocument {
                    id: document_id,
                    owner,
                    encrypted_content,
                    name,
                    encrypted_metadata,
                    created_at: now,
                    updated_at: now,
                    tags,
                };
                proof {
                    assert(document@ == d);
                }
                space.index.push(document_id);
                space.docs.push(document);
                let ghost old_space = old(self).spaces@[i as int];
                proof {
                    assert(old_space.wf());
                    assert forall|k: int| 0 <= k < space.docs@.len() implies (
                    #[trigger] space.docs@[k])@.id == space.index@[k] && space.docs@[k]@.owner
                        == space.owner by {
                        if k < old_space.docs@.len() {
                            assert(space.docs@[k] == old_space.docs@[k]);
                        }
                    }
                    assert(space.wf());
                }
                self.spaces.insert(i, space);
                proof {
                    assert(self.spaces@ =~= old(self).spaces@.update(i as int, space));
                    assert(forall|i1: int|
                        0 <= i1 < i ==> (#[trigger] old(self).spaces@[i1]).owner != space.owner);
                    lemma_find_space_update(old(self).spaces@, i as int, space, owner);
                    assert(space.docs.deep_view() =~= old_space.docs.deep_view().push(d));
                    assert forall|o: u64| o != owner implies #[trigger] self.docs_of(o) == old(
                        self,
                    ).docs_of(o) by {
                        lemma_find_space_update(old(self).spaces@, i as int, space, o);
                    }
                    assert forall|o: u64| o != owner implies #[trigger] self.next_id_of(o) == old(
                        self,
                    ).next_id_of(o) by {
                        lemma_find_space_update(old(self).spaces@, i as int, space, o);
                    }
                    assert(self.wf()) by {
                        assert forall|i1: int| 0 <= i1 < self.spaces@.len() implies (
                        #[trigger] self.spaces@[i1]).wf() by {
                            if i1 != i {
                                assert(self.spaces@[i1] == old(self).spaces@[i1]);
                            }
                        }
                    }
                    lemma_doc_at_unique(
                        self.docs_of(owner),
                        d.id,
                        self.docs_of(owner).len() - 1,
                    );
                }
                Some(document_id)
            },
            None => {
                let document = EncryptedDocument {
                    id: 0,
                    owner,
                    encrypted_content,
                    name,
                    encrypted_metadata,
                    created_at: now,
                    updated_at: now,
                    tags,
                };
                proof {
                    assert(document@ == d);
                }
                let mut index: Vec<u32> = Vec::new();
                index.push(0);
                let mut docs: Vec<EncryptedDocument> = Vec::new();
                docs.push(document);
                let space = OwnerSpace { owner, next_id: 1, index, docs };
                proof {
                    assert(space.wf());
                    assert forall|k: int| 0 <= k < old(self).spaces@.len() implies (
                    #[trigger] old(self).spaces@[k]).owner != owner by {
                        if old(self).spaces@[k].owner == owner {
                            lemma_find_space_at(old(self).spaces@, k);
                        }
                    }
                }
                self.spaces.push(space);
                proof {
                    assert(self.spaces@ =~= old(self).spaces@.push(space));
                    lemma_find_space_push(old(self).spaces@, space, owner);
                    assert(space.docs.deep_view() =~= Seq::<DocView>::empty().push(d));
                    assert(old(self).docs_of(owner) =~= Seq::<DocView>::empty());
                    assert forall|o: u64| o != owner implies #[trigger] self.docs_of(o) == old(
                        self,
                    ).docs_of(o) by {
                        lemma_find_space_push(old(self).spaces@, space, o);
                    }
                    assert forall|o: u64| o != owner implies #[trigger] self.next_id_of(o) == old(
                        self,
                    ).next_id_of(o) by {
                        lemma_find_space_push(old(self).spaces@, space, o);
                    }
                    assert(self.wf()) by {
                        assert forall|i1: int| 0 <= i1 < self.spaces@.len() implies (
                        #[trigger] self.spaces@[i1]).wf() by {
                            if i1 < old(self).spaces@.len() {
                                assert(self.spaces@[i1] == old(self).spaces@[i1]);
                            }
                        }
                        assert forall|i1: int, i2: int|
                            #![trigger self.spaces@[i1], self.spaces@[i2]]
                            0 <= i1 < i2 < self.spaces@.len() implies self.spaces@[i1].owner
                            != self.spaces@[i2].owner by {
                            if i2 < old(self).spaces@.len() {
                                assert(self.spaces@[i1] == old(self).spaces@[i1]);
                                assert(self.spaces@[i2] == old(self).spaces@[i2]);
                            } else {
                                assert(self.spaces@[i1] == old(self).spaces@[i1]);
                                assert(self.spaces@[i2] == space);
                            }
                        }
                    }
                    lemma_doc_at_unique(
                        self.docs_of(owner),
                        d.id,
                        self.docs_of(owner).len() - 1,
                    );
                }
                Some(0)
            },
        }
    }

    /// Fetch the document stored under `(owner, id)`.  Reads require no
    /// authorization: any caller that knows owner and id may fetch.
    pub fn get_document(&self, owner: u64, document_id: u32) -> (r: Option<EncryptedDocument>)
        requires
            self.wf(),
        ensures
            match r {
                Some(d) => self.doc_at(owner, document_id) == Some(d@),
                None => self.doc_at(owner, document_id) is None,
            },
    {
        proof {
            self.lemma_live_ids_below_next(owner);
        }
        match self.find_space_index(owner) {
            Some(i) => {
                let space = &self.spaces[i];
                match Self::find_doc_index(&space.docs, document_id) {
                    Some(p) => {
                        proof {
                            assert(space.docs.deep_view()[p as int] == space.docs@[p as int]@);
                            lemma_doc_at_unique(self.docs_of(owner), document_id, p as int);
                        }
                        Some(space.docs[p].duplicate())
                    },
                    None => {
                        proof {
                            assert forall|k: int|
                                0 <= k < self.docs_of(owner).len() implies (
                            #[trigger] self.docs_of(owner)[k]).id != document_id by {
                                assert(space.docs.deep_view()[k] == space.docs@[k]@);
                            }
                        }
                        None
                    },
                }
            },
            None => None,
        }
    }

    /// All documents of the owner, in creation order: the index is walked
    /// and each id looked up; an id whose record is missing would be
    /// skipped, and in a well-formed store none is.
    pub fn get_user_documents(&self, owner: u64) -> (r: Vec<EncryptedDocument>)
        requires
            self.wf(),
        ensures
            r.deep_view() == self.docs_of(owner),
    {
        let mut documents: Vec<EncryptedDocument> = Vec::new();
        match self.find_space_index(owner) {
            Some(i) => {
                let space = &self.spaces[i];
                proof {
                    assert(space.wf());
                }
                let mut k: usize = 0;
                while k < space.index.len()
                    invariant
                        space.wf(),
                        k <= space.index@.len(),
                        documents.deep_view() == space.docs.deep_view().take(k as int),
                    decreases space.index@.len() - k,
                {
                    let doc_id = space.index[k];
                    match Self::find_doc_index(&space.docs, doc_id) {
                        Some(p) => {
                            proof {
                                assert(p as int == k as int) by {
                                    assert(space.docs@[p as int]@.id == space.index@[p as int]);
                                    if p as int != k as int {
                                        assert(space.index@[p as int] == space.index@[k as int]);
                                        assert(false);
                                    }
                                }
                            }
                            let ghost prior = documents.deep_view();
                            proof {
                                assert(space.index@.len() == space.docs@.len());
                                assert(space.docs.deep_view().len() == space.docs@.len());
                                assert(prior.len() == k as int);
                                assert(documents@.len() == k as int);
                            }
                            documents.push(space.docs[p].duplicate());
                            proof {
                                let dv = space.docs.deep_view();
                                assert(documents@.len() == k as int + 1);
                                assert(documents.deep_view().len() == documents@.len());
                                assert(prior.len() == k as int);
                                assert forall|j: int|
                                    0 <= j < k as int + 1 implies #[trigger] documents.deep_view()[
                                    j] == dv.take(k as int + 1)[j] by {
                                    assert(documents.deep_view()[j] == documents@[j].deep_view());
                                    if j < k as int {
                                        assert(documents@[j].deep_view() == prior[j]);
                                        assert(prior[j] == dv[j]);
                                    } else {
                                        assert(documents@[j]@ == space.docs@[k as int]@);
                                        assert(dv[j] == space.docs@[k as int]@);
                                    }
                                }
                                assert(documents.deep_view() =~= dv.take(k as int + 1));
                            }
                        },
                        None => {
                            proof {
                                assert(space.docs@[k as int]@.id == space.index@[k as int]);
                                assert(false);
                            }
                        },
                    }
                    k += 1;
                }
                proof {
                    assert(space.docs.deep_view().take(space.index@.len() as int)
                        =~= space.docs.deep_view());
                }
            },
            None => {
                proof {
                    assert(documents.deep_view() =~= Seq::<DocView>::empty());
                }
            },
        }
        documents
    }

    /// Update the document stored under `(owner, id)`: each supplied field
    /// replaces the prior value, each absent one is retained, the metadata
    /// is never cleared, and `updated_at` is refreshed to `now` on every
    /// successful call, even one that supplies no field.  Without
    /// authorization, or when no such document exists, nothing changes and
    /// `false` comes back.
    pub fn update_document(
        &mut self,
        authorized: bool,
        now: u64,
        owner: u64,
        document_id: u32,
        encrypted_content: Option<Vec<u8>>,
        name: Option<String>,
        encrypted_metadata: Option<Vec<u8>>,
        tags: Option<Vec<String>>,
    ) -> (r: bool)
        requires
            old(self).wf(),
        ensures
            final(self).wf(),
            r == (authorized && old(self).doc_at(owner, document_id) is Some),
            !r ==> *final(self) == *old(self),
            r ==> final(self).docs_of(owner) == old(self).docs_of(owner).update(
                doc_id_pos(old(self).docs_of(owner), document_id),
                apply_update(
                    old(self).doc_at(owner, document_id)->Some_0,
                    encrypted_content.deep_view(),
                    name.deep_view(),
                    encrypted_metadata.deep_view(),
                    tags.deep_view(),
                    now,
                ),
            ),
            r ==> final(self).doc_at(owner, document_id) == Some(
                apply_update(
                    old(self).doc_at(owner, document_id)->Some_0,
                    encrypted_content.deep_view(),
                    name.deep_view(),
                    encrypted_metadata.deep_view(),
                    tags.deep_view(),
                    now,
                ),
            ),
            forall|o: u64| #[trigger] final(self).next_id_of(o) == old(self).next_id_of(o),
            forall|o: u64| o != owner ==> #[trigger] final(self).docs_of(o) == old(self).docs_of(
                o,
            ),
    {
        if !authorized {
            return false;
        }
        proof {
            old(self).lemma_live_ids_below_next(owner);
        }
        let ghost d1 = apply_update(
            old(self).doc_at(owner, document_id)->Some_0,
            encrypted_content.deep_view(),
            name.deep_view(),
            encrypted_metadata.deep_view(),
            tags.deep_view(),
            now,
        );
        match self.find_space_index(owner) {
            None => false,
            Some(i) => {
                match Self::find_doc_index(&self.spaces[i].docs, document_id) {
                    None => {
                        proof {
                            let a = self.spaces@[i as int];
                            assert forall|k: int|
                                0 <= k < self.docs_of(owner).len() implies (
                            #[trigger] self.docs_of(owner)[k]).id != document_id by {
                                assert(a.docs.deep_view()[k] == a.docs@[k]@);
                            }
                        }
                        false
                    },
                    Some(p) => {
                        proof {
                            assert(self.spaces@[i as int].wf());
                            assert(self.docs_of(owner)[p as int] == self.spaces@[
                                i as int
                            ].docs@[p as int]@);
                            lemma_doc_at_unique(self.docs_of(owner), document_id, p as int);
                        }
                        // Defense in depth: the record's stored owner must
                        // match the key owner; under well-formedness it does.
                        if self.spaces[i].docs[p].owner != owner {
                            proof {
                                assert(false);
                            }
                            return false;
                        }
                        let ghost old_space = old(self).spaces@[i as int];
                        let mut space = self.spaces.remove(i);
                        let document = space.docs.remove(p);
                        let updated = EncryptedDocument {
                            id: document.id,
                            owner: document.owner,
                            encrypted_content: match encrypted_content {
                                Some(c) => c,
                                None => document.encrypted_content,
                            },
                            name: match name {
                                Some(n) => n,
                                None => document.name,
                            },
                            encrypted_metadata: match encrypted_metadata {
                                Some(m) => Some(m),
                                None => document.encrypted_metadata,
                            },
                            created_at: document.created_at,
                            updated_at: now,
                            tags: match tags {
                                Some(t) => t,
                                None => document.tags,
                            },
                        };
                        proof {
                            assert(updated@ =~= d1);
                        }
                        space.docs.insert(p, updated);
                        proof {
                            assert(space.docs@ =~= old_space.docs@.update(p as int, updated));
                            assert forall|k: int|
                                0 <= k < space.docs@.len() implies (#[trigger] space.docs@[k])@.id
                                == space.index@[k] && space.docs@[k]@.owner == space.owner by {
                                if k != p as int {
                                    assert(space.docs@[k] == old_space.docs@[k]);
                                }
                            }
                            assert(space.wf());
                        }
                        self.spaces.insert(i, space);
                        proof {
                            assert(self.spaces@ =~= old(self).spaces@.update(i as int, space));
                            lemma_find_space_update(old(self).spaces@, i as int, space, owner);
                            assert(space.docs.deep_view() =~= old(self).docs_of(owner).update(
                                p as int,
                                d1,
                            ));
                            assert forall|o: u64| #[trigger] self.next_id_of(o) == old(
                                self,
                            ).next_id_of(o) by {
                                lemma_find_space_update(old(self).spaces@, i as int, space, o);
                            }
                            assert forall|o: u64| o != owner implies #[trigger] self.docs_of(o)
                                == old(self).docs_of(o) by {
                                lemma_find_space_update(old(self).spaces@, i as int, space, o);
                            }
                            assert(self.wf()) by {
                                assert forall|i1: int|
                                    0 <= i1 < self.spaces@.len() implies (
                                #[trigger] self.spaces@[i1]).wf() by {
                                    if i1 != i as int {
                                        assert(self.spaces@[i1] == old(self).spaces@[i1]);
                                    }
                                }
                            }
                            assert(distinct_ids(self.docs_of(owner))) by {
                                assert forall|k1: int, k2: int|
                                    #![trigger self.docs_of(owner)[k1], self.docs_of(owner)[k2]]
                                    0 <= k1 < k2 < self.docs_of(owner).len() implies self.docs_of(
                                    owner,
                                )[k1].id != self.docs_of(owner)[k2].id by {
                                    assert(self.docs_of(owner)[k1].id == old(self).docs_of(
                                        owner,
                                    )[k1].id);
                                    assert(self.docs_of(owner)[k2].id == old(self).docs_of(
                                        owner,
                                    )[k2].id);
                                }
                            }
                            lemma_doc_at_unique(self.docs_of(owner), document_id, p as int);
                        }
                        true
                    },
                }
            },
        }
    }

    /// Delete the document stored under `(owner, id)`: the record goes away
    /// and its id leaves the owner's index, the rest keeping their order;
    /// the allocation counter stays, so the id is never handed out again.
    /// Without authorization, or when no such document exists, nothing
    /// changes and `false` comes back.
    pub fn delete_document(&mut self, authorized: bool, owner: u64, document_id: u32) -> (r:
        bool)
        requires
            old(self).wf(),
        ensures
            final(self).wf(),
            r == (authorized && old(self).doc_at(owner, document_id) is Some),
            !r ==> *final(self) == *old(self),
            r ==> final(self).docs_of(owner) == old(self).docs_of(owner).remove(
                doc_id_pos(old(self).docs_of(owner), document_id),
            ),
            r ==> final(self).doc_at(owner, document_id) is None,
            forall|o: u64| #[trigger] final(self).next_id_of(o) == old(self).next_id_of(o),
            forall|o: u64| o != owner ==> #[trigger] final(self).docs_of(o) == old(self).docs_of(
                o,
            ),
    {
        if !authorized {
            return false;
        }
        proof {
            old(self).lemma_live_ids_below_next(owner);
        }
        match self.find_space_index(owner) {
            None => false,
            Some(i) => {
                match Self::find_doc_index(&self.spaces[i].docs, document_id) {
                    None => {
                        proof {
                            let a = self.spaces@[i as int];
                            assert forall|k: int|
                                0 <= k < self.docs_of(owner).len() implies (
                            #[trigger] self.docs_of(owner)[k]).id != document_id by {
                                assert(a.docs.deep_view()[k] == a.docs@[k]@);
                            }
                        }
                        false
                    },
                    Some(p) => {
                        proof {
                            assert(self.spaces@[i as int].wf());
                            assert(self.docs_of(owner)[p as int] == self.spaces@[
                                i as int
                            ].docs@[p as int]@);
                            lemma_doc_at_unique(self.docs_of(owner), document_id, p as int);
                        }
                        // Defense in depth: the record's stored owner must
                        // match the key owner; under well-formedness it does.
                        if self.spaces[i].docs[p].owner != owner {
                            proof {
                                assert(false);
                            }
                            return false;
                        }
                        let ghost old_space = old(self).spaces@[i as int];
                        let mut space = self.spaces.remove(i);
                        space.docs.remove(p);
                        space.index.remove(p);
                        proof {
                            old_space.docs@.remove_ensures(p as int);
                            old_space.index@.remove_ensures(p as int);
                            assert forall|k: int|
                                0 <= k < space.docs@.len() implies (#[trigger] space.docs@[k])@.id
                                == space.index@[k] && space.docs@[k]@.owner == space.owner by {
                                if k < p as int {
                                    assert(space.docs@[k] == old_space.docs@[k]);
                                    assert(space.index@[k] == old_space.index@[k]);
                                } else {
                                    assert(space.docs@[k] == old_space.docs@[k + 1]);
                                    assert(space.index@[k] == old_space.index@[k + 1]);
                                }
                            }
                            assert forall|k: int|
                                0 <= k < space.index@.len() implies #[trigger] space.index@[k]
                                < space.next_id by {
                                if k < p as int {
                                    assert(space.index@[k] == old_space.index@[k]);
                                } else {
                                    assert(space.index@[k] == old_space.index@[k + 1]);
                                }
                            }
                            assert forall|k1: int, k2: int|
                                #![trigger space.index@[k1], space.index@[k2]]
                                0 <= k1 < k2 < space.index@.len() implies space.index@[k1]
                                < space.index@[k2] by {
                                if k2 < p as int {
                                    assert(space.index@[k1] == old_space.index@[k1]);
                                    assert(space.index@[k2] == old_space.index@[k2]);
                                } else if k1 < p as int {
                                    assert(space.index@[k1] == old_space.index@[k1]);
                                    assert(space.index@[k2] == old_space.index@[k2 + 1]);
                                } else {
                                    assert(space.index@[k1] == old_space.index@[k1 + 1]);
                                    assert(space.index@[k2] == old_space.index@[k2 + 1]);
                                }
                            }
                            assert(space.wf());
                        }
                        self.spaces.insert(i, space);
                        proof {
                            assert(self.spaces@ =~= old(self).spaces@.update(i as int, space));
                            lemma_find_space_update(old(self).spaces@, i as int, space, owner);
                            assert(space.docs.deep_view() =~= old(self).docs_of(owner).remove(
                                p as int,
                            )) by {
                                old(self).docs_of(owner).remove_ensures(p as int);
                                old_space.docs@.remove_ensures(p as int);
                            }
                            assert forall|o: u64| #[trigger] self.next_id_of(o) == old(
                                self,
                            ).next_id_of(o) by {
                                lemma_find_space_update(old(self).spaces@, i as int, space, o);
                            }
                            assert forall|o: u64| o != owner implies #[trigger] self.docs_of(o)
                                == old(self).docs_of(o) by {
                                lemma_find_space_update(old(self).spaces@, i as int, space, o);
                            }
                            assert(self.wf()) by {
                                assert forall|i1: int|
                                    0 <= i1 < self.spaces@.len() implies (
                                #[trigger] self.spaces@[i1]).wf() by {
                                    if i1 != i as int {
                                        assert(self.spaces@[i1] == old(self).spaces@[i1]);
                                    }
                                }
                            }
                            assert forall|k: int|
                                0 <= k < self.docs_of(owner).len() implies (
                            #[trigger] self.docs_of(owner)[k]).id != document_id by {
                                old(self).docs_of(owner).remove_ensures(p as int);
                                if k < p as int {
                                    assert(self.docs_of(owner)[k] == old(self).docs_of(owner)[k]);
                                } else {
                                    assert(self.docs_of(owner)[k] == old(self).docs_of(owner)[k
                                        + 1]);
                                }
                            }
                        }
                        true
                    },
                }
            },
        }
    }

    /// Documents of the owner having at least one tag equal, character for
    /// character, to some entry of the search set, in listing order.  An
    /// empty search set matches nothing.
    pub fn get_documents_by_tags(&self, owner: u64, search_tags: Vec<String>) -> (r: Vec<
        EncryptedDocument,
    >)
        requires
            self.wf(),
        ensures
            r.deep_view() == self.docs_of(owner).filter(tag_pred(search_tags.deep_view())),
    {
        let all_documents = self.get_user_documents(owner);
        let mut filtered: Vec<EncryptedDocument> = Vec::new();
        let mut i: usize = 0;
        while i < all_documents.len()
            invariant
                i <= all_documents@.len(),
                all_documents.deep_view() == self.docs_of(owner),
                filtered.deep_view() == all_documents.deep_view().take(i as int).filter(
                    tag_pred(search_tags.deep_view()),
                ),
            decreases all_documents@.len() - i,
        {
            let document = &all_documents[i];
            let ghost before = all_documents.deep_view().take(i as int);
            let matched = tags_match(&document.tags, &search_tags);
            proof {
                assert(all_documents.deep_view()[i as int] == all_documents@[i as int]@);
                assert(all_documents.deep_view().take(i as int + 1) =~= before.push(document@));
                lemma_filter_push(before, document@, tag_pred(search_tags.deep_view()));
                assert(tag_pred(search_tags.deep_view())(document@) == matches_any_tag(
                    document@.tags,
                    search_tags.deep_view(),
                ));
            }
            if matched {
                filtered.push(document.duplicate());
                proof {
                    assert(filtered.deep_view() =~= before.filter(
                        tag_pred(search_tags.deep_view()),
                    ).push(document@));
                }
            }
            i += 1;
        }
        proof {
            assert(all_documents.deep_view().take(all_documents@.len() as int)
                =~= all_documents.deep_view());
        }
        filtered
    }

    /// The owner's allocation counter: the id the next create will return.
    /// Callers use it to see the machine bound of `store_document` coming.
    pub fn next_document_id(&self, owner: u64) -> (r: u32)
        ensures
            r == self.next_id_of(owner),
    {
        match self.find_space_index(owner) {
            Some(i) => self.spaces[i].next_id,
            None => 0,
        }
    }

    /// Number of live documents of the owner.
    pub fn get_document_count(&self, owner: u64) -> (r: u32)
        requires
            self.wf(),
        ensures
            r as nat == self.docs_of(owner).len(),
    {
        match self.find_space_index(owner) {
            Some(i) => {
                let space = &self.spaces[i];
                proof {
                    assert(space.wf());
                    if space.index@.len() > 0 {
                        lemma_strictly_increasing_lower_bound(
                            space.index@,
                            space.index@.len() - 1,
                        );
                    }
                    assert(space.docs.deep_view().len() == space.index@.len());
                }
                space.index.len() as u32
            },
            None => 0,
        }
    }
}

/// In a strictly increasing id sequence, the entry at position `k` is at
/// least `k`; so the length never exceeds the counter bound.
proof fn lemma_strictly_increasing_lower_bound(idx: Seq<u32>, k: int)
    requires
        0 <= k < idx.len(),
        forall|k1: int, k2: int|
            #![trigger idx[k1], idx[k2]]
            0 <= k1 < k2 < idx.len() ==> idx[k1] < idx[k2],
    ensures
        idx[k] >= k,
    decreases k,
{
    if k > 0 {
        lemma_strictly_increasing_lower_bound(idx, k - 1);
        assert(idx[k - 1] < idx[k]);
    }
}

/// Filtering a sequence extended by one element keeps the old result and
/// appends the element exactly when it satisfies the predicate.
proof fn lemma_filter_push<A>(s: Seq<A>, x: A, pred: spec_fn(A) -> bool)
    ensures
        s.push(x).filter(pred) == (if pred(x) {
            s.filter(pred).push(x)
        } else {
            s.filter(pred)
        }),
{
    assert(s.push(x).drop_last() =~= s);
    assert(s.push(x).last() == x);
    reveal_with_fuel(Seq::filter, 2);
}


} // verus!
