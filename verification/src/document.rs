//! The document record, its mathematical image, and tag matching.

use vstd::prelude::*;

verus! {

/// Mathematical image of a stored document: every field as a plain
/// spec-level value.
#[verifier::ext_equal]
pub ghost struct DocView {
    pub id: u32,
    pub owner: u64,
    pub content: Seq<u8>,
    pub name: Seq<char>,
    pub metadata: Option<Seq<u8>>,
    pub created_at: u64,
    pub updated_at: u64,
    pub tags: Seq<Seq<char>>,
}

/// An owner-scoped record holding opaque (already encrypted) content and
/// metadata blobs, a mutable name, two timestamps and search tags.
#[derive(Clone, Debug, PartialEq, Eq)]
pub struct EncryptedDocument {
    pub id: u32,
    pub owner: u64,
    pub encrypted_content: Vec<u8>,
    pub name: String,
    pub encrypted_metadata: Option<Vec<u8>>,
    pub created_at: u64,
    pub updated_at: u64,
    pub tags: Vec<String>,
}

impl View for EncryptedDocument {
    type V = DocView;

    open spec fn view(&self) -> DocView {
        DocView {
            id: self.id,
            owner: self.owner,
            content: self.encrypted_content.deep_view(),
            name: self.name@,
            metadata: self.encrypted_metadata.deep_view(),
            created_at: self.created_at,
            updated_at: self.updated_at,
            tags: self.tags.deep_view(),
        }
    }
}

impl DeepView for EncryptedDocument {
    type V = DocView;

    open spec fn deep_view(&self) -> DocView {
        self.view()
    }
}

impl EncryptedDocument {
    /// An explicit deep copy whose contract records that the view is kept.
    pub fn duplicate(&self) -> (r: EncryptedDocument)
        ensures
            r@ == self@,
    {
        let r = EncryptedDocument {
            id: self.id,
            owner: self.owner,
            encrypted_content: self.encrypted_content.clone(),
            name: self.name.clone(),
            encrypted_metadata: match &self.encrypted_metadata {
                Some(b) => Some(b.clone()),
                None => None,
            },
            created_at: self.created_at,
            updated_at: self.updated_at,
            tags: self.tags.clone(),
        };
        proof {
            assert(r.encrypted_content.deep_view() =~= self.encrypted_content.deep_view());
            assert(r.encrypted_metadata.deep_view() =~= self.encrypted_metadata.deep_view());
            assert(r.tags.deep_view() =~= self.tags.deep_view());
            assert(r@ =~= self@);
        }
        r
    }
}

/// One of `tags` equals `t`, by exact, case-sensitive character comparison.
pub open spec fn has_tag(tags: Seq<Seq<char>>, t: Seq<char>) -> bool {
    exists|k: int| 0 <= k < tags.len() && tags[k] == t
}

/// OR semantics: a document matches when any of its tags equals any entry
/// of the search set.
pub open spec fn matches_any_tag(tags: Seq<Seq<char>>, search: Seq<Seq<char>>) -> bool {
    exists|j: int| 0 <= j < search.len() && has_tag(tags, search[j])
}

/// The retention predicate of a tag query, as a value, so that callers and
/// contracts speak of one and the same function.
pub open spec fn tag_pred(search: Seq<Seq<char>>) -> spec_fn(DocView) -> bool {
    |d: DocView| matches_any_tag(d.tags, search)
}

/// Linear scan deciding whether any document tag equals any search tag.
pub fn tags_match(doc_tags: &Vec<String>, search_tags: &Vec<String>) -> (r: bool)
    ensures
        r == matches_any_tag(doc_tags.deep_view(), search_tags.deep_view()),
{
    let mut j: usize = 0;
    while j < search_tags.len()
        invariant
            j <= search_tags@.len(),
            forall|jj: int| 0 <= jj < j ==> !has_tag(
                doc_tags.deep_view(),
                search_tags.deep_view()[jj],
            ),
        decreases search_tags@.len() - j,
    {
        let mut k: usize = 0;
        while k < doc_tags.len()
            invariant
                j < search_tags@.len(),
                k <= doc_tags@.len(),
                forall|kk: int| 0 <= kk < k ==> doc_tags.deep_view()[kk]
                    != search_tags.deep_view()[j as int],
            decreases doc_tags@.len() - k,
        {
            if doc_tags[k] == search_tags[j] {
                proof {
                    assert(doc_tags.deep_view()[k as int] == doc_tags@[k as int]@);
                    assert(search_tags.deep_view()[j as int] == search_tags@[j as int]@);
                    assert(has_tag(doc_tags.deep_view(), search_tags.deep_view()[j as int]));
                }
                return true;
            }
            proof {
                assert(doc_tags.deep_view()[k as int] == doc_tags@[k as int]@);
            }
            k += 1;
        }
        j += 1;
    }
    false
}

} // verus!
