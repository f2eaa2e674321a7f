//! The document store: the authoritative record of each document's
//! content, metadata and timestamps, keyed by path.

use vstd::prelude::*;
use crate::table::Table;
use crate::types::meta_view;

verus! {

/// The mathematical value of one stored document: content, metadata,
/// creation time, and last update time.
pub type DocModel = (Seq<char>, Option<Seq<(Seq<char>, Seq<char>)>>, u64, u64);

/// One stored document.
pub struct StoredDoc {
    pub content: String,
    pub metadata: Option<Vec<(String, String)>>,
    pub created_at: u64,
    pub updated_at: u64,
}

impl View for StoredDoc {
    type V = DocModel;

    open spec fn view(&self) -> DocModel {
        (self.content@, meta_view(self.metadata), self.created_at, self.updated_at)
    }
}

/// The document store.
pub struct DocumentStore {
    table: Table<StoredDoc>,
}

impl View for DocumentStore {
    type V = Map<Seq<char>, DocModel>;

    closed spec fn view(&self) -> Map<Seq<char>, DocModel> {
        self.table@
    }
}

impl DocumentStore {
    /// Paths are unique.
    pub closed spec fn wf(&self) -> bool {
        self.table.wf()
    }

    /// An empty store.
    pub fn new() -> (s: Self)
        ensures
            s@ =~= Map::<Seq<char>, DocModel>::empty(),
            s.wf(),
    {
        DocumentStore { table: Table::new() }
    }

    /// Creates or overwrites the record for `path`.  A new record gets
    /// `created_at = updated_at = now`; an overwrite keeps the original
    /// `created_at` and refreshes `updated_at`.  Reports whether this
    /// was an insert.
    pub fn put(
        &mut self,
        path: String,
        content: String,
        metadata: Option<Vec<(String, String)>>,
        now: u64,
    ) -> (was_insert: bool)
        requires
            old(self).wf(),
        ensures
            final(self).wf(),
            was_insert == !old(self)@.contains_key(path@),
            final(self)@ =~= old(self)@.insert(
                path@,
                (
                    content@,
                    meta_view(metadata),
                    if old(self)@.contains_key(path@) {
                        old(self)@[path@].2
                    } else {
                        now
                    },
                    now,
                ),
            ),
    {
        let created: u64;
        let was_insert: bool;
        match self.table.get(&path) {
            Some(d) => {
                created = d.created_at;
                was_insert = false;
            },
            None => {
                created = now;
                was_insert = true;
            },
        }
        self.table.set(
            path,
            StoredDoc { content, metadata, created_at: created, updated_at: now },
        );
        was_insert
    }

    /// Removes the record for `path`; nothing happens when none is
    /// there, so deletion is idempotent.
    pub fn delete(&mut self, path: &String) -> (was: bool)
        requires
            old(self).wf(),
        ensures
            final(self).wf(),
            final(self)@ =~= old(self)@.remove(path@),
            was == old(self)@.contains_key(path@),
    {
        self.table.remove(path)
    }

    /// The total number of documents.
    pub fn count(&self) -> (n: usize)
        requires
            self.wf(),
        ensures
            n == self@.dom().len(),
            self@.dom().finite(),
    {
        self.table.len()
    }

    /// Looks up the record for `path`.
    pub fn get(&self, path: &String) -> (r: Option<&StoredDoc>)
        requires
            self.wf(),
        ensures
            match r {
                Some(d) => self@.contains_key(path@) && d@ == self@[path@],
                None => !self@.contains_key(path@),
            },
    {
        self.table.get(path)
    }
}

} // verus!
