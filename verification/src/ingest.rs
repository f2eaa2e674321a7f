//! Bulk ingestion: a thin driver that hands each record of a batch to
//! an indexer's upsert operation.  Reading records out of files is the
//! surrounding program's concern; the driver works on parsed records.

use vstd::prelude::*;
use crate::doc_store::DocModel;
use crate::engine::spec_upsert;
use crate::traits::DocumentIndexer;
use crate::types::{meta_view, DocumentRequest, SearchError};

verus! {

/// The document map after upserting each record of the batch in order.
pub open spec fn ingest_fold(
    m: Map<Seq<char>, DocModel>,
    records: Seq<DocumentRequest>,
    now: u64,
) -> Map<Seq<char>, DocModel>
    decreases records.len(),
{
    if records.len() == 0 {
        m
    } else {
        spec_upsert(
            ingest_fold(m, records.drop_last(), now),
            records.last().path@,
            records.last().content@,
            meta_view(records.last().metadata),
            now,
        )
    }
}

/// A bulk ingestor over any document indexer.
pub struct JsonFileIngestor<I: DocumentIndexer> {
    pub indexer: I,
}

impl<I: DocumentIndexer> JsonFileIngestor<I> {
    /// Wraps an indexer.
    pub fn new(indexer: I) -> (r: Self)
        ensures
            r.indexer == indexer,
    {
        JsonFileIngestor { indexer }
    }

    /// Upserts the records in order, stopping at the first failure and
    /// reporting it.  An empty batch succeeds.  On success every record
    /// was upserted, in order, and the count is the whole batch; on
    /// failure the records before the failing one were upserted, and
    /// the failing call either left the map unchanged or completed its
    /// document record (the indexer's partial-write tolerance).
    pub fn ingest_records(&mut self, records: &Vec<DocumentRequest>, now: u64) -> (r: Result<
        usize,
        SearchError,
    >)
        requires
            old(self).indexer.inv(),
        ensures
            final(self).indexer.inv(),
            records@.len() == 0 ==> r is Ok,
            match r {
                Ok(n) => n == records@.len() && final(self).indexer.model() == ingest_fold(
                    old(self).indexer.model(),
                    records@,
                    now,
                ),
                Err(_) => exists|j: int|
                    0 <= j < records@.len() && (final(self).indexer.model() == ingest_fold(
                        old(self).indexer.model(),
                        records@.subrange(0, j),
                        now,
                    ) || final(self).indexer.model() == spec_upsert(
                        ingest_fold(old(self).indexer.model(), records@.subrange(0, j), now),
                        records@[j].path@,
                        records@[j].content@,
                        meta_view(records@[j].metadata),
                        now,
                    )),
            },
    {
        let ghost m0 = self.indexer.model();
        let mut i: usize = 0;
        proof {
            assert(records@.subrange(0, 0) =~= Seq::<DocumentRequest>::empty());
        }
        while i < records.len()
            invariant
                self.indexer.inv(),
                0 <= i <= records@.len(),
                m0 == old(self).indexer.model(),
                self.indexer.model() == ingest_fold(m0, records@.subrange(0, i as int), now),
            decreases records@.len() - i,
        {
            let rec = records[i].duplicate();
            proof {
                assert(records@.subrange(0, i + 1).drop_last() =~= records@.subrange(
                    0,
                    i as int,
                ));
                assert(records@.subrange(0, i + 1).last() == records@[i as int]);
            }
            let ghost mprev = ingest_fold(m0, records@.subrange(0, i as int), now);
            match self.indexer.upsert_document(rec, now) {
                Ok(()) => {},
                Err(e) => {
                    proof {
                        let j = i as int;
                        assert(0 <= j < records@.len());
                        assert(self.indexer.model() == ingest_fold(
                            m0,
                            records@.subrange(0, j),
                            now,
                        ) || self.indexer.model() == spec_upsert(
                            ingest_fold(m0, records@.subrange(0, j), now),
                            records@[j].path@,
                            records@[j].content@,
                            meta_view(records@[j].metadata),
                            now,
                        )) by {
                            assert(mprev == ingest_fold(m0, records@.subrange(0, j), now));
                        }
                        assert(exists|j2: int|
                            0 <= j2 < records@.len() && (self.indexer.model()
                                == ingest_fold(m0, records@.subrange(0, j2), now)
                                || self.indexer.model() == spec_upsert(
                                ingest_fold(m0, records@.subrange(0, j2), now),
                                records@[j2].path@,
                                records@[j2].content@,
                                meta_view(records@[j2].metadata),
                                now,
                            ))) by {
                            assert(0 <= j < records@.len() && (self.indexer.model()
                                == ingest_fold(m0, records@.subrange(0, j), now)
                                || self.indexer.model() == spec_upsert(
                                ingest_fold(m0, records@.subrange(0, j), now),
                                records@[j].path@,
                                records@[j].content@,
                                meta_view(records@[j].metadata),
                                now,
                            )));
                        }
                    }
                    return Err(e);
                },
            }
            i = i + 1;
        }
        proof {
            assert(records@.subrange(0, records@.len() as int) =~= records@);
        }
        Ok(i)
    }
}

} // verus!
