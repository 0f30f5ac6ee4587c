//! The decisions of the background flusher: what one flush writes, and when
//! a compaction is due.
use vstd::prelude::*;

use crate::table::SortedTable;
use crate::wal::{replay_batch, replay_batch_lines, tokens_view, Wal};

verus! {

/// Flushes between two compactions.
pub const COMPACTION_CADENCE: u64 = 2;

pub struct Flusher {
    pub wal: Wal,
    /// Directory of the SSTable files.
    pub data_dir: String,
    pub flush_interval_secs: u64,
    /// Flushes since the last compaction.
    pub flush_count: u64,
}

impl Flusher {
    pub fn new(flush_interval_secs: u64, wal: Wal, data_dir: String) -> (f: Flusher)
        ensures
            f.flush_interval_secs == flush_interval_secs,
            f.wal == wal,
            f.data_dir == data_dir,
            f.flush_count == 0,
    {
        Flusher { wal, data_dir, flush_interval_secs, flush_count: 0 }
    }

    /// The table one flush writes from the lines of the aged log segments
    /// (oldest first): `None` when they hold no mutation at all.
    pub fn batch(lines: &[Vec<u8>]) -> (r: Option<SortedTable>)
        ensures
            r is None <==> replay_batch(tokens_view(lines@)) == Map::<Seq<u8>, Option<Seq<u8>>>::empty(),
            r matches Some(t) ==> t.wf() && t.map() == replay_batch(tokens_view(lines@)),
    {
        let t = replay_batch_lines(lines);
        if t.is_empty() {
            proof {
                assert(t.map() =~= Map::<Seq<u8>, Option<Seq<u8>>>::empty());
            }
            None
        } else {
            proof {
                crate::table::lemma_map_at(t@, 0);
                assert(t.map().dom().contains(t@[0].0));
            }
            Some(t)
        }
    }

    /// Counts a finished flush; says whether a compaction is due now, every
    /// `COMPACTION_CADENCE` flushes.
    pub fn tick(&mut self) -> (compact: bool)
        requires
            old(self).flush_count < COMPACTION_CADENCE,
        ensures
            compact == (old(self).flush_count + 1 >= COMPACTION_CADENCE),
            final(self).flush_count == if compact { 0 } else { old(self).flush_count + 1 },
            final(self).flush_count < COMPACTION_CADENCE,
            final(self).flush_interval_secs == old(self).flush_interval_secs,
    {
        self.flush_count = self.flush_count + 1;
        if self.flush_count >= COMPACTION_CADENCE {
            self.flush_count = 0;
            true
        } else {
            false
        }
    }
}

} // verus!
