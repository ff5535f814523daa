use crate::bundle::{BundleMode, ChunkEntry};
use crate::bundle_map::rows_map;
use crate::codec::Compressor;
use crate::error::RepositoryError;
use crate::hash;
use crate::index::Location;
use crate::repository::{ids_spare, lemma_next_free_bound, max_id, Repository};
use vstd::prelude::*;

verus! {

impl<C: Compressor> Repository<C> {
    /// A bound on the ids in use is a bound on them when it is raised.
    pub proof fn lemma_ids_raise(&self, b: int, c: int)
        requires
            self.ids_under(b),
            b <= c,
        ensures
            self.ids_under(c),
    {
    }

    /// Publishing an open bundle takes one id.
    pub proof fn lemma_published_ids(&self, new: &Self, mode: BundleMode, upto: int, b: int)
        requires
            self.ids_under(b),
            self.published(new, mode, upto),
        ensures
            new.ids_under(b + 1),
    {
        lemma_next_free_bound(
            self.bundle_map(),
            max_id(self.next_data(), self.next_meta()),
            new.next_id(mode),
            b,
        );
        match mode {
            BundleMode::Data => {},
            BundleMode::Meta => {},
        }
    }

    /// Closing an open bundle takes one id at most, however it ends.
    pub proof fn lemma_sealed_ids(
        &self,
        new: &Self,
        mode: BundleMode,
        r: Result<(), RepositoryError>,
        b: int,
    )
        requires
            self.ids_under(b),
            self.sealed(new, mode, r),
        ensures
            new.ids_under(b + 1),
    {
        match r {
            Ok(()) => {
                self.lemma_published_ids(new, mode, self.pending(mode).len() as int, b);
            },
            Err(RepositoryError::IndexFull) => {
                let upto = choose|upto: int|
                    0 <= upto < self.pending(mode).len() && #[trigger] self.published(
                        new,
                        mode,
                        upto,
                    ) && !new.index_takes(self.pending(mode)[upto].hash);
                self.lemma_published_ids(new, mode, upto, b);
            },
            Err(_) => {},
        }
    }

    /// Writing a chunk takes one id at most, however it ends.
    pub proof fn lemma_written_ids(
        &self,
        new: &Self,
        mode: BundleMode,
        h: hash::Hash,
        data: Seq<u8>,
        r: Result<Location, RepositoryError>,
        b: int,
    )
        requires
            self.ids_under(b),
            self.written(new, mode, h, data, r),
        ensures
            new.ids_under(b + 1),
    {
        if !(r matches Err(RepositoryError::IdsExhausted)) {
            let mid = choose|mid: Self| #[trigger]
                self.appended(&mid, mode, h, data) && mid.full(mode) == self.fills(
                    mode,
                    data.len(),
                ) && match r {
                    Ok(loc) => {
                        &&& loc == Location {
                            bundle: self.next_id(mode),
                            chunk: self.pending(mode).len() as u32,
                        }
                        &&& if mid.full(mode) {
                            mid.published(new, mode, mid.pending(mode).len() as int)
                        } else {
                            new.same_storage(&mid)
                        }
                    },
                    Err(e) => mid.full(mode) && mid.sealed(
                        new,
                        mode,
                        Err::<(), RepositoryError>(e),
                    ),
                };
            assert(mid.ids_under(b));
            match r {
                Ok(_) => {
                    if mid.full(mode) {
                        mid.lemma_published_ids(new, mode, mid.pending(mode).len() as int, b);
                    }
                },
                Err(e) => {
                    mid.lemma_sealed_ids(new, mode, Err::<(), RepositoryError>(e), b);
                },
            }
        }
    }

    /// Putting the pieces of a stream takes one id for each piece at most.
    pub proof fn lemma_chain_ids(
        trail: Seq<Self>,
        mode: BundleMode,
        data: Seq<u8>,
        cuts: Seq<int>,
        list: Seq<ChunkEntry>,
        k: int,
        b: int,
    )
        requires
            Self::put_chain(trail, mode, data, cuts, list, k),
            trail[0].ids_under(b),
        ensures
            trail[k].ids_under(b + k),
        decreases k,
    {
        if k > 0 {
            let shorter = trail.subrange(0, k);
            assert forall|j: int| 0 <= j < k - 1 implies #[trigger] Self::link(
                shorter,
                mode,
                data,
                cuts,
                list,
                j,
            ) by {
                assert(Self::link(trail, mode, data, cuts, list, j));
                assert(shorter[j] == trail[j] && shorter[j + 1] == trail[j + 1]);
            }
            Self::lemma_chain_ids(shorter, mode, data, cuts, list, k - 1, b);
            assert(shorter[k - 1] == trail[k - 1]);
            assert(Self::link(trail, mode, data, cuts, list, k - 1));
            let before = trail[k - 1];
            let after = trail[k];
            let h = list[k - 1].hash;
            let piece = Self::piece(data, cuts, k - 1);
            let loc = choose|loc: Location| #[trigger]
                before.put(&after, mode, h, piece, Ok::<Location, RepositoryError>(loc));
            if !before.index().dom().contains(h) {
                before.lemma_written_ids(
                    &after,
                    mode,
                    h,
                    piece,
                    Ok::<Location, RepositoryError>(loc),
                    b + k - 1,
                );
            }
        }
    }

    /// Flushing takes two ids at most.
    pub proof fn lemma_flushed_ids(&self, new: &Self, b: int)
        requires
            self.ids_under(b),
            self.flushed(new),
        ensures
            new.ids_under(b + 2),
    {
        let mid = choose|mid: Self| #[trigger]
            self.step(&mid, BundleMode::Data) && mid.step(new, BundleMode::Meta);
        if self.writer(BundleMode::Data) is Some {
            self.lemma_published_ids(
                &mid,
                BundleMode::Data,
                self.pending(BundleMode::Data).len() as int,
                b,
            );
        }
        assert(mid.ids_under(b + 1));
        if mid.writer(BundleMode::Meta) is Some {
            mid.lemma_published_ids(
                new,
                BundleMode::Meta,
                mid.pending(BundleMode::Meta).len() as int,
                b + 1,
            );
        }
    }

    /// A bound on the ids in use that leaves two ids leaves them above every row of the
    /// bundle map.
    pub proof fn lemma_ids_spare(&self, rows: Seq<crate::bundle_map::MapEntry>, b: int)
        requires
            self.ids_under(b),
            b + 2 <= u32::MAX,
            rows_map(rows) == self.bundle_map(),
        ensures
            ids_spare(rows, 2),
    {
        assert forall|k: int| 0 <= k < rows.len() implies (#[trigger] rows[k]).id + 2
            < u32::MAX by {
            assert(rows_map(rows).dom().contains(rows[k].id));
        }
    }
}

} // verus!
