//! Filling the cache from the newest rows per sensor when the process starts.
use crate::cache::Cache;
use crate::db;
use crate::db::{DbError, Row};
use vstd::prelude::*;

verus! {

/// How many sensors are fetched at a time, so that no more than one chunk of
/// rows is held.
pub const CHUNK: usize = 100;

/// The sensors whose readings are still to be fetched.
pub struct WarmUp {
    ids: Vec<String>,
    next: usize,
}

impl WarmUp {
    /// No more was handed out than there is.
    pub closed spec fn wf(self) -> bool {
        self.next <= self.ids@.len()
    }

    /// The sensors still to be fetched.
    pub closed spec fn pending(self) -> Seq<String> {
        self.ids@.skip(self.next as int)
    }

    /// All of `ids` are to be fetched.
    pub fn new(ids: Vec<String>) -> (warm_up: Self)
        ensures
            warm_up.wf(),
            warm_up.pending() == ids@,
    {
        let warm_up = WarmUp { ids, next: 0 };
        proof {
            assert(warm_up.pending() =~= ids@);
        }
        warm_up
    }

    /// The next chunk of sensors to fetch, or `None` when all were handed
    /// out. Every sensor is handed out once, in order.
    pub fn next_chunk(&mut self) -> (chunk: Option<Vec<String>>)
        requires
            old(self).wf(),
        ensures
            final(self).wf(),
            match chunk {
                Some(ids) => {
                    &&& 0 < ids@.len() <= CHUNK
                    &&& ids@.len() < CHUNK ==> final(self).pending().len() == 0
                    &&& old(self).pending() == ids@ + final(self).pending()
                },
                None => old(self).pending().len() == 0 && final(self).pending().len() == 0,
            },
    {
        let total: usize = self.ids.len();
        if self.next == total {
            return None;
        }
        let end: usize = if total - self.next < CHUNK {
            total
        } else {
            self.next + CHUNK
        };
        let mut ids: Vec<String> = Vec::new();
        let start: usize = self.next;
        while self.next < end
            invariant
                self.ids == old(self).ids,
                end <= self.ids@.len(),
                start <= self.next <= end,
                ids@ == self.ids@.subrange(start as int, self.next as int),
            decreases end - self.next,
        {
            ids.push(self.ids[self.next].clone());
            proof {
                assert(ids@ =~= self.ids@.subrange(start as int, self.next + 1));
            }
            self.next = self.next + 1;
        }
        proof {
            assert(old(self).pending() =~= ids@ + self.pending());
        }
        Some(ids)
    }
}

/// Takes the rows of one chunk into the cache.
pub fn absorb(cache: &mut Cache, rows: Vec<Row>)
    requires
        old(cache).wf(),
    ensures
        final(cache).wf(),
        final(cache)@ == old(cache)@.inserted_all(db::pairs(rows@)),
        final(cache).live() == old(cache)@.live_after_all(
            old(cache).live(),
            db::pairs(rows@),
            false,
        ),
{
    let found = db::into_pairs(rows);
    cache.restore_pairs(&found)
}

/// What a fetch of the warm-up leaves, and whether to go on with the next.
///
/// The rows of a chunk go into the cache at once, so that no more than one
/// chunk is held beside it. A failure ends the warm-up, and the service
/// carries on without what it had brought: every sensor goes that no write has
/// reached since it got in, so that a cache which only the warm-up filled is
/// empty. A sensor that was written to meanwhile keeps its whole buffer; live
/// data is not given up for a failed read.
pub fn settle(cache: &mut Cache, fetched: Result<Vec<Row>, DbError>) -> (go_on: bool)
    requires
        old(cache).wf(),
    ensures
        final(cache).wf(),
        go_on == (fetched is Ok),
        match fetched {
            Ok(rows) => {
                &&& final(cache)@ == old(cache)@.inserted_all(db::pairs(rows@))
                &&& final(cache).live() == old(cache)@.live_after_all(
                    old(cache).live(),
                    db::pairs(rows@),
                    false,
                )
            },
            Err(_) => {
                &&& final(cache)@ == old(cache)@.only(old(cache).live())
                &&& final(cache).live() == old(cache).live()
            },
        },
{
    match fetched {
        Ok(rows) => {
            absorb(cache, rows);
            true
        },
        Err(_) => {
            cache.keep_live();
            false
        },
    }
}

/// How many rows per sensor to ask the database for.
pub fn rows_per_sensor(per_sensor: usize) -> (rows: i64)
    ensures
        rows == if per_sensor <= i64::MAX {
            per_sensor as int
        } else {
            i64::MAX as int
        },
{
    if per_sensor as u64 <= i64::MAX as u64 {
        per_sensor as i64
    } else {
        i64::MAX
    }
}

} // verus!
