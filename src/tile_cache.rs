//! The shared store of downloaded tile images.
//!
//! Resolving a set of tiles takes three steps, all made while the caller
//! holds the cache exclusively: `missing` lists the tiles to download (each
//! at most once), the caller downloads them, and `complete` stores what
//! arrived and hands back the requested tiles in order. Entries are never
//! changed or removed once stored.

use vstd::prelude::*;
use bytes::Bytes;
use std::collections::HashMap;
use crate::tile::{Tile, bytes_content};
use crate::tile_grid::TileInfo;
use crate::tile_id::{TileId, lemma_key_injective};

verus! {

broadcast use vstd::std_specs::hash::group_hash_axioms;

/// The identifiers of `required`, in order.
pub open spec fn info_ids(required: Seq<TileInfo>) -> Seq<TileId> {
    required.map_values(|t: TileInfo| t.id)
}

/// The tiles of `required` that `cached` lacks, each once, in the order of
/// their first appearance.
pub open spec fn missing_ids(cached: Set<TileId>, required: Seq<TileId>) -> Seq<TileId>
    decreases required.len(),
{
    if required.len() == 0 {
        seq![]
    } else {
        let earlier = missing_ids(cached, required.drop_last());
        let id = required.last();
        if cached.contains(id) || earlier.contains(id) {
            earlier
        } else {
            earlier.push(id)
        }
    }
}

/// `cached` after storing, in order, the image of each download of `ids`
/// that succeeded, for tiles not stored yet; failed downloads store nothing
/// and stored images are never replaced.
pub open spec fn commit<E>(cached: Map<TileId, Bytes>, ids: Seq<TileId>, results: Seq<Result<Bytes, E>>) -> Map<
    TileId,
    Bytes,
>
    decreases ids.len(),
{
    if ids.len() == 0 || results.len() == 0 {
        cached
    } else {
        let earlier = commit(cached, ids.drop_last(), results.drop_last());
        match results.last() {
            Ok(b) => if earlier.contains_key(ids.last()) {
                earlier
            } else {
                earlier.insert(ids.last(), b)
            },
            Err(_) => earlier,
        }
    }
}

/// The error of the first download that failed, if any did.
pub open spec fn first_error<E>(results: Seq<Result<Bytes, E>>) -> Option<E>
    decreases results.len(),
{
    if results.len() == 0 {
        None
    } else {
        match first_error(results.drop_last()) {
            Some(e) => Some(e),
            None => match results.last() {
                Err(e) => Some(e),
                Ok(_) => None,
            },
        }
    }
}

/// Whether `tile` is the tile of `info`, carrying the image stored for it
/// in `cached`.
pub open spec fn serves(cached: Map<TileId, Bytes>, tile: Tile, info: TileInfo) -> bool {
    &&& tile.id == info.id
    &&& tile.coords == info.coords
    &&& bytes_content(tile.data) == bytes_content(cached[info.id])
}

/// What `missing_ids` lists: tiles of `required` that `cached` lacks, none
/// twice; and every tile of `required` is cached or listed.
pub proof fn lemma_missing_ids(cached: Set<TileId>, required: Seq<TileId>)
    ensures
        missing_ids(cached, required).no_duplicates(),
        forall|i: int|
            0 <= i < missing_ids(cached, required).len() ==> !cached.contains(
                #[trigger] missing_ids(cached, required)[i],
            ) && required.contains(missing_ids(cached, required)[i]),
        forall|j: int|
            0 <= j < required.len() ==> cached.contains(#[trigger] required[j]) || missing_ids(
                cached,
                required,
            ).contains(required[j]),
    decreases required.len(),
{
    if required.len() > 0 {
        let earlier = required.drop_last();
        lemma_missing_ids(cached, earlier);
        let m = missing_ids(cached, required);
        let e = missing_ids(cached, earlier);
        assert forall|i: int| 0 <= i < m.len() implies !cached.contains(#[trigger] m[i]) && required.contains(m[i]) by {
            if i < e.len() {
                assert(m[i] == e[i]);
                let k = choose|k: int| 0 <= k < earlier.len() && earlier[k] == e[i];
                assert(required[k] == m[i]);
            } else {
                assert(required[required.len() - 1] == m[i]);
            }
        }
        assert forall|j: int| 0 <= j < required.len() implies cached.contains(#[trigger] required[j]) || m.contains(
            required[j],
        ) by {
            if j < earlier.len() {
                assert(earlier[j] == required[j]);
                if e.contains(required[j]) {
                    let k = choose|k: int| 0 <= k < e.len() && e[k] == required[j];
                    assert(m[k] == required[j]);
                }
            } else if !cached.contains(required[j]) && !e.contains(required[j]) {
                assert(m[m.len() - 1] == required[j]);
            }
        }
    }
}

/// A tile is stored after `commit` exactly when it was stored before or one
/// of its downloads succeeded; every image stored before stays as it was.
pub proof fn lemma_commit<E>(cached: Map<TileId, Bytes>, ids: Seq<TileId>, results: Seq<Result<Bytes, E>>)
    requires
        ids.len() == results.len(),
    ensures
        forall|id: TileId|
            #[trigger] commit(cached, ids, results).contains_key(id) <==> (cached.contains_key(id) || exists|i: int|
                0 <= i < ids.len() && ids[i] == id && results[i] is Ok),
        forall|id: TileId| cached.contains_key(id) ==> #[trigger] commit(cached, ids, results)[id] == cached[id],
    decreases ids.len(),
{
    if ids.len() > 0 {
        let (ei, er) = (ids.drop_last(), results.drop_last());
        lemma_commit(cached, ei, er);
        let c = commit(cached, ids, results);
        let e = commit(cached, ei, er);
        let n = ids.len() - 1;
        assert(ids.last() == ids[n] && results.last() == results[n]);
        assert forall|id: TileId| #[trigger] c.contains_key(id) <==> (cached.contains_key(id) || exists|i: int|
            0 <= i < ids.len() && ids[i] == id && results[i] is Ok) by {
            if c.contains_key(id) && !cached.contains_key(id) {
                if e.contains_key(id) {
                    let i = choose|i: int| 0 <= i < ei.len() && ei[i] == id && er[i] is Ok;
                    assert(ids[i] == id && results[i] is Ok);
                } else {
                    assert(ids[n] == id && results[n] is Ok);
                }
            }
            if exists|i: int| 0 <= i < ids.len() && ids[i] == id && results[i] is Ok {
                let i = choose|i: int| 0 <= i < ids.len() && ids[i] == id && results[i] is Ok;
                if i < n {
                    assert(ei[i] == id && er[i] is Ok);
                    assert(e.contains_key(id));
                }
            }
            if cached.contains_key(id) {
                assert(e.contains_key(id));
            }
        }
        assert forall|id: TileId| cached.contains_key(id) implies #[trigger] c[id] == cached[id] by {
            assert(e.contains_key(id));
            assert(e[id] == cached[id]);
        }
    }
}

/// `first_error` finds an error exactly when some download failed.
pub proof fn lemma_first_error<E>(results: Seq<Result<Bytes, E>>)
    ensures
        first_error(results) is None <==> forall|i: int| 0 <= i < results.len() ==> (#[trigger] results[i]) is Ok,
    decreases results.len(),
{
    if results.len() > 0 {
        let earlier = results.drop_last();
        lemma_first_error(earlier);
        if first_error(results) is None {
            assert forall|i: int| 0 <= i < results.len() implies (#[trigger] results[i]) is Ok by {
                if i < earlier.len() {
                    assert(earlier[i] == results[i]);
                }
            }
        }
        if forall|i: int| 0 <= i < results.len() ==> (#[trigger] results[i]) is Ok {
            assert forall|i: int| 0 <= i < earlier.len() implies (#[trigger] earlier[i]) is Ok by {
                assert(earlier[i] == results[i]);
            }
        }
    }
}

/// After a resolve whose downloads all succeeded, the cache holds what it
/// held before and every downloaded tile.
pub proof fn lemma_successful_resolve_stores_all<E>(
    cached: Map<TileId, Bytes>,
    ids: Seq<TileId>,
    results: Seq<Result<Bytes, E>>,
)
    requires
        ids.len() == results.len(),
        first_error(results) is None,
    ensures
        commit(cached, ids, results).dom() == cached.dom() + ids.to_set(),
{
    lemma_first_error(results);
    lemma_commit(cached, ids, results);
    let c = commit(cached, ids, results);
    assert forall|id: TileId| c.dom().contains(id) <==> (cached.dom() + ids.to_set()).contains(id) by {
        if ids.contains(id) {
            let i = choose|i: int| 0 <= i < ids.len() && ids[i] == id;
            assert(results[i] is Ok);
        }
    }
    assert(c.dom() =~= cached.dom() + ids.to_set());
}

/// When the download of a missing tile fails, the resolve reports a
/// failure, the cache gains no entry for that tile, and every entry held
/// before stays as it was.
pub proof fn lemma_failed_download_not_stored<E>(
    cached: Map<TileId, Bytes>,
    required: Seq<TileId>,
    results: Seq<Result<Bytes, E>>,
    k: int,
)
    requires
        results.len() == missing_ids(cached.dom(), required).len(),
        0 <= k < results.len(),
        results[k] is Err,
    ensures
        first_error(results) is Some,
        !commit(cached, missing_ids(cached.dom(), required), results).contains_key(
            missing_ids(cached.dom(), required)[k],
        ),
        forall|id: TileId|
            cached.contains_key(id) ==> #[trigger] commit(
                cached,
                missing_ids(cached.dom(), required),
                results,
            ).contains_key(id) && commit(cached, missing_ids(cached.dom(), required), results)[id]
                == cached[id],
{
    let ids = missing_ids(cached.dom(), required);
    lemma_first_error(results);
    lemma_missing_ids(cached.dom(), required);
    lemma_commit(cached, ids, results);
    assert(!cached.contains_key(ids[k])) by {
        assert(!cached.dom().contains(ids[k]));
    }
}

/// The tiles downloaded by a run of resolves made one after another, each
/// holding the cache exclusively, when every download succeeds: each
/// resolve downloads what it needs and the cache lacks, and then holds it.
pub open spec fn fetch_log(cached: Set<TileId>, requests: Seq<Seq<TileId>>) -> Seq<TileId>
    decreases requests.len(),
{
    if requests.len() == 0 {
        seq![]
    } else {
        let fetched = missing_ids(cached, requests[0]);
        fetched + fetch_log(cached + fetched.to_set(), requests.drop_first())
    }
}

/// Over any run of resolves made one after another, in which every download
/// succeeds, no tile is downloaded twice and no tile held at the start is
/// downloaded at all.
pub proof fn lemma_each_tile_fetched_once(cached: Set<TileId>, requests: Seq<Seq<TileId>>)
    ensures
        fetch_log(cached, requests).no_duplicates(),
        forall|i: int|
            0 <= i < fetch_log(cached, requests).len() ==> !cached.contains(
                #[trigger] fetch_log(cached, requests)[i],
            ),
    decreases requests.len(),
{
    if requests.len() > 0 {
        let fetched = missing_ids(cached, requests[0]);
        let after = cached + fetched.to_set();
        let rest = fetch_log(after, requests.drop_first());
        lemma_missing_ids(cached, requests[0]);
        lemma_each_tile_fetched_once(after, requests.drop_first());
        let log = fetch_log(cached, requests);
        assert(log == fetched + rest);
        assert forall|i: int| 0 <= i < log.len() implies !cached.contains(#[trigger] log[i]) by {
            if i >= fetched.len() {
                assert(log[i] == rest[i - fetched.len()]);
            }
        }
        assert forall|i: int, j: int| 0 <= i < log.len() && 0 <= j < log.len() && i != j implies log[i] != log[j] by {
            if i < fetched.len() && j >= fetched.len() {
                assert(log[j] == rest[j - fetched.len()]);
                assert(fetched.to_set().contains(log[i]));
            } else if j < fetched.len() && i >= fetched.len() {
                assert(log[i] == rest[i - fetched.len()]);
                assert(fetched.to_set().contains(log[j]));
            } else if i >= fetched.len() && j >= fetched.len() {
                assert(log[i] == rest[i - fetched.len()]);
                assert(log[j] == rest[j - fetched.len()]);
            }
        }
    }
}

pub struct TileCache {
    entries: HashMap<u128, Bytes>,
}

impl View for TileCache {
    type V = Map<TileId, Bytes>;

    closed spec fn view(&self) -> Map<TileId, Bytes> {
        by_tile(self.entries@)
    }
}

/// The entries of a map keyed by `TileId::spec_key`, keyed by tile.
spec fn by_tile(entries: Map<u128, Bytes>) -> Map<TileId, Bytes> {
    Map::new(
        |id: TileId| entries.contains_key(id.spec_key() as u128),
        |id: TileId| entries[id.spec_key() as u128],
    )
}

proof fn lemma_by_tile_insert(entries: Map<u128, Bytes>, id: TileId, b: Bytes)
    ensures
        by_tile(entries.insert(id.spec_key() as u128, b)) == by_tile(entries).insert(id, b),
{
    assert forall|other: TileId| #[trigger] (other.spec_key() as u128) == id.spec_key() as u128 implies other == id by {
        lemma_key_injective(other, id);
    }
    assert(by_tile(entries.insert(id.spec_key() as u128, b)) =~= by_tile(entries).insert(id, b));
}

/// Whether `v` holds `id`.
fn holds_id(v: &Vec<TileId>, id: &TileId) -> (r: bool)
    ensures
        r == v@.contains(*id),
{
    let mut i: usize = 0;
    while i < v.len()
        invariant
            0 <= i <= v.len(),
            forall|j: int| 0 <= j < i ==> v@[j] != *id,
        decreases v.len() - i,
    {
        if v[i] == *id {
            return true;
        }
        i = i + 1;
    }
    false
}

impl TileCache {
    pub fn new() -> (r: TileCache)
        ensures
            r@ == Map::<TileId, Bytes>::empty(),
    {
        let r = TileCache { entries: HashMap::new() };
        assert(r@ =~= Map::<TileId, Bytes>::empty());
        r
    }

    /// The tiles of `required` that the cache lacks, each listed once, in
    /// the order of their first appearance.
    pub fn missing(&self, required: &[TileInfo]) -> (r: Vec<TileId>)
        ensures
            r@ == missing_ids(self@.dom(), info_ids(required@)),
    {
        let ghost ids = info_ids(required@);
        let mut out: Vec<TileId> = Vec::new();
        let mut i: usize = 0;
        while i < required.len()
            invariant
                0 <= i <= required.len(),
                ids == info_ids(required@),
                out@ == missing_ids(self@.dom(), ids.subrange(0, i as int)),
            decreases required.len() - i,
        {
            let id = required[i].id;
            proof {
                assert(ids.subrange(0, i + 1).drop_last() =~= ids.subrange(0, i as int));
                assert(ids.subrange(0, i + 1).last() == id);
            }
            if !self.contains(&id) && !holds_id(&out, &id) {
                out.push(id);
            }
            i = i + 1;
        }
        proof {
            assert(ids.subrange(0, required@.len() as int) =~= ids);
        }
        out
    }

    /// Stores, in order, the image of each download of `ids` that
    /// succeeded (`results[i]` being the download of `ids[i]`) unless that
    /// tile is stored already, and reports the first download that failed.
    pub fn insert_fetched<E>(&mut self, ids: &[TileId], results: Vec<Result<Bytes, E>>) -> (r: Result<(), E>)
        requires
            ids.len() == results.len(),
        ensures
            final(self)@ == commit(old(self)@, ids@, results@),
            forall|id: TileId|
                old(self)@.contains_key(id) ==> #[trigger] final(self)@.contains_key(id) && final(self)@[id]
                    == old(self)@[id],
            r == match first_error(results@) {
                Some(e) => Err::<(), E>(e),
                None => Ok(()),
            },
    {
        let ghost all = results@;
        let ghost n = results.len() as int;
        let mut pending = results;
        let mut reversed: Vec<Result<Bytes, E>> = Vec::new();
        while pending.len() > 0
            invariant
                pending.len() + reversed.len() == n,
                n == all.len(),
                pending@ == all.subrange(0, pending.len() as int),
                forall|j: int| 0 <= j < reversed.len() ==> reversed@[j] == all[n - 1 - j],
            decreases pending.len(),
        {
            let item = pending.pop().unwrap();
            reversed.push(item);
        }
        let mut failure: Option<E> = None;
        let mut i: usize = 0;
        while i < ids.len()
            invariant
                n == ids.len(),
                n == all.len(),
                0 <= i <= n,
                reversed.len() == n - i,
                forall|j: int| 0 <= j < reversed.len() ==> reversed@[j] == all[n - 1 - j],
                self@ == commit(old(self)@, ids@.subrange(0, i as int), all.subrange(0, i as int)),
                failure == first_error(all.subrange(0, i as int)),
            decreases n - i,
        {
            let item = reversed.pop().unwrap();
            proof {
                assert(item == all[i as int]);
                assert(ids@.subrange(0, i + 1).drop_last() =~= ids@.subrange(0, i as int));
                assert(all.subrange(0, i + 1).drop_last() =~= all.subrange(0, i as int));
                assert(ids@.subrange(0, i + 1).last() == ids@[i as int]);
                assert(all.subrange(0, i + 1).last() == all[i as int]);
            }
            match item {
                Ok(b) => {
                    if !self.contains(&ids[i]) {
                        let key = ids[i].key();
                        proof {
                            lemma_by_tile_insert(self.entries@, ids@[i as int], b);
                        }
                        self.entries.insert(key, b);
                    }
                },
                Err(e) => {
                    if failure.is_none() {
                        failure = Some(e);
                    }
                },
            }
            i = i + 1;
        }
        proof {
            assert(ids@.subrange(0, n) =~= ids@);
            assert(all.subrange(0, n) =~= all);
            lemma_commit(old(self)@, ids@, all);
        }
        match failure {
            Some(e) => Err(e),
            None => Ok(()),
        }
    }

    /// The tiles of `required`, in order, each carrying the image stored
    /// for it; `None` when one of them is not stored.
    pub fn collect_tiles(&self, required: &[TileInfo]) -> (r: Option<Vec<Tile>>)
        ensures
            r is Some <==> forall|i: int| 0 <= i < required.len() ==> self@.contains_key(#[trigger] required@[i].id),
            r matches Some(tiles) ==> tiles.len() == required.len() && forall|i: int|
                0 <= i < required.len() ==> serves(self@, #[trigger] tiles@[i], required@[i]),
    {
        let mut tiles: Vec<Tile> = Vec::new();
        let mut i: usize = 0;
        while i < required.len()
            invariant
                0 <= i <= required.len(),
                tiles.len() == i,
                forall|j: int| 0 <= j < i ==> self@.contains_key(#[trigger] required@[j].id),
                forall|j: int| 0 <= j < i ==> serves(self@, #[trigger] tiles@[j], required@[j]),
            decreases required.len() - i,
        {
            let info = &required[i];
            match self.get(&info.id) {
                Some(data) => {
                    tiles.push(Tile::new(&info.id, data, &info.coords));
                },
                None => {
                    return None;
                },
            }
            i = i + 1;
        }
        Some(tiles)
    }

    /// Finishes resolving `required`: `fetched` is what `missing` listed for
    /// it and `results[i]` the download of `fetched[i]`. Stores every image
    /// that arrived; then fails with the first download error, or returns
    /// the tiles of `required` in order, each with its image.
    pub fn complete<E>(&mut self, required: &[TileInfo], fetched: &[TileId], results: Vec<Result<Bytes, E>>) -> (r:
        Result<Vec<Tile>, E>)
        requires
            fetched@ == missing_ids(old(self)@.dom(), info_ids(required@)),
            results.len() == fetched.len(),
        ensures
            final(self)@ == commit(old(self)@, fetched@, results@),
            first_error(results@) matches Some(e) ==> r == Err::<Vec<Tile>, E>(e),
            first_error(results@) is None ==> (r matches Ok(tiles) && tiles.len() == required.len() && forall|i: int|
                0 <= i < required.len() ==> serves(final(self)@, #[trigger] tiles@[i], required@[i])),
    {
        let ghost before = self@;
        let stored = self.insert_fetched(fetched, results);
        match stored {
            Err(e) => Err(e),
            Ok(()) => {
                proof {
                    let ids = info_ids(required@);
                    lemma_missing_ids(before.dom(), ids);
                    lemma_successful_resolve_stores_all(before, fetched@, results@);
                    assert forall|i: int| 0 <= i < required.len() implies self@.contains_key(#[trigger] required@[i].id) by {
                        assert(ids[i] == required@[i].id);
                    }
                }
                Ok(self.collect_tiles(required).unwrap())
            },
        }
    }

    pub fn contains(&self, id: &TileId) -> (r: bool)
        ensures
            r == self@.contains_key(*id),
    {
        self.entries.contains_key(&id.key())
    }

    /// Another handle to the image stored for `id`, if there is one.
    pub fn get(&self, id: &TileId) -> (r: Option<Bytes>)
        ensures
            r is Some <==> self@.contains_key(*id),
            r matches Some(b) ==> bytes_content(b) == bytes_content(self@[*id]),
    {
        match self.entries.get(&id.key()) {
            Some(b) => Some(b.clone()),
            None => None,
        }
    }
}

} // verus!
