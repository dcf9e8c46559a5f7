//! Per-connection cache: what the session has already told the client.
//!
//! One entry per region the session has touched, holding one observation
//! per chunk key the client asked about; and one entry per player UUID.
//! A frame is emitted if and only if a freshly observed value differs from
//! the value last pushed (dedup by value equality), and the cached snapshot
//! is updated exactly when a frame is emitted, so it always reflects what
//! the client last saw. Re-reads are gated by the column's modification
//! timestamp: an unchanged timestamp never emits.
//!
//! Subscription flags are monotonic: they only ever transition to `true`
//! within a session.

use vstd::prelude::*;
use vstd::string::StringExecFns;
use crate::block::{blob_eq, entities_eq, spec_entity_blobs, BlockEntity, ChunkSection, Timestamp};
use crate::keys::{ChunkPos, RegionKey};

verus! {

/// What one read of a chunk key observed: the column's modification
/// timestamp (`None` when the column does not exist on disk) and the value
/// of the subscribed aspect.
#[derive(Debug)]
pub enum ObservedValue {
    /// The 16x16x16 section at the key's `cy`, or `None` when the column
    /// or the section is absent.
    Section(Option<ChunkSection>),
    /// The column's block entities; empty when the column has none or is
    /// absent.
    Entities(Vec<BlockEntity>),
}

/// A timestamped observation of one chunk key.
#[derive(Debug)]
pub struct ColumnSnapshot {
    pub timestamp: Option<Timestamp>,
    pub value: ObservedValue,
}

/// Value equality of two observations, by content.
pub open spec fn value_view_eq(a: ObservedValue, b: ObservedValue) -> bool {
    match (a, b) {
        (ObservedValue::Section(x), ObservedValue::Section(y)) => match (x, y) {
            (Option::None, Option::None) => true,
            (Option::Some(sx), Option::Some(sy)) => sx.blocks@ == sy.blocks@,
            _ => false,
        },
        (ObservedValue::Entities(x), ObservedValue::Entities(y)) => spec_entity_blobs(x@)
            == spec_entity_blobs(y@),
        _ => false,
    }
}

/// The dedup rule: a frame is owed exactly when nothing was ever pushed
/// for this key, or the timestamp moved and the observed value differs
/// from the value last pushed.
pub open spec fn spec_should_emit(prev: Option<ColumnSnapshot>, obs: ColumnSnapshot) -> bool {
    match prev {
        Option::None => true,
        Option::Some(p) => p.timestamp != obs.timestamp && !value_view_eq(p.value, obs.value),
    }
}

/// The snapshot cached after an observation was handled: updated exactly
/// when a frame was emitted.
pub open spec fn spec_after_emit(prev: Option<ColumnSnapshot>, obs: ColumnSnapshot) -> Option<
    ColumnSnapshot,
> {
    if spec_should_emit(prev, obs) {
        Option::Some(obs)
    } else {
        prev
    }
}

/// Dedup invariant: after any observation is handled, observing the very
/// same timestamp and value again never emits a second frame - so two
/// identical reads in a row produce at most one frame, whatever was cached
/// before the first.
pub proof fn lemma_dedup_two_identical_reads(prev: Option<ColumnSnapshot>, obs: ColumnSnapshot)
    ensures
        !spec_should_emit(spec_after_emit(prev, obs), obs),
{
}

/// Subscription state and last pushed value for one chunk key.
#[derive(Debug)]
pub struct ChunkObservation {
    pub subscribed_block_states: bool,
    pub subscribed_block_entities: bool,
    /// `None` until a first frame for this key was pushed.
    pub last: Option<ColumnSnapshot>,
}

/// One cached chunk key within a region.
#[derive(Debug)]
pub struct ChunkSlot {
    pub pos: ChunkPos,
    pub obs: ChunkObservation,
}

/// One region the session has touched. Its presence also records that the
/// region's backing file is already under a filesystem watch.
#[derive(Debug)]
pub struct RegionEntry {
    pub key: RegionKey,
    pub chunks: Vec<ChunkSlot>,
}

/// Last pushed data for one player: `None` until a first push; the inner
/// option is `None` when the player's data file does not exist. The
/// original reference the client subscribed with is kept for the frames
/// pushed later.
#[derive(Debug)]
pub struct PlayerSlot {
    pub uuid: u128,
    pub id: String,
    pub last: Option<Option<Vec<u8>>>,
}

/// The whole per-connection cache.
#[derive(Debug)]
pub struct SessionCache {
    pub regions: Vec<RegionEntry>,
    pub players: Vec<PlayerSlot>,
}

/// Cached sections must be well formed, so that value comparison is
/// meaningful.
pub open spec fn snapshot_wf(s: ColumnSnapshot) -> bool {
    match s.value {
        ObservedValue::Section(Option::Some(sec)) => sec.wf(),
        _ => true,
    }
}

pub open spec fn chunks_wf(chunks: Seq<ChunkSlot>) -> bool {
    &&& forall|i: int| 0 <= i < chunks.len() ==> (#[trigger] chunks[i]).pos.wf()
    &&& forall|i: int, j: int|
        0 <= i < j < chunks.len() ==> (#[trigger] chunks[i]).pos != (#[trigger] chunks[j]).pos
    &&& forall|i: int|
        0 <= i < chunks.len() ==> match (#[trigger] chunks[i]).obs.last {
            Option::Some(s) => snapshot_wf(s),
            Option::None => true,
        }
}

/// Whether some slot carries this position.
pub open spec fn has_pos(chunks: Seq<ChunkSlot>, pos: ChunkPos) -> bool {
    exists|j: int| 0 <= j < chunks.len() && (#[trigger] chunks[j]).pos == pos
}

/// The index of the slot carrying this position (meaningful under
/// `chunks_wf`, where positions are distinct).
pub open spec fn pos_index(chunks: Seq<ChunkSlot>, pos: ChunkPos) -> int {
    choose|j: int| 0 <= j < chunks.len() && (#[trigger] chunks[j]).pos == pos
}

/// Under distinct positions, any slot holding `pos` is the slot
/// `pos_index` names.
pub proof fn lemma_pos_index(chunks: Seq<ChunkSlot>, pos: ChunkPos, j: int)
    requires
        chunks_wf(chunks),
        0 <= j < chunks.len(),
        chunks[j].pos == pos,
    ensures
        pos_index(chunks, pos) == j,
        has_pos(chunks, pos),
{
    assert(has_pos(chunks, pos));
    let k = pos_index(chunks, pos);
    if k != j {
        if k < j {
            assert(chunks[k].pos != chunks[j].pos);
        } else {
            assert(chunks[j].pos != chunks[k].pos);
        }
    }
}

/// One requested chunk key within a region: which aspects the client asked
/// for.
#[derive(Clone, Copy, PartialEq, Eq, Structural, Debug)]
pub struct ChunkReq {
    pub pos: ChunkPos,
    pub states: bool,
    pub entities: bool,
}

/// How a slot may change while subscriptions are recorded: same position,
/// same last pushed value, flags only ever set.
pub open spec fn slot_grew(before: ChunkSlot, after: ChunkSlot) -> bool {
    &&& after.pos == before.pos
    &&& after.obs.last == before.obs.last
    &&& (before.obs.subscribed_block_states ==> after.obs.subscribed_block_states)
    &&& (before.obs.subscribed_block_entities ==> after.obs.subscribed_block_entities)
}

/// A request is already covered when some slot at its position carries
/// every requested subscription flag.
pub open spec fn req_satisfied(chunks: Seq<ChunkSlot>, req: ChunkReq) -> bool {
    exists|j: int|
        0 <= j < chunks.len() && (#[trigger] chunks[j]).pos == req.pos && (req.states
            ==> chunks[j].obs.subscribed_block_states) && (req.entities
            ==> chunks[j].obs.subscribed_block_entities)
}

/// Position of the slot for `pos`, if the session has one.
pub fn find_chunk(chunks: &Vec<ChunkSlot>, pos: ChunkPos) -> (r: Option<usize>)
    ensures
        match r {
            Some(j) => j < chunks@.len() && chunks@[j as int].pos == pos,
            None => !has_pos(chunks@, pos),
        },
{
    let mut j: usize = 0;
    while j < chunks.len()
        invariant
            j <= chunks@.len(),
            forall|x: int| 0 <= x < j ==> (#[trigger] chunks@[x]).pos != pos,
        decreases chunks@.len() - j,
    {
        if chunks[j].pos == pos {
            return Some(j);
        }
        j = j + 1;
    }
    None
}

impl SessionCache {
    pub open spec fn wf(self) -> bool {
        &&& forall|i: int| 0 <= i < self.regions@.len() ==> (#[trigger] self.regions@[i]).key.wf()
        &&& forall|i: int, j: int|
            0 <= i < j < self.regions@.len() ==> (#[trigger] self.regions@[i]).key != (
            #[trigger] self.regions@[j]).key
        &&& forall|i: int|
            0 <= i < self.regions@.len() ==> chunks_wf((#[trigger] self.regions@[i]).chunks@)
        &&& forall|i: int, j: int|
            0 <= i < j < self.players@.len() ==> (#[trigger] self.players@[i]).uuid != (
            #[trigger] self.players@[j]).uuid
    }

    /// Whether some region entry carries this key.
    pub open spec fn spec_has_region(self, k: RegionKey) -> bool {
        exists|i: int| 0 <= i < self.regions@.len() && (#[trigger] self.regions@[i]).key == k
    }

    /// Whether some player entry carries this UUID.
    pub open spec fn spec_has_player(self, uuid: u128) -> bool {
        exists|i: int| 0 <= i < self.players@.len() && (#[trigger] self.players@[i]).uuid == uuid
    }

    pub fn new() -> (r: Self)
        ensures
            r.wf(),
            r.regions@.len() == 0,
            r.players@.len() == 0,
    {
        SessionCache { regions: Vec::new(), players: Vec::new() }
    }

    /// Index of the entry for region `k`, if the session has touched it.
    pub fn find_region(&self, k: &RegionKey) -> (r: Option<usize>)
        ensures
            match r {
                Some(i) => i < self.regions@.len() && self.regions@[i as int].key == *k,
                None => !self.spec_has_region(*k),
            },
    {
        let mut i: usize = 0;
        while i < self.regions.len()
            invariant
                i <= self.regions@.len(),
                forall|x: int| 0 <= x < i ==> (#[trigger] self.regions@[x]).key != *k,
            decreases self.regions@.len() - i,
        {
            if self.regions[i].key == *k {
                return Some(i);
            }
            i = i + 1;
        }
        None
    }

    /// Whether every requested key already carries the requested
    /// subscription flags: the condition under which a subscribe skips the
    /// disk read entirely.
    pub fn all_flagged(&self, ridx: usize, reqs: &Vec<ChunkReq>) -> (r: bool)
        requires
            self.wf(),
            ridx < self.regions@.len(),
        ensures
            r <==> forall|i: int|
                0 <= i < reqs@.len() ==> req_satisfied(
                    self.regions@[ridx as int].chunks@,
                    reqs@[i],
                ),
    {
        let mut i: usize = 0;
        while i < reqs.len()
            invariant
                i <= reqs@.len(),
                self.wf(),
                ridx < self.regions@.len(),
                forall|x: int|
                    0 <= x < i ==> req_satisfied(self.regions@[ridx as int].chunks@, reqs@[x]),
            decreases reqs@.len() - i,
        {
            let req = reqs[i];
            proof {
                assert(chunks_wf(self.regions@[ridx as int].chunks@));
            }
            let found = find_chunk(&self.regions[ridx].chunks, req.pos);
            match found {
                Some(j) => {
                    let slot_states = self.regions[ridx].chunks[j].obs.subscribed_block_states;
                    let slot_entities = self.regions[ridx].chunks[j].obs.subscribed_block_entities;
                    if (req.states && !slot_states) || (req.entities && !slot_entities) {
                        proof {
                            assert(forall|k: int|
                                0 <= k < self.regions@[ridx as int].chunks@.len()
                                    && (#[trigger] self.regions@[ridx as int].chunks@[k]).pos
                                    == req.pos ==> k == j) by {
                                assert forall|k: int|
                                    0 <= k < self.regions@[ridx as int].chunks@.len()
                                        && (#[trigger] self.regions@[ridx as int].chunks@[k]).pos
                                        == req.pos implies k == j by {
                                    if k != j {
                                        lemma_pos_index(
                                            self.regions@[ridx as int].chunks@,
                                            req.pos,
                                            k,
                                        );
                                        lemma_pos_index(
                                            self.regions@[ridx as int].chunks@,
                                            req.pos,
                                            j as int,
                                        );
                                    }
                                }
                            }
                        }
                        return false;
                    }
                },
                None => {
                    return false;
                },
            }
            i = i + 1;
        }
        true
    }

    /// Records the requested subscriptions: sets the requested flags,
    /// creating missing slots with nothing pushed yet. Flags only ever
    /// grow, and last pushed values are untouched.
    pub fn set_flags(&mut self, ridx: usize, reqs: &Vec<ChunkReq>)
        requires
            old(self).wf(),
            ridx < old(self).regions@.len(),
            forall|i: int| 0 <= i < reqs@.len() ==> (#[trigger] reqs@[i]).pos.wf(),
        ensures
            final(self).wf(),
            final(self).players@ == old(self).players@,
            final(self).regions@.len() == old(self).regions@.len(),
            forall|r: int|
                0 <= r < old(self).regions@.len() && r != ridx ==> final(self).regions@[r] == old(
                    self,
                ).regions@[r],
            final(self).regions@[ridx as int].key == old(self).regions@[ridx as int].key,
            final(self).regions@[ridx as int].chunks@.len() >= old(
                self,
            ).regions@[ridx as int].chunks@.len(),
            forall|j: int|
                0 <= j < old(self).regions@[ridx as int].chunks@.len() ==> slot_grew(
                    old(self).regions@[ridx as int].chunks@[j],
                    #[trigger] final(self).regions@[ridx as int].chunks@[j],
                ),
            forall|j: int|
                old(self).regions@[ridx as int].chunks@.len() <= j
                    < final(self).regions@[ridx as int].chunks@.len()
                    ==> (#[trigger] final(self).regions@[ridx as int].chunks@[j]).obs.last
                    is None,
            forall|i: int|
                0 <= i < reqs@.len() ==> req_satisfied(
                    final(self).regions@[ridx as int].chunks@,
                    reqs@[i],
                ),
    {
        let ghost orig = old(self).regions@[ridx as int].chunks@;
        let mut i: usize = 0;
        while i < reqs.len()
            invariant
                i <= reqs@.len(),
                self.wf(),
                ridx < self.regions@.len(),
                forall|x: int| 0 <= x < reqs@.len() ==> (#[trigger] reqs@[x]).pos.wf(),
                self.players@ == old(self).players@,
                self.regions@.len() == old(self).regions@.len(),
                forall|r: int|
                    0 <= r < old(self).regions@.len() && r != ridx ==> self.regions@[r] == old(
                        self,
                    ).regions@[r],
                self.regions@[ridx as int].key == old(self).regions@[ridx as int].key,
                orig == old(self).regions@[ridx as int].chunks@,
                self.regions@[ridx as int].chunks@.len() >= orig.len(),
                forall|j: int|
                    0 <= j < orig.len() ==> slot_grew(
                        orig[j],
                        #[trigger] self.regions@[ridx as int].chunks@[j],
                    ),
                forall|j: int|
                    orig.len() <= j < self.regions@[ridx as int].chunks@.len() ==> (
                    #[trigger] self.regions@[ridx as int].chunks@[j]).obs.last is None,
                forall|x: int|
                    0 <= x < i ==> req_satisfied(self.regions@[ridx as int].chunks@, reqs@[x]),
            decreases reqs@.len() - i,
    {
            let ghost chunks_before = self.regions@[ridx as int].chunks@;
            let req = reqs[i];
            let found = find_chunk(&self.regions[ridx].chunks, req.pos);
            match found {
                Some(j) => {
                    if req.states {
                        self.regions[ridx].chunks[j].obs.subscribed_block_states = true;
                    }
                    if req.entities {
                        self.regions[ridx].chunks[j].obs.subscribed_block_entities = true;
                    }
                    proof {
                        assert(req_satisfied(self.regions@[ridx as int].chunks@, reqs@[i as int]));
                    }
                },
                None => {
                    self.regions[ridx].chunks.push(
                        ChunkSlot {
                            pos: req.pos,
                            obs: ChunkObservation {
                                subscribed_block_states: req.states,
                                subscribed_block_entities: req.entities,
                                last: None,
                            },
                        },
                    );
                    proof {
                        let cs = self.regions@[ridx as int].chunks@;
                        assert(cs[cs.len() - 1].pos == req.pos);
                        assert(req_satisfied(cs, reqs@[i as int]));
                    }
                },
            }
            proof {
                let cs = self.regions@[ridx as int].chunks@;
                assert forall|x: int| 0 <= x < i implies req_satisfied(cs, reqs@[x]) by {
                    let wj = choose|wj: int|
                        0 <= wj < chunks_before.len() && (#[trigger] chunks_before[wj]).pos
                            == reqs@[x].pos && (reqs@[x].states
                            ==> chunks_before[wj].obs.subscribed_block_states) && (reqs@[x].entities
                            ==> chunks_before[wj].obs.subscribed_block_entities);
                    assert(cs[wj].pos == reqs@[x].pos);
                }
            }
            i = i + 1;
        }
    }

    /// Enters a region into the cache if it is not yet there. Returns its
    /// index and whether it was new; a new entry is the signal to register
    /// the filesystem watch on the region's backing file, so a watch is
    /// registered at most once per region.
    pub fn ensure_region(&mut self, k: RegionKey) -> (r: (usize, bool))
        requires
            old(self).wf(),
            k.wf(),
        ensures
            final(self).wf(),
            r.0 < final(self).regions@.len(),
            final(self).regions@[r.0 as int].key == k,
            final(self).players@ == old(self).players@,
            r.1 == !old(self).spec_has_region(k),
            r.1 ==> {
                &&& final(self).regions@.len() == old(self).regions@.len() + 1
                &&& r.0 == old(self).regions@.len()
                &&& final(self).regions@[r.0 as int].chunks@.len() == 0
                &&& forall|i: int|
                    0 <= i < old(self).regions@.len() ==> final(self).regions@[i] == old(
                        self,
                    ).regions@[i]
            },
            !r.1 ==> final(self).regions@ == old(self).regions@,
            final(self).spec_has_region(k),
    {
        let found = self.find_region(&k);
        match found {
            Some(i) => {
                proof {
                    assert(self.spec_has_region(k));
                }
                (i, false)
            },
            None => {
                let i = self.regions.len();
                self.regions.push(RegionEntry { key: k, chunks: Vec::new() });
                proof {
                    assert(self.regions@[i as int].key == k);
                    assert(self.spec_has_region(k));
                }
                (i, true)
            },
        }
    }

    /// Handles one fresh observation of a chunk key the session tracks:
    /// decides whether a frame is owed by the dedup rule, and caches the
    /// snapshot exactly when one is.
    pub fn apply_observation(
        &mut self,
        ridx: usize,
        pos: ChunkPos,
        obs: ColumnSnapshot,
    ) -> (emit: bool)
        requires
            old(self).wf(),
            ridx < old(self).regions@.len(),
            snapshot_wf(obs),
            has_pos(old(self).regions@[ridx as int].chunks@, pos),
        ensures
            final(self).wf(),
            final(self).players@ == old(self).players@,
            final(self).regions@.len() == old(self).regions@.len(),
            forall|r: int|
                0 <= r < old(self).regions@.len() && r != ridx ==> final(self).regions@[r] == old(
                    self,
                ).regions@[r],
            final(self).regions@[ridx as int].key == old(self).regions@[ridx as int].key,
            final(self).regions@[ridx as int].chunks@.len() == old(
                self,
            ).regions@[ridx as int].chunks@.len(),
            forall|j: int|
                0 <= j < old(self).regions@[ridx as int].chunks@.len() && j != pos_index(
                    old(self).regions@[ridx as int].chunks@,
                    pos,
                ) ==> #[trigger] final(self).regions@[ridx as int].chunks@[j] == old(
                    self,
                ).regions@[ridx as int].chunks@[j],
            emit == spec_should_emit(
                old(self).regions@[ridx as int].chunks@[pos_index(
                    old(self).regions@[ridx as int].chunks@,
                    pos,
                )].obs.last,
                obs,
            ),
            ({
                let pidx = pos_index(old(self).regions@[ridx as int].chunks@, pos);
                let before = old(self).regions@[ridx as int].chunks@[pidx];
                let after = final(self).regions@[ridx as int].chunks@[pidx];
                &&& after.pos == before.pos
                &&& after.obs.subscribed_block_states == before.obs.subscribed_block_states
                &&& after.obs.subscribed_block_entities == before.obs.subscribed_block_entities
                &&& after.obs.last == spec_after_emit(before.obs.last, obs)
            }),
    {
        proof {
            assert(chunks_wf(self.regions@[ridx as int].chunks@));
        }
        let found = find_chunk(&self.regions[ridx].chunks, pos);
        match found {
            None => {
                proof {
                    let w = choose|j: int|
                        0 <= j < old(self).regions@[ridx as int].chunks@.len() && (#[trigger] old(
                            self,
                        ).regions@[ridx as int].chunks@[j]).pos == pos;
                    assert(false);
                }
                false
            },
            Some(j) => {
                proof {
                    lemma_pos_index(self.regions@[ridx as int].chunks@, pos, j as int);
                }
                let emit: bool;
                match &self.regions[ridx].chunks[j].obs.last {
                    None => {
                        emit = true;
                    },
                    Some(prev) => {
                        let ts_eq = timestamps_eq(&prev.timestamp, &obs.timestamp);
                        let val_eq = values_eq(&prev.value, &obs.value);
                        emit = !ts_eq && !val_eq;
                    },
                }
                if emit {
                    let sbs = self.regions[ridx].chunks[j].obs.subscribed_block_states;
                    let sbe = self.regions[ridx].chunks[j].obs.subscribed_block_entities;
                    self.regions[ridx].chunks.set(
                        j,
                        ChunkSlot {
                            pos,
                            obs: ChunkObservation {
                                subscribed_block_states: sbs,
                                subscribed_block_entities: sbe,
                                last: Some(obs),
                            },
                        },
                    );
                }
                emit
            },
        }
    }

    /// Index of the entry for this player, if the session has touched it.
    pub fn find_player(&self, uuid: u128) -> (r: Option<usize>)
        ensures
            match r {
                Some(i) => i < self.players@.len() && self.players@[i as int].uuid == uuid,
                None => !self.spec_has_player(uuid),
            },
    {
        let mut i: usize = 0;
        while i < self.players.len()
            invariant
                i <= self.players@.len(),
                forall|x: int| 0 <= x < i ==> (#[trigger] self.players@[x]).uuid != uuid,
            decreases self.players@.len() - i,
        {
            if self.players[i].uuid == uuid {
                return Some(i);
            }
            i = i + 1;
        }
        None
    }

    /// Enters a player into the cache if not yet there; a fresh entry is
    /// the signal to register the watch on the player's data file, so a
    /// watch is registered at most once per UUID.
    pub fn ensure_player(&mut self, uuid: u128, id: String) -> (fresh: bool)
        requires
            old(self).wf(),
        ensures
            final(self).wf(),
            final(self).regions@ == old(self).regions@,
            fresh == !old(self).spec_has_player(uuid),
            !fresh ==> final(self).players@ == old(self).players@,
            fresh ==> {
                &&& final(self).players@.len() == old(self).players@.len() + 1
                &&& final(self).players@[old(self).players@.len() as int].uuid == uuid
                &&& final(self).players@[old(self).players@.len() as int].id@ == id@
                &&& final(self).players@[old(self).players@.len() as int].last is None
                &&& forall|i: int|
                    0 <= i < old(self).players@.len() ==> final(self).players@[i] == old(
                        self,
                    ).players@[i]
            },
            final(self).spec_has_player(uuid),
    {
        let found = self.find_player(uuid);
        match found {
            Some(_) => {
                proof {
                    assert(self.spec_has_player(uuid));
                }
                false
            },
            None => {
                let i = self.players.len();
                self.players.push(PlayerSlot { uuid, id, last: None });
                proof {
                    assert(self.players@[i as int].uuid == uuid);
                    assert(self.spec_has_player(uuid));
                }
                true
            },
        }
    }

    /// Handles one fresh read of a player's data: a frame is owed exactly
    /// when nothing was pushed yet or the data changed, and the cache is
    /// updated exactly when one is.
    pub fn apply_player_observation(&mut self, uuid: u128, data: Option<Vec<u8>>) -> (emit: bool)
        requires
            old(self).wf(),
            old(self).spec_has_player(uuid),
        ensures
            final(self).wf(),
            final(self).regions@ == old(self).regions@,
            final(self).players@.len() == old(self).players@.len(),
            forall|i: int|
                0 <= i < old(self).players@.len() && i != player_index(old(self).players@, uuid)
                    ==> #[trigger] final(self).players@[i] == old(self).players@[i],
            emit == spec_player_should_emit(
                old(self).players@[player_index(old(self).players@, uuid)].last,
                player_data_view(data),
            ),
            ({
                let pidx = player_index(old(self).players@, uuid);
                let after = final(self).players@[pidx];
                &&& after.uuid == uuid
                &&& after.id@ == old(self).players@[pidx].id@
                &&& (emit ==> (after.last matches Some(d) && player_data_view(d)
                    == player_data_view(data)))
                &&& (!emit ==> after.last == old(self).players@[pidx].last)
            }),
    {
        let found = self.find_player(uuid);
        match found {
            None => {
                proof {
                    let w = choose|i: int|
                        0 <= i < old(self).players@.len() && (#[trigger] old(
                            self,
                        ).players@[i]).uuid == uuid;
                    assert(false);
                }
                false
            },
            Some(i) => {
                proof {
                    lemma_player_index(self.players@, uuid, i as int);
                }
                let emit: bool;
                match &self.players[i].last {
                    None => {
                        emit = true;
                    },
                    Some(prev) => {
                        emit = !player_blobs_eq(prev, &data);
                    },
                }
                if emit {
                    let kept_id = String::from_str(self.players[i].id.as_str());
                    self.players.set(i, PlayerSlot { uuid, id: kept_id, last: Some(data) });
                }
                emit
            },
        }
    }
}

/// Content view of a player-data read: the bytes, or `None` for an absent
/// file.
pub open spec fn player_data_view(d: Option<Vec<u8>>) -> Option<Seq<u8>> {
    match d {
        Option::None => Option::None,
        Option::Some(v) => Option::Some(v@),
    }
}

/// The player dedup rule: a frame is owed exactly when nothing was pushed
/// yet or the observed data differs from the data last pushed.
pub open spec fn spec_player_should_emit(prev: Option<Option<Vec<u8>>>, obs: Option<Seq<u8>>) -> bool {
    match prev {
        Option::None => true,
        Option::Some(p) => player_data_view(p) != obs,
    }
}

/// Dedup invariant for player data, the analogue of
/// `lemma_dedup_two_identical_reads`: once an observation was handled
/// (cached on emit, left alone otherwise), observing the same data again
/// never emits a second frame.
pub proof fn lemma_player_dedup(prev: Option<Option<Vec<u8>>>, obs: Option<Vec<u8>>)
    ensures
        !spec_player_should_emit(
            if spec_player_should_emit(prev, player_data_view(obs)) {
                Some(obs)
            } else {
                prev
            },
            player_data_view(obs),
        ),
{
}

/// The index of the entry carrying this UUID (meaningful under `wf`,
/// where UUIDs are distinct).
pub open spec fn player_index(players: Seq<PlayerSlot>, uuid: u128) -> int {
    choose|i: int| 0 <= i < players.len() && (#[trigger] players[i]).uuid == uuid
}

/// Under distinct UUIDs, any entry holding `uuid` is the entry
/// `player_index` names.
pub proof fn lemma_player_index(players: Seq<PlayerSlot>, uuid: u128, i: int)
    requires
        forall|a: int, b: int|
            0 <= a < b < players.len() ==> (#[trigger] players[a]).uuid != (
            #[trigger] players[b]).uuid,
        0 <= i < players.len(),
        players[i].uuid == uuid,
    ensures
        player_index(players, uuid) == i,
{
    let k = player_index(players, uuid);
    if k != i {
        if k < i {
            assert(players[k].uuid != players[i].uuid);
        } else {
            assert(players[i].uuid != players[k].uuid);
        }
    }
}

/// The index of the entry carrying this region key (meaningful under
/// `wf`, where keys are distinct).
pub open spec fn region_index(regions: Seq<RegionEntry>, k: RegionKey) -> int {
    choose|i: int| 0 <= i < regions.len() && (#[trigger] regions[i]).key == k
}

/// Under distinct keys, any entry holding `k` is the entry `region_index`
/// names.
pub proof fn lemma_region_index(regions: Seq<RegionEntry>, k: RegionKey, i: int)
    requires
        forall|a: int, b: int|
            0 <= a < b < regions.len() ==> (#[trigger] regions[a]).key != (
            #[trigger] regions[b]).key,
        0 <= i < regions.len(),
        regions[i].key == k,
    ensures
        region_index(regions, k) == i,
{
    let j = region_index(regions, k);
    if j != i {
        if j < i {
            assert(regions[j].key != regions[i].key);
        } else {
            assert(regions[i].key != regions[j].key);
        }
    }
}

/// An owned copy of an observed value, equal in content.
pub fn copy_value(v: &ObservedValue) -> (r: ObservedValue)
    requires
        (v matches ObservedValue::Section(Some(s)) ==> s.wf()),
    ensures
        value_view_eq(*v, r),
        value_view_eq(r, *v),
        (v matches ObservedValue::Section(Some(s)) ==> (r matches ObservedValue::Section(Some(t))
            && t.wf() && t.blocks@ == s.blocks@)),
        (v is Section <==> r is Section),
{
    match v {
        ObservedValue::Section(s) => match s {
            None => ObservedValue::Section(None),
            Some(sec) => ObservedValue::Section(Some(crate::block::copy_section(sec))),
        },
        ObservedValue::Entities(es) => ObservedValue::Entities(crate::block::copy_entities(es)),
    }
}

/// Equality of two optional timestamps.
pub fn timestamps_eq(a: &Option<Timestamp>, b: &Option<Timestamp>) -> (r: bool)
    ensures
        r == (a == b),
{
    match (a, b) {
        (None, None) => true,
        (Some(x), Some(y)) => *x == *y,
        _ => false,
    }
}

/// Value equality of two observations, by content.
pub fn values_eq(a: &ObservedValue, b: &ObservedValue) -> (r: bool)
    requires
        (a matches ObservedValue::Section(Some(s)) ==> s.wf()),
        (b matches ObservedValue::Section(Some(s)) ==> s.wf()),
    ensures
        r == value_view_eq(*a, *b),
{
    match (a, b) {
        (ObservedValue::Section(x), ObservedValue::Section(y)) => match (x, y) {
            (None, None) => true,
            (Some(sx), Some(sy)) => sx.same_blocks(sy),
            _ => false,
        },
        (ObservedValue::Entities(x), ObservedValue::Entities(y)) => entities_eq(x, y),
        _ => false,
    }
}

/// Equality of two optional player-data blobs, by content.
pub fn player_blobs_eq(a: &Option<Vec<u8>>, b: &Option<Vec<u8>>) -> (r: bool)
    ensures
        r == (player_data_view(*a) == player_data_view(*b)),
{
    match (a, b) {
        (None, None) => true,
        (Some(x), Some(y)) => blob_eq(x, y),
        _ => false,
    }
}

} // verus!
