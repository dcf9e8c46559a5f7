//! The client session state machine.
//!
//! A session is `Running` until shutdown, a read timeout, malformed input
//! or an I/O failure closes it. The surrounding application owns the event
//! loop: it waits on the websocket, the disk and the change notifier, and
//! hands each event to one of the handlers here; each handler updates the
//! session cache and returns the actions to carry out - frames to send,
//! watches to register, reads to issue. All decisions live here; the
//! application only performs them.

use vstd::prelude::*;
use vstd::string::StringExecFns;
use crate::ProtocolVersion;
use crate::block::{copy_blob, Timestamp};
use crate::cache::{
    copy_value, has_pos, lemma_player_index, lemma_region_index, player_data_view, player_index,
    pos_index,
    region_index, req_satisfied, slot_grew, spec_player_should_emit, spec_should_emit,
    value_view_eq, ChunkReq, ColumnSnapshot, ObservedValue, SessionCache,
};
use crate::errors::{from_notify_errors, SessionError};
use crate::keys::{chunk_coord, ChunkKey, ChunkPos, Dimension, RegionKey};
use crate::paths::{parse_player_filename, player_filename_ok, spec_starts_with, spec_uuid_value, strip_prefix};
use crate::wire::{ClientMessage, Frame};

verus! {

/// The section index at which column-scoped block-entity subscriptions are
/// recorded, reusing the chunk-key batching for I/O amortization. Chunk
/// sections of real worlds never sit at this index.
pub const BLOCK_ENTITIES_CY: i8 = -128;

#[derive(Clone, Copy, PartialEq, Eq, Structural, Debug)]
pub enum SessionState {
    Running,
    Closed,
}

/// What the application must do on the session's behalf.
#[derive(Debug)]
pub enum SessionAction {
    /// Encode this frame for the negotiated version and write it through
    /// the shared sink.
    Send(Frame),
    /// Register a filesystem watch on this region's backing file.
    WatchRegion(RegionKey),
    /// Register a filesystem watch on this player's data file.
    WatchPlayer(u128),
    /// Read these chunk keys from the region's backing file and hand each
    /// observation back through `handle_column_read`.
    ReadRegion { region: RegionKey, reqs: Vec<ChunkReq> },
    /// Resolve this player reference to a UUID through the identity
    /// collaborator and hand the outcome back through `handle_resolved`.
    Resolve { player: String },
    /// Read this player's data file and hand the bytes back through
    /// `handle_player_read`.
    ReadPlayer { id: String, uuid: u128 },
    /// Open this region file to recover its region key and hand it back
    /// through `handle_region_identified`.
    IdentifyRegion { path: Vec<u8> },
}

/// One region's share of a batched subscribe request.
#[derive(Debug)]
pub struct RegionGroup {
    pub region: RegionKey,
    pub reqs: Vec<ChunkReq>,
}

/// The chunk key behind one element of a batched subscribe request.
pub open spec fn tuple_key(t: (Dimension, i32, i8, i32)) -> ChunkKey {
    ChunkKey { dimension: t.0, cx: t.1, cy: t.2, cz: t.3 }
}

/// What handling the subscribe requests of one region does: the watch is
/// registered exactly on first touch; when every requested key already
/// carries the requested flags the disk read is skipped and nothing
/// happens at all; otherwise the flags are recorded and one read of the
/// whole request list is asked for, as the last action.
pub open spec fn subscribe_effect(
    pre: Session,
    post: Session,
    region: RegionKey,
    reqs: Seq<ChunkReq>,
    r: Seq<SessionAction>,
) -> bool {
    let fresh = !pre.cache.spec_has_region(region);
    let satisfied_before = if pre.cache.spec_has_region(region) {
        forall|i: int|
            0 <= i < reqs.len() ==> req_satisfied(
                pre.cache.regions@[region_index(pre.cache.regions@, region)].chunks@,
                #[trigger] reqs[i],
            )
    } else {
        reqs.len() == 0
    };
    &&& post.cache.spec_has_region(region)
    &&& post.cache.players@ == pre.cache.players@
    &&& post.cache.regions@.len() >= pre.cache.regions@.len()
    &&& forall|rr: int|
        0 <= rr < pre.cache.regions@.len() && (#[trigger] pre.cache.regions@[rr]).key != region
            ==> post.cache.regions@[rr] == pre.cache.regions@[rr]
    &&& r.len() == (if fresh {
        1int
    } else {
        0int
    }) + (if satisfied_before {
        0int
    } else {
        1int
    })
    &&& (fresh ==> r.len() >= 1 && r[0] == SessionAction::WatchRegion(region))
    &&& (!fresh ==> (forall|i: int| 0 <= i < r.len() ==> !((#[trigger] r[i]) is WatchRegion)))
    &&& (satisfied_before && !fresh ==> post.cache.regions@ == pre.cache.regions@ && r.len()
        == 0)
    &&& (!satisfied_before ==> {
        let post_chunks = post.cache.regions@[region_index(post.cache.regions@, region)].chunks@;
        &&& (r[r.len() - 1] matches SessionAction::ReadRegion { region: rg, reqs: rq }
            && rg == region && rq@ == reqs)
        &&& forall|i: int| 0 <= i < reqs.len() ==> req_satisfied(post_chunks, #[trigger] reqs[i])
        &&& (fresh ==> forall|j: int|
            0 <= j < post_chunks.len() ==> (#[trigger] post_chunks[j]).obs.last is None)
        &&& (!fresh ==> {
            let pre_chunks = pre.cache.regions@[region_index(pre.cache.regions@, region)].chunks@;
            &&& post_chunks.len() >= pre_chunks.len()
            &&& forall|j: int|
                0 <= j < pre_chunks.len() ==> slot_grew(
                    pre_chunks[j],
                    #[trigger] post_chunks[j],
                )
            &&& forall|j: int|
                pre_chunks.len() <= j < post_chunks.len() ==> (
                #[trigger] post_chunks[j]).obs.last is None
        })
    })
}

/// Subscribe idempotence: whatever one subscribe for a region did, the
/// identical subscribe right after it performs nothing: no disk read, no
/// watch, no action at all, and the cache does not move.
pub proof fn lemma_subscribe_idempotent(
    s0: Session,
    s1: Session,
    s2: Session,
    region: RegionKey,
    reqs: Seq<ChunkReq>,
    r1: Seq<SessionAction>,
    r2: Seq<SessionAction>,
)
    requires
        reqs.len() > 0,
        subscribe_effect(s0, s1, region, reqs, r1),
        subscribe_effect(s1, s2, region, reqs, r2),
    ensures
        r2.len() == 0,
        s2.cache.regions@ == s1.cache.regions@,
{
}

/// Whether request `rq`, filed under `region`, restates one of the
/// requested keys: its region and relative position.
pub open spec fn req_from_request(
    keys: Seq<(Dimension, i32, i8, i32)>,
    region: RegionKey,
    rq: ChunkReq,
) -> bool {
    exists|i: int|
        #![trigger keys[i]]
        0 <= i < keys.len() && tuple_key(keys[i]).spec_region_key() == region && tuple_key(
            keys[i],
        ).spec_rel_pos() == rq.pos
}

/// Whether the `k`-th requested key landed in some group: the group of its
/// region, at its relative position.
pub open spec fn key_covered(
    keys: Seq<(Dimension, i32, i8, i32)>,
    groups: Seq<RegionGroup>,
    k: int,
) -> bool {
    exists|g: int, x: int|
        #![trigger groups[g].reqs@[x]]
        0 <= g < groups.len() && 0 <= x < groups[g].reqs@.len() && groups[g].region == tuple_key(
            keys[k],
        ).spec_region_key() && groups[g].reqs@[x].pos == tuple_key(keys[k]).spec_rel_pos()
}

/// Position of the request for `pos` within a group's list, if any.
fn find_req_pos(reqs: &Vec<ChunkReq>, pos: ChunkPos) -> (r: Option<usize>)
    ensures
        match r {
            Some(x) => x < reqs@.len() && reqs@[x as int].pos == pos,
            None => forall|x: int| 0 <= x < reqs@.len() ==> (#[trigger] reqs@[x]).pos != pos,
        },
{
    let mut x: usize = 0;
    while x < reqs.len()
        invariant
            x <= reqs@.len(),
            forall|y: int| 0 <= y < x ==> (#[trigger] reqs@[y]).pos != pos,
        decreases reqs@.len() - x,
    {
        if reqs[x].pos == pos {
            return Some(x);
        }
        x = x + 1;
    }
    None
}

/// Groups a batched subscribe request by region: every requested key lands
/// in the group of its region, as a block-state request at its relative
/// position, each position at most once per group, and no group holds
/// anything that was not requested.
pub fn group_chunk_keys(keys: &Vec<(Dimension, i32, i8, i32)>) -> (r: Vec<RegionGroup>)
    ensures
        forall|g: int| 0 <= g < r@.len() ==> (#[trigger] r@[g]).region.wf(),
        forall|g: int| 0 <= g < r@.len() ==> (#[trigger] r@[g]).reqs@.len() >= 1,
        forall|g: int, h: int|
            0 <= g < h < r@.len() ==> (#[trigger] r@[g]).region != (#[trigger] r@[h]).region,
        forall|g: int, x: int|
            0 <= g < r@.len() && 0 <= x < (#[trigger] r@[g]).reqs@.len() ==> (
            #[trigger] r@[g].reqs@[x]).states && !r@[g].reqs@[x].entities
                && r@[g].reqs@[x].pos.wf() && req_from_request(
                keys@,
                r@[g].region,
                r@[g].reqs@[x],
            ),
        forall|g: int, x: int, y: int|
            0 <= g < r@.len() && 0 <= x < y < r@[g].reqs@.len() ==> (
            #[trigger] r@[g].reqs@[x]).pos != (#[trigger] r@[g].reqs@[y]).pos,
        forall|k: int| 0 <= k < keys@.len() ==> #[trigger] key_covered(keys@, r@, k),
{
    let mut r: Vec<RegionGroup> = Vec::new();
    let mut i: usize = 0;
    while i < keys.len()
        invariant
            i <= keys@.len(),
            forall|g: int| 0 <= g < r@.len() ==> (#[trigger] r@[g]).region.wf(),
            forall|g: int| 0 <= g < r@.len() ==> (#[trigger] r@[g]).reqs@.len() >= 1,
            forall|g: int, h: int|
                0 <= g < h < r@.len() ==> (#[trigger] r@[g]).region != (#[trigger] r@[h]).region,
            forall|g: int, x: int|
                0 <= g < r@.len() && 0 <= x < (#[trigger] r@[g]).reqs@.len() ==> (
                #[trigger] r@[g].reqs@[x]).states && !r@[g].reqs@[x].entities
                    && r@[g].reqs@[x].pos.wf() && req_from_request(
                    keys@,
                    r@[g].region,
                    r@[g].reqs@[x],
                ),
            forall|g: int, x: int, y: int|
                0 <= g < r@.len() && 0 <= x < y < r@[g].reqs@.len() ==> (
                #[trigger] r@[g].reqs@[x]).pos != (#[trigger] r@[g].reqs@[y]).pos,
            forall|k: int| 0 <= k < i ==> #[trigger] key_covered(keys@, r@, k),
        decreases keys@.len() - i,
    {
        let (dimension, cx, cy, cz) = keys[i];
        let key = ChunkKey { dimension, cx, cy, cz };
        let region = key.region_key();
        let pos = key.rel_pos();
        let req = ChunkReq { pos, states: true, entities: false };
        proof {
            assert(keys@[i as int] == (dimension, cx, cy, cz));
            assert(tuple_key(keys@[i as int]) == key);
        }
        let ghost r_before = r@;
        let mut g: usize = 0;
        let mut found: Option<usize> = None;
        while g < r.len()
            invariant
                g <= r@.len(),
                found is None ==> forall|h: int|
                    0 <= h < g ==> (#[trigger] r@[h]).region != region,
                found matches Some(fg) ==> fg < r@.len() && r@[fg as int].region == region,
            ensures
                match found {
                    Some(fg) => fg < r@.len() && r@[fg as int].region == region,
                    None => forall|h: int|
                        0 <= h < r@.len() ==> (#[trigger] r@[h]).region != region,
                },
            decreases r@.len() - g + (if found is None { 1int } else { 0int }),
        {
            if r[g].region == region {
                found = Some(g);
                break ;
            }
            g = g + 1;
        }
        match found {
            Some(gi) => {
                let dup = find_req_pos(&r[gi].reqs, pos);
                if let Some(dx) = dup {
                    proof {
                        assert(r@[gi as int].reqs@[dx as int].pos == pos);
                        assert(key_covered(keys@, r@, i as int));
                    }
                    i = i + 1;
                    continue ;
                }
                r[gi].reqs.push(req);
                proof {
                    let nx = r@[gi as int].reqs@.len() - 1;
                    assert(r@[gi as int].reqs@[nx] == req);
                    assert(key_covered(keys@, r@, i as int));
                    assert forall|k: int| 0 <= k < i implies #[trigger] key_covered(
                        keys@,
                        r@,
                        k,
                    ) by {
                        assert(key_covered(keys@, r_before, k));
                        let (wg, wx) = choose|wg: int, wx: int|
                            #![trigger r_before[wg].reqs@[wx]]
                            0 <= wg < r_before.len() && 0 <= wx < r_before[wg].reqs@.len()
                                && r_before[wg].region == tuple_key(keys@[k]).spec_region_key()
                                && r_before[wg].reqs@[wx].pos == tuple_key(keys@[k]).spec_rel_pos();
                        assert(r@[wg].reqs@[wx] == r_before[wg].reqs@[wx]);
                        assert(r@[wg].region == r_before[wg].region);
                        assert(0 <= wx < r@[wg].reqs@.len());
                    }
                    assert forall|g2: int, x: int|
                        0 <= g2 < r@.len() && 0 <= x < (#[trigger] r@[g2]).reqs@.len() implies (
                    #[trigger] r@[g2].reqs@[x]).states && !r@[g2].reqs@[x].entities
                        && r@[g2].reqs@[x].pos.wf() && req_from_request(
                        keys@,
                        r@[g2].region,
                        r@[g2].reqs@[x],
                    ) by {
                        if g2 == gi && x == r@[gi as int].reqs@.len() - 1 {
                            assert(r@[g2].reqs@[x] == req);
                            assert(req_from_request(keys@, region, req));
                        } else {
                            assert(r@[g2].reqs@[x] == r_before[g2].reqs@[x]);
                        }
                    }
                }
            },
            None => {
                let mut reqs: Vec<ChunkReq> = Vec::new();
                reqs.push(req);
                r.push(RegionGroup { region, reqs });
                proof {
                    let ng = r@.len() - 1;
                    assert(r@[ng].region == region);
                    assert(r@[ng].reqs@[0] == req);
                    assert(req_from_request(keys@, region, req));
                    assert(key_covered(keys@, r@, i as int));
                    assert forall|k: int| 0 <= k < i implies #[trigger] key_covered(
                        keys@,
                        r@,
                        k,
                    ) by {
                        assert(key_covered(keys@, r_before, k));
                        let (wg, wx) = choose|wg: int, wx: int|
                            #![trigger r_before[wg].reqs@[wx]]
                            0 <= wg < r_before.len() && 0 <= wx < r_before[wg].reqs@.len()
                                && r_before[wg].region == tuple_key(keys@[k]).spec_region_key()
                                && r_before[wg].reqs@[wx].pos == tuple_key(keys@[k]).spec_rel_pos();
                        assert(r@[wg].reqs@[wx] == r_before[wg].reqs@[wx]);
                        assert(r@[wg].region == r_before[wg].region);
                        assert(0 <= wx < r@[wg].reqs@.len());
                    }
                }
            },
        }
        i = i + 1;
    }
    r
}

/// One filesystem-change event, as the notifier bridge delivers it:
/// whether it is a modification, and the affected path as raw bytes.
#[derive(Debug)]
pub struct FsEvent {
    pub modified: bool,
    pub path: Vec<u8>,
}

/// What one read of one requested chunk key observed: the column's
/// modification timestamp (`None` when the column does not exist) and the
/// value of the aspect this key tracks - the section at its `cy`, or the
/// column's block entities at the sentinel `cy`.
#[derive(Debug)]
pub struct ColumnRead {
    pub pos: ChunkPos,
    pub timestamp: Option<Timestamp>,
    pub value: ObservedValue,
}

/// The frame owed for an observation: the key's absolute coordinates and
/// the observed value, as chunk data or a block-entity list according to
/// what was observed.
pub open spec fn frame_for_read(region: RegionKey, read: ColumnRead, f: Frame) -> bool {
    match read.value {
        ObservedValue::Section(s) => f matches Frame::ChunkData { key, section }
            && key.dimension == region.dimension && key.cx == region.rx * 32 + read.pos.rel_x
            && key.cy == read.pos.cy && key.cz == region.rz * 32 + read.pos.rel_z && (match (
            section,
            s,
        ) {
            (Option::None, Option::None) => true,
            (Option::Some(a), Option::Some(b)) => a.blocks@ == b.blocks@,
            _ => false,
        }),
        ObservedValue::Entities(es) => f matches Frame::BlockEntities {
            dimension,
            cx,
            cz,
            data,
        } && dimension == region.dimension && cx == region.rx * 32 + read.pos.rel_x && cz
            == region.rz * 32 + read.pos.rel_z && crate::block::spec_entity_blobs(data@)
            == crate::block::spec_entity_blobs(es@),
    }
}

/// The observation one column read carries.
pub open spec fn read_obs(read: ColumnRead) -> ColumnSnapshot {
    ColumnSnapshot { timestamp: read.timestamp, value: read.value }
}

/// Whether this column read owes a frame, judged against the cache state
/// before the pass. Within one pass every position is read at most once,
/// so the order of the pass cannot change this.
pub open spec fn spec_col_emits(chunks0: Seq<crate::cache::ChunkSlot>, read: ColumnRead) -> bool {
    spec_should_emit(chunks0[pos_index(chunks0, read.pos)].obs.last, read_obs(read))
}

/// The columns of a read pass that owe a frame, in pass order.
pub open spec fn emitting_reads(
    chunks0: Seq<crate::cache::ChunkSlot>,
    cols: Seq<ColumnRead>,
) -> Seq<ColumnRead>
    decreases cols.len(),
{
    if cols.len() == 0 {
        Seq::empty()
    } else {
        let front = emitting_reads(chunks0, cols.drop_last());
        if spec_col_emits(chunks0, cols.last()) {
            front.push(cols.last())
        } else {
            front
        }
    }
}

/// How a slot looks once its observation was handled: updated to the
/// observed snapshot, by content, exactly when a frame was emitted, and
/// untouched otherwise; flags and position never move.
pub open spec fn read_applied(
    before: crate::cache::ChunkSlot,
    read: ColumnRead,
    after: crate::cache::ChunkSlot,
) -> bool {
    &&& after.pos == before.pos
    &&& after.obs.subscribed_block_states == before.obs.subscribed_block_states
    &&& after.obs.subscribed_block_entities == before.obs.subscribed_block_entities
    &&& if spec_should_emit(before.obs.last, read_obs(read)) {
        after.obs.last matches Some(s) && s.timestamp == read.timestamp && value_view_eq(
            s.value,
            read.value,
        )
    } else {
        after.obs.last == before.obs.last
    }
}

/// The absent value of a request's aspect: an empty block-entity list for
/// a block-entity request at the sentinel index, a missing section
/// otherwise.
pub open spec fn absent_value(v: ObservedValue, req: ChunkReq) -> bool {
    if req.pos.cy == BLOCK_ENTITIES_CY && req.entities {
        v matches ObservedValue::Entities(es) && crate::block::spec_entity_blobs(es@) == Seq::<
            Seq<u8>,
        >::empty()
    } else {
        v matches ObservedValue::Section(Option::None)
    }
}

/// Whether observing a request's key as absent owes a frame: nothing was
/// pushed yet, or the last push carried a timestamp (the column existed)
/// and a value other than the absent one - so a key whose last pushed
/// value was already absent emits nothing.
pub open spec fn spec_absent_emits(prev: Option<ColumnSnapshot>, req: ChunkReq) -> bool {
    match prev {
        Option::None => true,
        Option::Some(p) => p.timestamp is Some && !absent_value(p.value, req),
    }
}

pub open spec fn spec_req_absent_emits(
    chunks0: Seq<crate::cache::ChunkSlot>,
    req: ChunkReq,
) -> bool {
    spec_absent_emits(chunks0[pos_index(chunks0, req.pos)].obs.last, req)
}

/// The requests of an absent-region pass that owe a frame, in pass order.
pub open spec fn emitting_absents(
    chunks0: Seq<crate::cache::ChunkSlot>,
    reqs: Seq<ChunkReq>,
) -> Seq<ChunkReq>
    decreases reqs.len(),
{
    if reqs.len() == 0 {
        Seq::empty()
    } else {
        let front = emitting_absents(chunks0, reqs.drop_last());
        if spec_req_absent_emits(chunks0, reqs.last()) {
            front.push(reqs.last())
        } else {
            front
        }
    }
}

/// The frame owed for a newly absent key: no data for its aspect, at its
/// absolute coordinates.
pub open spec fn frame_for_absent(region: RegionKey, req: ChunkReq, f: Frame) -> bool {
    if req.pos.cy == BLOCK_ENTITIES_CY && req.entities {
        f matches Frame::BlockEntities { dimension, cx, cz, data } && dimension
            == region.dimension && cx == region.rx * 32 + req.pos.rel_x && cz == region.rz * 32
            + req.pos.rel_z && crate::block::spec_entity_blobs(data@) == Seq::<Seq<u8>>::empty()
    } else {
        f matches Frame::ChunkData { key, section } && key.dimension == region.dimension
            && key.cx == region.rx * 32 + req.pos.rel_x && key.cy == req.pos.cy && key.cz
            == region.rz * 32 + req.pos.rel_z && section is None
    }
}

/// How a slot looks once its key was observed absent: a cached absent
/// snapshot exactly when a frame was emitted.
pub open spec fn absent_applied(
    before: crate::cache::ChunkSlot,
    req: ChunkReq,
    after: crate::cache::ChunkSlot,
) -> bool {
    &&& after.pos == before.pos
    &&& after.obs.subscribed_block_states == before.obs.subscribed_block_states
    &&& after.obs.subscribed_block_entities == before.obs.subscribed_block_entities
    &&& if spec_absent_emits(before.obs.last, req) {
        after.obs.last matches Some(s) && s.timestamp is None && absent_value(s.value, req)
    } else {
        after.obs.last == before.obs.last
    }
}

/// The remainder of a path under the player-data directory.
pub open spec fn player_rest(player_dir: Seq<u8>, path: Seq<u8>) -> Seq<u8> {
    path.subrange(player_dir.len() as int, path.len() as int)
}

/// A modified path under the player-data directory whose remainder is not
/// a well-shaped `<uuid>.<ext>` filename: the fatal case of a drained
/// notification batch.
pub open spec fn event_malformed(player_dir: Seq<u8>, ev: FsEvent) -> bool {
    ev.modified && spec_starts_with(ev.path@, player_dir) && !player_filename_ok(
        player_rest(player_dir, ev.path@),
    )
}

pub open spec fn spec_notify_fails(player_dir: Seq<u8>, events: Seq<FsEvent>) -> bool {
    exists|i: int| 0 <= i < events.len() && event_malformed(player_dir, #[trigger] events[i])
}

/// Whether one event of a batch without malformed paths produces an
/// action: region paths always, player paths only for players the
/// session tracks.
pub open spec fn event_acts(
    players: Seq<crate::cache::PlayerSlot>,
    player_dir: Seq<u8>,
    ev: FsEvent,
) -> bool {
    &&& ev.modified
    &&& (spec_starts_with(ev.path@, player_dir) ==> exists|i: int|
        0 <= i < players.len() && (#[trigger] players[i]).uuid as int == spec_uuid_value(
            player_rest(player_dir, ev.path@),
        ))
}

/// The action one event produces: a re-read of the tracked player, under
/// its cached reference, or the identification of a region file.
pub open spec fn event_action(
    players: Seq<crate::cache::PlayerSlot>,
    player_dir: Seq<u8>,
    ev: FsEvent,
    a: SessionAction,
) -> bool {
    if spec_starts_with(ev.path@, player_dir) {
        a matches SessionAction::ReadPlayer { id, uuid } && uuid as int == spec_uuid_value(
            player_rest(player_dir, ev.path@),
        ) && id@ == players[player_index(players, uuid)].id@
    } else {
        a == (SessionAction::IdentifyRegion { path: ev.path })
    }
}

/// The events of a drained batch that produce an action, in batch order.
pub open spec fn acting_events(
    players: Seq<crate::cache::PlayerSlot>,
    player_dir: Seq<u8>,
    events: Seq<FsEvent>,
) -> Seq<FsEvent>
    decreases events.len(),
{
    if events.len() == 0 {
        Seq::empty()
    } else {
        let front = acting_events(players, player_dir, events.drop_last());
        if event_acts(players, player_dir, events.last()) {
            front.push(events.last())
        } else {
            front
        }
    }
}

/// On a freshly touched region, the first observation of any requested
/// key emits a frame: the subscribe created the key's slot with nothing
/// pushed yet, and an observation of such a slot is always owed.
pub proof fn lemma_first_read_emits(
    pre: Session,
    post: Session,
    region: RegionKey,
    reqs: Seq<ChunkReq>,
    r: Seq<SessionAction>,
    read: ColumnRead,
)
    requires
        subscribe_effect(pre, post, region, reqs, r),
        !pre.cache.spec_has_region(region),
        reqs.len() > 0,
        has_pos(
            post.cache.regions@[region_index(post.cache.regions@, region)].chunks@,
            read.pos,
        ),
    ensures
        spec_col_emits(
            post.cache.regions@[region_index(post.cache.regions@, region)].chunks@,
            read,
        ),
{
    let chunks = post.cache.regions@[region_index(post.cache.regions@, region)].chunks@;
    let w = choose|j: int| 0 <= j < chunks.len() && (#[trigger] chunks[j]).pos == read.pos;
    assert(0 <= pos_index(chunks, read.pos) < chunks.len());
    assert(chunks[pos_index(chunks, read.pos)].obs.last is None);
}

/// Whether a chunk key's block-state subscription is recorded: its region
/// is cached and its slot carries the block-state flag.
pub open spec fn key_subscribed(cache: SessionCache, k: ChunkKey) -> bool {
    &&& cache.spec_has_region(k.spec_region_key())
    &&& req_satisfied(
        cache.regions@[region_index(cache.regions@, k.spec_region_key())].chunks@,
        ChunkReq { pos: k.spec_rel_pos(), states: true, entities: false },
    )
}

/// A recorded subscription survives a subscribe pass for a different
/// region: that pass leaves every other region's entry untouched.
pub proof fn lemma_key_subscribed_stable(
    pre: SessionCache,
    post: SessionCache,
    k: ChunkKey,
    touched: RegionKey,
)
    requires
        pre.wf(),
        post.wf(),
        key_subscribed(pre, k),
        k.spec_region_key() != touched,
        post.regions@.len() >= pre.regions@.len(),
        forall|rr: int|
            0 <= rr < pre.regions@.len() && (#[trigger] pre.regions@[rr]).key != touched
                ==> post.regions@[rr] == pre.regions@[rr],
    ensures
        key_subscribed(post, k),
{
    let rk = k.spec_region_key();
    let w = choose|i: int| 0 <= i < pre.regions@.len() && (#[trigger] pre.regions@[i]).key == rk;
    lemma_region_index(pre.regions@, rk, w);
    assert(post.regions@[w] == pre.regions@[w]);
    lemma_region_index(post.regions@, rk, w);
}

/// Two region caches with the same keys and the same chunk positions
/// everywhere: what a read pass preserves.
pub open spec fn regions_shape_eq(
    a: Seq<crate::cache::RegionEntry>,
    b: Seq<crate::cache::RegionEntry>,
) -> bool {
    &&& a.len() == b.len()
    &&& forall|r: int|
        0 <= r < a.len() ==> (#[trigger] b[r]).key == a[r].key && b[r].chunks@.len()
            == a[r].chunks@.len() && (forall|j: int|
            0 <= j < a[r].chunks@.len() ==> (#[trigger] b[r].chunks@[j]).pos
                == a[r].chunks@[j].pos)
}

pub proof fn lemma_regions_shape_eq_refl(a: Seq<crate::cache::RegionEntry>)
    ensures
        regions_shape_eq(a, a),
{
}

pub proof fn lemma_regions_shape_eq_trans(
    a: Seq<crate::cache::RegionEntry>,
    b: Seq<crate::cache::RegionEntry>,
    c: Seq<crate::cache::RegionEntry>,
)
    requires
        regions_shape_eq(a, b),
        regions_shape_eq(b, c),
    ensures
        regions_shape_eq(a, c),
{
}

/// A key the session tracks stays tracked, at the same entry, across any
/// pass that preserves the cache's shape.
pub proof fn lemma_tracking_stable(
    a: Seq<crate::cache::RegionEntry>,
    b: Seq<crate::cache::RegionEntry>,
    region: RegionKey,
    pos: ChunkPos,
)
    requires
        regions_shape_eq(a, b),
        forall|i: int, j: int|
            0 <= i < j < a.len() ==> (#[trigger] a[i]).key != (#[trigger] a[j]).key,
        exists|i: int| 0 <= i < a.len() && (#[trigger] a[i]).key == region,
        has_pos(a[region_index(a, region)].chunks@, pos),
    ensures
        exists|i: int| 0 <= i < b.len() && (#[trigger] b[i]).key == region,
        region_index(b, region) == region_index(a, region),
        has_pos(b[region_index(b, region)].chunks@, pos),
{
    let wi = choose|i: int| 0 <= i < a.len() && (#[trigger] a[i]).key == region;
    lemma_region_index(a, region, wi);
    assert(b[wi].key == region);
    assert forall|i: int, j: int|
        0 <= i < j < b.len() implies (#[trigger] b[i]).key != (#[trigger] b[j]).key by {
        assert(b[i].key == a[i].key);
        assert(b[j].key == a[j].key);
    }
    lemma_region_index(b, region, wi);
    let wj = choose|j: int|
        0 <= j < a[wi].chunks@.len() && (#[trigger] a[wi].chunks@[j]).pos == pos;
    assert(b[wi].chunks@[wj].pos == pos);
}

/// One per-connection session: the negotiated version, the cache of what
/// the client has been told, and the liveness state.
#[derive(Debug)]
pub struct Session {
    pub version: ProtocolVersion,
    pub cache: SessionCache,
    pub state: SessionState,
    /// Byte prefix of the player-data directory, for classifying change
    /// notifications.
    pub player_dir: Vec<u8>,
}

impl Session {
    pub open spec fn wf(self) -> bool {
        self.cache.wf()
    }

    /// Everything but the cache and the liveness state is immutable for
    /// the session's lifetime.
    pub open spec fn same_config(self, other: Session) -> bool {
        &&& self.version == other.version
        &&& self.player_dir@ == other.player_dir@
    }

    /// A fresh session: cold caches, `Running`.
    pub fn new(version: ProtocolVersion, player_dir: Vec<u8>) -> (s: Session)
        ensures
            s.wf(),
            s.state is Running,
            s.version == version,
            s.player_dir@ == player_dir@,
            s.cache.regions@.len() == 0,
            s.cache.players@.len() == 0,
    {
        Session { version, cache: SessionCache::new(), state: SessionState::Running, player_dir }
    }

    /// The graceful-stop signal: the session closes cleanly, with top
    /// priority over any pending work.
    pub fn handle_shutdown(&mut self)
        ensures
            final(self).state is Closed,
            final(self).cache == old(self).cache,
            final(self).same_config(*old(self)),
    {
        self.state = SessionState::Closed;
    }

    /// The 60-second read deadline expired with no client message: a fatal
    /// session error, not a soft warning.
    pub fn handle_timeout(&mut self) -> (e: SessionError)
        ensures
            final(self).state is Closed,
            final(self).cache == old(self).cache,
            final(self).same_config(*old(self)),
            e is Timeout,
    {
        self.state = SessionState::Closed;
        SessionError::Timeout
    }

    /// Any other fatal failure (read, write, decode, notifier): the
    /// session closes; the application sends one best-effort `Error` frame
    /// with the error's description and drops the connection.
    pub fn handle_failure(&mut self, e: SessionError) -> (r: SessionError)
        ensures
            final(self).state is Closed,
            final(self).cache == old(self).cache,
            final(self).same_config(*old(self)),
            r == e,
    {
        self.state = SessionState::Closed;
        e
    }

    /// An error batch from the filesystem watcher: fatal; an empty batch
    /// is its own distinguished error rather than a panic.
    pub fn handle_notify_errors(&mut self, errors: Vec<String>) -> (e: SessionError)
        ensures
            final(self).state is Closed,
            final(self).cache == old(self).cache,
            final(self).same_config(*old(self)),
            errors@.len() == 0 ==> e is NotifyEmptyErrorList,
            errors@.len() > 0 ==> (e matches SessionError::Notify(s) && s@ == errors@[0]@),
    {
        self.state = SessionState::Closed;
        from_notify_errors(errors)
    }

    /// The identity collaborator answered an inventory subscription. A
    /// failed resolution is reported to the client and the session
    /// continues; a successful one registers the player watch at most once
    /// and always triggers a read-diff-emit pass.
    pub fn handle_resolved(&mut self, player: String, uuid: Option<u128>) -> (r: Vec<
        SessionAction,
    >)
        requires
            old(self).wf(),
            old(self).state is Running,
        ensures
            final(self).wf(),
            final(self).state is Running,
            final(self).same_config(*old(self)),
            final(self).cache.regions@ == old(self).cache.regions@,
            match uuid {
                Option::None => {
                    &&& final(self).cache == old(self).cache
                    &&& r@.len() == 1
                    &&& (r@[0] matches SessionAction::Send(f) && (f matches Frame::Error {
                        debug,
                        display,
                    } && debug@ == player@ && display@
                        == "could not resolve this player reference to a Minecraft UUID"@))
                },
                Option::Some(u) => {
                    &&& final(self).cache.spec_has_player(u)
                    &&& (old(self).cache.spec_has_player(u) ==> final(self).cache.players@ == old(
                        self,
                    ).cache.players@ && r@.len() == 1)
                    &&& (!old(self).cache.spec_has_player(u) ==> {
                        &&& r@.len() == 2
                        &&& r@[0] == SessionAction::WatchPlayer(u)
                        &&& final(self).cache.players@.len() == old(self).cache.players@.len()
                            + 1
                        &&& ({
                            let n = old(self).cache.players@.len() as int;
                            let slot = final(self).cache.players@[n];
                            &&& slot.uuid == u
                            &&& slot.id@ == player@
                            &&& slot.last is None
                        })
                        &&& forall|i: int|
                            0 <= i < old(self).cache.players@.len()
                                ==> #[trigger] final(self).cache.players@[i] == old(
                                self,
                            ).cache.players@[i]
                    })
                    &&& (r@[r@.len() - 1] matches SessionAction::ReadPlayer { id, uuid: u2 }
                        && id@ == player@ && u2 == u)
                },
            },
    {
        let mut r: Vec<SessionAction> = Vec::new();
        match uuid {
            None => {
                let display = "could not resolve this player reference to a Minecraft UUID"
                    .to_owned();
                r.push(SessionAction::Send(Frame::Error { debug: player, display }));
            },
            Some(u) => {
                let stored_id = String::from_str(player.as_str());
                let fresh = self.cache.ensure_player(u, stored_id);
                if fresh {
                    r.push(SessionAction::WatchPlayer(u));
                }
                r.push(SessionAction::ReadPlayer { id: player, uuid: u });
            },
        }
        r
    }

    /// Handles the subscribe requests that fall into one region: registers
    /// the watch on first touch, skips the disk read entirely when every
    /// requested key already carries the requested flags, and otherwise
    /// records the flags and asks for one read of the whole request list.
    pub fn plan_region_subscribe(&mut self, region: RegionKey, reqs: Vec<ChunkReq>) -> (r: Vec<
        SessionAction,
    >)
        requires
            old(self).wf(),
            region.wf(),
            forall|i: int| 0 <= i < reqs@.len() ==> (#[trigger] reqs@[i]).pos.wf(),
        ensures
            final(self).wf(),
            final(self).state == old(self).state,
            final(self).same_config(*old(self)),
            subscribe_effect(*old(self), *final(self), region, reqs@, r@),
    {
        let mut r: Vec<SessionAction> = Vec::new();
        let (ridx, fresh) = self.cache.ensure_region(region);
        proof {
            lemma_region_index(self.cache.regions@, region, ridx as int);
            if !fresh {
                lemma_region_index(old(self).cache.regions@, region, ridx as int);
            }
        }
        if fresh {
            r.push(SessionAction::WatchRegion(region));
        }
        let skip = self.cache.all_flagged(ridx, &reqs);
        proof {
            if fresh {
                if reqs@.len() > 0 {
                    assert(self.cache.regions@[ridx as int].chunks@.len() == 0);
                    assert(!req_satisfied(self.cache.regions@[ridx as int].chunks@, reqs@[0]));
                }
            }
        }
        if !skip {
            self.cache.set_flags(ridx, &reqs);
            proof {
                lemma_region_index(self.cache.regions@, region, ridx as int);
            }
            r.push(SessionAction::ReadRegion { region, reqs });
        }
        r
    }

    /// Dispatches one client message. `Pong` is a no-op; subscription
    /// requests are grouped by region and planned per region; inventory
    /// subscriptions go to the identity collaborator first.
    pub fn handle_message(&mut self, msg: ClientMessage) -> (r: Vec<SessionAction>)
        requires
            old(self).wf(),
            old(self).state is Running,
        ensures
            final(self).wf(),
            final(self).state is Running,
            final(self).same_config(*old(self)),
            match msg {
                ClientMessage::Pong => final(self).cache.regions@ == old(self).cache.regions@
                    && final(self).cache.players@ == old(self).cache.players@ && r@.len() == 0,
                ClientMessage::SubscribeToChunk { dimension, cx, cy, cz } => subscribe_effect(
                    *old(self),
                    *final(self),
                    (ChunkKey { dimension, cx, cy, cz }).spec_region_key(),
                    seq![
                        ChunkReq {
                            pos: (ChunkKey { dimension, cx, cy, cz }).spec_rel_pos(),
                            states: true,
                            entities: false,
                        },
                    ],
                    r@,
                ),
                ClientMessage::SubscribeToBlockEntities { dimension, cx, cz } => subscribe_effect(
                    *old(self),
                    *final(self),
                    (ChunkKey { dimension, cx, cy: BLOCK_ENTITIES_CY, cz }).spec_region_key(),
                    seq![
                        ChunkReq {
                            pos: (ChunkKey {
                                dimension,
                                cx,
                                cy: BLOCK_ENTITIES_CY,
                                cz,
                            }).spec_rel_pos(),
                            states: false,
                            entities: true,
                        },
                    ],
                    r@,
                ),
                ClientMessage::SubscribeToChunks(keys) => {
                    &&& final(self).cache.players@ == old(self).cache.players@
                    &&& forall|i: int|
                        0 <= i < r@.len() ==> ((#[trigger] r@[i]) is WatchRegion || r@[i]
                            is ReadRegion)
                    &&& forall|i: int|
                        0 <= i < r@.len() ==> ((#[trigger] r@[i])
                            matches SessionAction::ReadRegion { region, reqs } ==> (forall|x: int|
                            0 <= x < reqs@.len() ==> (#[trigger] reqs@[x]).states
                                && !reqs@[x].entities && req_from_request(
                                keys@,
                                region,
                                reqs@[x],
                            )))
                    &&& forall|i: int|
                        0 <= i < r@.len() ==> ((#[trigger] r@[i])
                            matches SessionAction::WatchRegion(rg) ==> (exists|k: int|
                            0 <= k < keys@.len() && tuple_key(
                                #[trigger] keys@[k],
                            ).spec_region_key() == rg))
                    &&& forall|k: int|
                        0 <= k < keys@.len() ==> key_subscribed(
                            final(self).cache,
                            tuple_key(#[trigger] keys@[k]),
                        )
                },
                ClientMessage::SubscribeToInventory { player } => final(self).cache.regions@
                    == old(self).cache.regions@ && final(self).cache.players@ == old(
                    self,
                ).cache.players@ && r@.len() == 1 && (r@[0]
                    matches SessionAction::Resolve { player: p } && p@ == player@),
            },
    {
        match msg {
            ClientMessage::Pong => Vec::new(),
            ClientMessage::SubscribeToChunk { dimension, cx, cy, cz } => {
                let key = ChunkKey { dimension, cx, cy, cz };
                let region = key.region_key();
                let pos = key.rel_pos();
                let mut reqs: Vec<ChunkReq> = Vec::new();
                reqs.push(ChunkReq { pos, states: true, entities: false });
                proof {
                    assert(reqs@ =~= seq![ChunkReq { pos: key.spec_rel_pos(), states: true, entities: false }]);
                }
                self.plan_region_subscribe(region, reqs)
            },
            ClientMessage::SubscribeToBlockEntities { dimension, cx, cz } => {
                let key = ChunkKey { dimension, cx, cy: BLOCK_ENTITIES_CY, cz };
                let region = key.region_key();
                let pos = key.rel_pos();
                let mut reqs: Vec<ChunkReq> = Vec::new();
                reqs.push(ChunkReq { pos, states: false, entities: true });
                proof {
                    assert(reqs@ =~= seq![ChunkReq { pos: key.spec_rel_pos(), states: false, entities: true }]);
                }
                self.plan_region_subscribe(region, reqs)
            },
            ClientMessage::SubscribeToChunks(keys) => {
                let mut groups = group_chunk_keys(&keys);
                let mut r: Vec<SessionAction> = Vec::new();
                loop
                    invariant
                        self.wf(),
                        self.state is Running,
                        self.same_config(*old(self)),
                        self.cache.players@ == old(self).cache.players@,
                        forall|i: int|
                            0 <= i < r@.len() ==> ((#[trigger] r@[i]) is WatchRegion || r@[i]
                                is ReadRegion),
                        forall|i: int|
                            0 <= i < r@.len() ==> ((#[trigger] r@[i])
                                matches SessionAction::ReadRegion { region, reqs } ==> (forall|
                                x: int,
                            |
                                0 <= x < reqs@.len() ==> (#[trigger] reqs@[x]).states
                                    && !reqs@[x].entities && req_from_request(
                                    keys@,
                                    region,
                                    reqs@[x],
                                ))),
                        forall|i: int|
                            0 <= i < r@.len() ==> ((#[trigger] r@[i])
                                matches SessionAction::WatchRegion(rg) ==> (exists|k: int|
                                0 <= k < keys@.len() && tuple_key(
                                    #[trigger] keys@[k],
                                ).spec_region_key() == rg)),
                        forall|g: int|
                            0 <= g < groups@.len() ==> (#[trigger] groups@[g]).region.wf()
                                && groups@[g].reqs@.len() >= 1 && (forall|x: int|
                                0 <= x < groups@[g].reqs@.len() ==> (
                                #[trigger] groups@[g].reqs@[x]).pos.wf()
                                    && groups@[g].reqs@[x].states && !groups@[g].reqs@[x].entities
                                    && req_from_request(
                                    keys@,
                                    groups@[g].region,
                                    groups@[g].reqs@[x],
                                )),
                        forall|g: int, h: int|
                            0 <= g < h < groups@.len() ==> (#[trigger] groups@[g]).region != (
                            #[trigger] groups@[h]).region,
                        forall|k: int|
                            #![trigger keys@[k]]
                            0 <= k < keys@.len() ==> key_covered(keys@, groups@, k) || (
                            key_subscribed(self.cache, tuple_key(keys@[k])) && (forall|g: int|
                                0 <= g < groups@.len() ==> (#[trigger] groups@[g]).region
                                    != tuple_key(keys@[k]).spec_region_key())),
                    ensures
                        groups@.len() == 0,
                    decreases groups@.len(),
                {
                    let ghost r_prefix = r@;
                    let ghost groups_pre = groups@;
                    let group = groups.pop();
                    match group {
                        None => {
                            break ;
                        },
                        Some(g) => {
                            let ghost greqs = g.reqs@;
                            let ghost gregion = g.region;
                            let ghost pre_session = *self;
                            let mut planned = self.plan_region_subscribe(g.region, g.reqs);
                            proof {
                                assert forall|i: int|
                                    0 <= i < planned@.len() implies ((#[trigger] planned@[i])
                                        is WatchRegion || planned@[i] is ReadRegion) && (
                                planned@[i] matches SessionAction::ReadRegion { region, reqs }
                                    ==> region == gregion && reqs@ == greqs) && (planned@[i]
                                    matches SessionAction::WatchRegion(rg) ==> rg
                                    == gregion) by {
                                    if planned@.len() == 2 {
                                        assert(planned@[0] == SessionAction::WatchRegion(
                                            gregion,
                                        ));
                                    }
                                }
                                assert(req_from_request(keys@, gregion, greqs[0]));
                            }
                            let ghost planned0 = planned@;
                            r.append(&mut planned);
                            proof {
                                assert forall|i: int|
                                    0 <= i < r@.len() implies ((#[trigger] r@[i]) is WatchRegion
                                        || r@[i] is ReadRegion) by {
                                    if i < r_prefix.len() {
                                        assert(r@[i] == r_prefix[i]);
                                    }
                                }
                                assert(subscribe_effect(
                                    pre_session,
                                    *self,
                                    gregion,
                                    greqs,
                                    planned0,
                                ));
                                assert forall|k: int|
                                    #![trigger keys@[k]]
                                    0 <= k < keys@.len() implies key_covered(keys@, groups@, k)
                                        || (key_subscribed(self.cache, tuple_key(keys@[k])) && (
                                    forall|g2: int|
                                        0 <= g2 < groups@.len() ==> (
                                        #[trigger] groups@[g2]).region != tuple_key(
                                            keys@[k],
                                        ).spec_region_key())) by {
                                    let kk = tuple_key(keys@[k]);
                                    if key_covered(keys@, groups_pre, k) {
                                        let (wg, wx) = choose|wg: int, wx: int|
                                            #![trigger groups_pre[wg].reqs@[wx]]
                                            0 <= wg < groups_pre.len() && 0 <= wx
                                                < groups_pre[wg].reqs@.len()
                                                && groups_pre[wg].region
                                                == kk.spec_region_key()
                                                && groups_pre[wg].reqs@[wx].pos
                                                == kk.spec_rel_pos();
                                        if wg < groups_pre.len() - 1 {
                                            assert(groups@[wg].reqs@[wx]
                                                == groups_pre[wg].reqs@[wx]);
                                            assert(key_covered(keys@, groups@, k));
                                        } else {
                                            let rq = greqs[wx];
                                            assert(rq == ChunkReq {
                                                pos: kk.spec_rel_pos(),
                                                states: true,
                                                entities: false,
                                            });
                                            assert(key_subscribed(self.cache, kk)) by {
                                                if !pre_session.cache.spec_has_region(gregion)
                                                    || !(forall|x: int|
                                                    0 <= x < greqs.len() ==> req_satisfied(
                                                        pre_session.cache.regions@[region_index(
                                                            pre_session.cache.regions@,
                                                            gregion,
                                                        )].chunks@,
                                                        #[trigger] greqs[x],
                                                    )) {
                                                    assert(req_satisfied(
                                                        self.cache.regions@[region_index(
                                                            self.cache.regions@,
                                                            gregion,
                                                        )].chunks@,
                                                        rq,
                                                    ));
                                                }
                                            }
                                            assert(forall|g2: int|
                                                0 <= g2 < groups@.len() ==> (
                                                #[trigger] groups@[g2]).region
                                                    != kk.spec_region_key());
                                        }
                                    } else {
                                        assert(gregion != kk.spec_region_key());
                                        lemma_key_subscribed_stable(
                                            pre_session.cache,
                                            self.cache,
                                            kk,
                                            gregion,
                                        );
                                    }
                                }
                            }
                        },
                    }
                }
                proof {
                    assert forall|k: int|
                        #![trigger keys@[k]]
                        0 <= k < keys@.len() implies key_subscribed(
                            self.cache,
                            tuple_key(keys@[k]),
                        ) by {
                        if key_covered(keys@, groups@, k) {
                            let (wg, wx) = choose|wg: int, wx: int|
                                #![trigger groups@[wg].reqs@[wx]]
                                0 <= wg < groups@.len() && 0 <= wx < groups@[wg].reqs@.len()
                                    && groups@[wg].region == tuple_key(
                                    keys@[k],
                                ).spec_region_key() && groups@[wg].reqs@[wx].pos == tuple_key(
                                    keys@[k],
                                ).spec_rel_pos();
                            assert(false);
                        }
                    }
                }
                r
            },
            ClientMessage::SubscribeToInventory { player } => {
                let mut r: Vec<SessionAction> = Vec::new();
                r.push(SessionAction::Resolve { player });
                r
            },
        }
    }

    /// Whether the session tracks this chunk key, so that a fresh
    /// observation of it can be applied. The application filters read
    /// results through this before handing them back.
    pub fn chunk_tracked(&self, region: &RegionKey, pos: ChunkPos) -> (r: bool)
        requires
            self.wf(),
        ensures
            r == (self.cache.spec_has_region(*region) && has_pos(
                self.cache.regions@[region_index(self.cache.regions@, *region)].chunks@,
                pos,
            )),
    {
        let found = self.cache.find_region(region);
        match found {
            None => false,
            Some(ridx) => {
                proof {
                    lemma_region_index(self.cache.regions@, *region, ridx as int);
                }
                let hit = crate::cache::find_chunk(&self.cache.regions[ridx].chunks, pos);
                match hit {
                    Some(j) => {
                        proof {
                            assert(crate::cache::chunks_wf(
                                self.cache.regions@[ridx as int].chunks@,
                            ));
                            crate::cache::lemma_pos_index(
                                self.cache.regions@[ridx as int].chunks@,
                                pos,
                                j as int,
                            );
                        }
                        true
                    },
                    None => false,
                }
            },
        }
    }

    /// One observation of one tracked chunk key: pushes a frame exactly
    /// when the dedup rule owes one - never pushed before, or timestamp
    /// moved and the value differs from what the client last saw. The
    /// frame carries the key's absolute coordinates and the observed
    /// value.
    pub fn apply_column_read(&mut self, region: RegionKey, read: ColumnRead) -> (r: Option<Frame>)
        requires
            old(self).wf(),
            region.wf(),
            read.pos.wf(),
            (read.value matches ObservedValue::Section(Some(s)) ==> s.wf()),
            old(self).cache.spec_has_region(region),
            has_pos(
                old(self).cache.regions@[region_index(old(self).cache.regions@, region)].chunks@,
                read.pos,
            ),
        ensures
            final(self).wf(),
            final(self).state == old(self).state,
            final(self).same_config(*old(self)),
            final(self).cache.players@ == old(self).cache.players@,
            regions_shape_eq(old(self).cache.regions@, final(self).cache.regions@),
            forall|rr: int|
                0 <= rr < old(self).cache.regions@.len() && rr != region_index(
                    old(self).cache.regions@,
                    region,
                ) ==> #[trigger] final(self).cache.regions@[rr] == old(self).cache.regions@[rr],
            ({
                let ridx = region_index(old(self).cache.regions@, region);
                let chunks = old(self).cache.regions@[ridx].chunks@;
                let pidx = pos_index(chunks, read.pos);
                let obs = ColumnSnapshot { timestamp: read.timestamp, value: read.value };
                let after = final(self).cache.regions@[ridx].chunks@[pidx];
                &&& forall|j: int|
                    0 <= j < chunks.len() && j != pidx
                        ==> #[trigger] final(self).cache.regions@[ridx].chunks@[j] == chunks[j]
                &&& (r is Some) == spec_should_emit(chunks[pidx].obs.last, obs)
                &&& (r matches Some(f) ==> frame_for_read(region, read, f))
                &&& after.obs.subscribed_block_states == chunks[pidx].obs.subscribed_block_states
                &&& after.obs.subscribed_block_entities
                    == chunks[pidx].obs.subscribed_block_entities
                &&& (r is Some ==> (after.obs.last matches Some(s) && s.timestamp
                    == read.timestamp && value_view_eq(s.value, read.value)))
                &&& (r is None ==> after.obs.last == chunks[pidx].obs.last)
            }),
    {
        let found = self.cache.find_region(&region);
        match found {
            None => {
                proof {
                    let w = choose|i: int|
                        0 <= i < self.cache.regions@.len() && (
                        #[trigger] self.cache.regions@[i]).key == region;
                    assert(false);
                }
                None
            },
            Some(ridx) => {
                proof {
                    lemma_region_index(self.cache.regions@, region, ridx as int);
                }
                let cx = chunk_coord(region.rx, read.pos.rel_x);
                let cz = chunk_coord(region.rz, read.pos.rel_z);
                let stored = copy_value(&read.value);
                let emit = self.cache.apply_observation(
                    ridx,
                    read.pos,
                    ColumnSnapshot { timestamp: read.timestamp, value: stored },
                );
                if emit {
                    match read.value {
                        ObservedValue::Section(sec) => Some(
                            Frame::ChunkData {
                                key: ChunkKey {
                                    dimension: region.dimension,
                                    cx,
                                    cy: read.pos.cy,
                                    cz,
                                },
                                section: sec,
                            },
                        ),
                        ObservedValue::Entities(es) => Some(
                            Frame::BlockEntities { dimension: region.dimension, cx, cz, data: es },
                        ),
                    }
                } else {
                    None
                }
            },
        }
    }

    /// One pass over the outcome of reading a region for a request list.
    /// `columns` is `None` when the region's backing file does not exist:
    /// then every requested key is treated as newly absent, which pushes
    /// one frame per chunk last seen as present - the deliberate
    /// batch-absence behavior of the region-read path. Exactly the columns
    /// (or requests) that the dedup rule judges changed produce a frame,
    /// in pass order; exactly their slots are updated; every other slot
    /// and region is untouched.
    #[verifier::rlimit(40)]
    pub fn handle_region_read(
        &mut self,
        region: RegionKey,
        reqs: Vec<ChunkReq>,
        columns: Option<Vec<ColumnRead>>,
    ) -> (r: Vec<Frame>)
        requires
            old(self).wf(),
            region.wf(),
            old(self).cache.spec_has_region(region),
            forall|i: int|
                0 <= i < reqs@.len() ==> (#[trigger] reqs@[i]).pos.wf() && has_pos(
                    old(self).cache.regions@[region_index(
                        old(self).cache.regions@,
                        region,
                    )].chunks@,
                    reqs@[i].pos,
                ),
            forall|x: int, y: int|
                0 <= x < y < reqs@.len() ==> (#[trigger] reqs@[x]).pos != (
                #[trigger] reqs@[y]).pos,
            columns matches Some(cs) ==> forall|i: int|
                0 <= i < cs@.len() ==> (#[trigger] cs@[i]).pos.wf() && has_pos(
                    old(self).cache.regions@[region_index(
                        old(self).cache.regions@,
                        region,
                    )].chunks@,
                    cs@[i].pos,
                ) && (cs@[i].value matches ObservedValue::Section(Some(s)) ==> s.wf()),
            columns matches Some(cs) ==> forall|x: int, y: int|
                0 <= x < y < cs@.len() ==> (#[trigger] cs@[x]).pos != (#[trigger] cs@[y]).pos,
        ensures
            final(self).wf(),
            final(self).state == old(self).state,
            final(self).same_config(*old(self)),
            final(self).cache.players@ == old(self).cache.players@,
            regions_shape_eq(old(self).cache.regions@, final(self).cache.regions@),
            forall|rr: int|
                0 <= rr < old(self).cache.regions@.len() && rr != region_index(
                    old(self).cache.regions@,
                    region,
                ) ==> #[trigger] final(self).cache.regions@[rr] == old(self).cache.regions@[rr],
            ({
                let ridx = region_index(old(self).cache.regions@, region);
                let chunks0 = old(self).cache.regions@[ridx].chunks@;
                let chunksf = final(self).cache.regions@[ridx].chunks@;
                &&& chunksf.len() == chunks0.len()
                &&& match columns {
                    Option::Some(cols) => {
                        let emitting = emitting_reads(chunks0, cols@);
                        &&& r@.len() == emitting.len()
                        &&& forall|k: int|
                            0 <= k < emitting.len() ==> frame_for_read(
                                region,
                                emitting[k],
                                #[trigger] r@[k],
                            )
                        &&& forall|x: int|
                            0 <= x < cols@.len() ==> read_applied(
                                chunks0[pos_index(chunks0, (#[trigger] cols@[x]).pos)],
                                cols@[x],
                                chunksf[pos_index(chunks0, cols@[x].pos)],
                            )
                        &&& forall|j: int|
                            0 <= j < chunks0.len() && (forall|x: int|
                                0 <= x < cols@.len() ==> (#[trigger] cols@[x]).pos
                                    != chunks0[j].pos) ==> #[trigger] chunksf[j] == chunks0[j]
                    },
                    Option::None => {
                        let emitting = emitting_absents(chunks0, reqs@);
                        &&& r@.len() == emitting.len()
                        &&& forall|k: int|
                            0 <= k < emitting.len() ==> frame_for_absent(
                                region,
                                emitting[k],
                                #[trigger] r@[k],
                            )
                        &&& forall|x: int|
                            0 <= x < reqs@.len() ==> absent_applied(
                                chunks0[pos_index(chunks0, (#[trigger] reqs@[x]).pos)],
                                reqs@[x],
                                chunksf[pos_index(chunks0, reqs@[x].pos)],
                            )
                        &&& forall|j: int|
                            0 <= j < chunks0.len() && (forall|x: int|
                                0 <= x < reqs@.len() ==> (#[trigger] reqs@[x]).pos
                                    != chunks0[j].pos) ==> #[trigger] chunksf[j] == chunks0[j]
                    },
                }
            }),
    {
        let ghost ridx0 = region_index(old(self).cache.regions@, region);
        let ghost chunks0 = old(self).cache.regions@[ridx0].chunks@;
        let mut r: Vec<Frame> = Vec::new();
        proof {
            lemma_regions_shape_eq_refl(self.cache.regions@);
        }
        match columns {
            None => {
                let mut i: usize = 0;
                while i < reqs.len()
                    invariant
                        i <= reqs@.len(),
                        old(self).wf(),
                        self.wf(),
                        self.state == old(self).state,
                        self.same_config(*old(self)),
                        self.cache.players@ == old(self).cache.players@,
                        region.wf(),
                        old(self).cache.spec_has_region(region),
                        self.cache.spec_has_region(region),
                        ridx0 == region_index(old(self).cache.regions@, region),
                        chunks0 == old(self).cache.regions@[ridx0].chunks@,
                        regions_shape_eq(old(self).cache.regions@, self.cache.regions@),
                        forall|rr: int|
                            0 <= rr < old(self).cache.regions@.len() && rr != ridx0
                                ==> #[trigger] self.cache.regions@[rr] == old(
                                self,
                            ).cache.regions@[rr],
                        forall|x: int|
                            0 <= x < reqs@.len() ==> (#[trigger] reqs@[x]).pos.wf() && has_pos(
                                chunks0,
                                reqs@[x].pos,
                            ),
                        forall|x: int, y: int|
                            0 <= x < y < reqs@.len() ==> (#[trigger] reqs@[x]).pos != (
                            #[trigger] reqs@[y]).pos,
                        self.cache.regions@[ridx0].chunks@.len() == chunks0.len(),
                        forall|x: int|
                            0 <= x < i ==> absent_applied(
                                chunks0[pos_index(chunks0, (#[trigger] reqs@[x]).pos)],
                                reqs@[x],
                                self.cache.regions@[ridx0].chunks@[pos_index(
                                    chunks0,
                                    reqs@[x].pos,
                                )],
                            ),
                        forall|x: int|
                            i <= x < reqs@.len()
                                ==> #[trigger] self.cache.regions@[ridx0].chunks@[pos_index(
                                chunks0,
                                reqs@[x].pos,
                            )] == chunks0[pos_index(chunks0, reqs@[x].pos)],
                        forall|j: int|
                            0 <= j < chunks0.len() && (forall|x: int|
                                0 <= x < reqs@.len() ==> (#[trigger] reqs@[x]).pos
                                    != chunks0[j].pos)
                                ==> #[trigger] self.cache.regions@[ridx0].chunks@[j]
                                == chunks0[j],
                        r@.len() == emitting_absents(chunks0, reqs@.take(i as int)).len(),
                        forall|k: int|
                            0 <= k < r@.len() ==> frame_for_absent(
                                region,
                                emitting_absents(chunks0, reqs@.take(i as int))[k],
                                #[trigger] r@[k],
                            ),
                    decreases reqs@.len() - i,
                {
                    let req = reqs[i];
                    proof {
                        lemma_region_index(self.cache.regions@, region, ridx0);
                        assert(crate::cache::chunks_wf(chunks0));
                        assert(crate::cache::chunks_wf(self.cache.regions@[ridx0].chunks@));
                        let w = choose|j: int|
                            0 <= j < chunks0.len() && (#[trigger] chunks0[j]).pos == req.pos;
                        crate::cache::lemma_pos_index(chunks0, req.pos, w);
                        assert(self.cache.regions@[ridx0].chunks@[w].pos == req.pos);
                        crate::cache::lemma_pos_index(
                            self.cache.regions@[ridx0].chunks@,
                            req.pos,
                            w,
                        );
                    }
                    let value = if req.pos.cy == BLOCK_ENTITIES_CY && req.entities {
                        ObservedValue::Entities(Vec::new())
                    } else {
                        ObservedValue::Section(None)
                    };
                    let read = ColumnRead { pos: req.pos, timestamp: None, value };
                    let ghost pre_regions = self.cache.regions@;
                    proof {
                        assert(spec_should_emit(
                            chunks0[pos_index(chunks0, req.pos)].obs.last,
                            read_obs(read),
                        ) == spec_absent_emits(
                            chunks0[pos_index(chunks0, req.pos)].obs.last,
                            req,
                        )) by {
                            if req.pos.cy == BLOCK_ENTITIES_CY && req.entities {
                                assert(crate::block::spec_entity_blobs(
                                    Seq::<crate::block::BlockEntity>::empty(),
                                ) =~= Seq::<Seq<u8>>::empty());
                            }
                        }
                    }
                    let f = self.apply_column_read(region, read);
                    proof {
                        lemma_regions_shape_eq_trans(
                            old(self).cache.regions@,
                            pre_regions,
                            self.cache.regions@,
                        );
                        assert(reqs@.take(i as int + 1).drop_last() =~= reqs@.take(i as int));
                        assert(reqs@.take(i as int + 1).last() == reqs@[i as int]);
                        if f is Some {
                            assert(crate::block::spec_entity_blobs(
                                Seq::<crate::block::BlockEntity>::empty(),
                            ) =~= Seq::<Seq<u8>>::empty());
                        }
                    }
                    match f {
                        Some(frame) => {
                            r.push(frame);
                        },
                        None => {},
                    }
                    i = i + 1;
                }
                proof {
                    assert(reqs@.take(reqs@.len() as int) =~= reqs@);
                }
            },
            Some(cols) => {
                let mut cols = cols;
                let ghost cols0 = cols@;
                let total = cols.len();
                let mut i: usize = 0;
                while cols.len() > 0
                    invariant
                        total == cols0.len(),
                        i + cols@.len() == cols0.len(),
                        cols@ == cols0.subrange(i as int, cols0.len() as int),
                        old(self).wf(),
                        self.wf(),
                        self.state == old(self).state,
                        self.same_config(*old(self)),
                        self.cache.players@ == old(self).cache.players@,
                        region.wf(),
                        old(self).cache.spec_has_region(region),
                        self.cache.spec_has_region(region),
                        ridx0 == region_index(old(self).cache.regions@, region),
                        chunks0 == old(self).cache.regions@[ridx0].chunks@,
                        regions_shape_eq(old(self).cache.regions@, self.cache.regions@),
                        forall|rr: int|
                            0 <= rr < old(self).cache.regions@.len() && rr != ridx0
                                ==> #[trigger] self.cache.regions@[rr] == old(
                                self,
                            ).cache.regions@[rr],
                        forall|x: int|
                            0 <= x < cols0.len() ==> (#[trigger] cols0[x]).pos.wf() && has_pos(
                                chunks0,
                                cols0[x].pos,
                            ) && (cols0[x].value matches ObservedValue::Section(Some(s))
                                ==> s.wf()),
                        forall|x: int, y: int|
                            0 <= x < y < cols0.len() ==> (#[trigger] cols0[x]).pos != (
                            #[trigger] cols0[y]).pos,
                        self.cache.regions@[ridx0].chunks@.len() == chunks0.len(),
                        forall|x: int|
                            0 <= x < i ==> read_applied(
                                chunks0[pos_index(chunks0, (#[trigger] cols0[x]).pos)],
                                cols0[x],
                                self.cache.regions@[ridx0].chunks@[pos_index(
                                    chunks0,
                                    cols0[x].pos,
                                )],
                            ),
                        forall|x: int|
                            i <= x < cols0.len()
                                ==> #[trigger] self.cache.regions@[ridx0].chunks@[pos_index(
                                chunks0,
                                cols0[x].pos,
                            )] == chunks0[pos_index(chunks0, cols0[x].pos)],
                        forall|j: int|
                            0 <= j < chunks0.len() && (forall|x: int|
                                0 <= x < cols0.len() ==> (#[trigger] cols0[x]).pos
                                    != chunks0[j].pos)
                                ==> #[trigger] self.cache.regions@[ridx0].chunks@[j]
                                == chunks0[j],
                        r@.len() == emitting_reads(chunks0, cols0.take(i as int)).len(),
                        forall|k: int|
                            0 <= k < r@.len() ==> frame_for_read(
                                region,
                                emitting_reads(chunks0, cols0.take(i as int))[k],
                                #[trigger] r@[k],
                            ),
                    decreases cols@.len(),
                {
                    let read = cols.remove(0);
                    proof {
                        assert(read == cols0[i as int]);
                        assert(cols@ =~= cols0.subrange(i as int + 1, cols0.len() as int));
                        lemma_region_index(self.cache.regions@, region, ridx0);
                        assert(crate::cache::chunks_wf(chunks0));
                        assert(crate::cache::chunks_wf(self.cache.regions@[ridx0].chunks@));
                        let w = choose|j: int|
                            0 <= j < chunks0.len() && (#[trigger] chunks0[j]).pos == read.pos;
                        crate::cache::lemma_pos_index(chunks0, read.pos, w);
                        assert(self.cache.regions@[ridx0].chunks@[w].pos == read.pos);
                        crate::cache::lemma_pos_index(
                            self.cache.regions@[ridx0].chunks@,
                            read.pos,
                            w,
                        );
                    }
                    let ghost pre_regions = self.cache.regions@;
                    let f = self.apply_column_read(region, read);
                    proof {
                        lemma_regions_shape_eq_trans(
                            old(self).cache.regions@,
                            pre_regions,
                            self.cache.regions@,
                        );
                        assert(cols0.take(i as int + 1).drop_last() =~= cols0.take(i as int));
                        assert(cols0.take(i as int + 1).last() == cols0[i as int]);
                    }
                    match f {
                        Some(frame) => {
                            r.push(frame);
                        },
                        None => {},
                    }
                    i = i + 1;
                }
                proof {
                    assert(cols0.take(cols0.len() as int) =~= cols0);
                }
            },
        }
        r
    }

    /// One drained batch of filesystem-change events, in batch order.
    /// Modified paths under the player-data directory must name
    /// `<uuid>.<ext>` files - any other shape is fatal - and trigger a
    /// re-read for players the session tracks; every other modified path
    /// is handed back to be identified as a region file. Exactly the
    /// acting events produce an action, nothing else.
    pub fn handle_notify_batch(&mut self, events: Vec<FsEvent>) -> (r: Result<
        Vec<SessionAction>,
        SessionError,
    >)
        requires
            old(self).wf(),
            old(self).state is Running,
        ensures
            final(self).wf(),
            final(self).same_config(*old(self)),
            final(self).cache.regions@ == old(self).cache.regions@,
            final(self).cache.players@ == old(self).cache.players@,
            (r is Err) == spec_notify_fails(old(self).player_dir@, events@),
            r matches Err(e) ==> final(self).state is Closed && (e
                matches SessionError::MalformedPlayerDataPath(p) && (exists|i: int|
                0 <= i < events@.len() && (#[trigger] events@[i]).path == p && event_malformed(
                    old(self).player_dir@,
                    events@[i],
                ))),
            r matches Ok(acts) ==> final(self).state is Running && ({
                let acting = acting_events(
                    old(self).cache.players@,
                    old(self).player_dir@,
                    events@,
                );
                &&& acts@.len() == acting.len()
                &&& forall|k: int|
                    0 <= k < acting.len() ==> event_action(
                        old(self).cache.players@,
                        old(self).player_dir@,
                        acting[k],
                        #[trigger] acts@[k],
                    )
            }),
    {
        let ghost events0 = events@;
        let mut pending = events;
        let total = pending.len();
        let mut acts: Vec<SessionAction> = Vec::new();
        let mut i: usize = 0;
        while pending.len() > 0
            invariant
                events0 == events@,
                total == events0.len(),
                i + pending@.len() == events0.len(),
                pending@ == events0.subrange(i as int, events0.len() as int),
                self.wf(),
                self.state is Running,
                self.same_config(*old(self)),
                self.cache.regions@ == old(self).cache.regions@,
                self.cache.players@ == old(self).cache.players@,
                self.player_dir@ == old(self).player_dir@,
                forall|x: int|
                    0 <= x < i ==> !event_malformed(old(self).player_dir@, #[trigger] events0[x]),
                acts@.len() == acting_events(
                    old(self).cache.players@,
                    old(self).player_dir@,
                    events0.take(i as int),
                ).len(),
                forall|k: int|
                    0 <= k < acts@.len() ==> event_action(
                        old(self).cache.players@,
                        old(self).player_dir@,
                        acting_events(
                            old(self).cache.players@,
                            old(self).player_dir@,
                            events0.take(i as int),
                        )[k],
                        #[trigger] acts@[k],
                    ),
            decreases pending@.len(),
        {
            let ev = pending.remove(0);
            proof {
                assert(ev == events0[i as int]);
                assert(pending@ =~= events0.subrange(i as int + 1, events0.len() as int));
                assert(events0.take(i as int + 1).drop_last() =~= events0.take(i as int));
                assert(events0.take(i as int + 1).last() == events0[i as int]);
            }
            if ev.modified {
                let stripped = strip_prefix(&ev.path, &self.player_dir);
                match stripped {
                    Some(rest) => {
                        let parsed = parse_player_filename(&rest);
                        match parsed {
                            None => {
                                self.state = SessionState::Closed;
                                proof {
                                    assert(event_malformed(
                                        old(self).player_dir@,
                                        events0[i as int],
                                    ));
                                }
                                return Err(SessionError::MalformedPlayerDataPath(ev.path));
                            },
                            Some(uuid) => {
                                let found = self.cache.find_player(uuid);
                                match found {
                                    Some(pi) => {
                                        proof {
                                            lemma_player_index(
                                                self.cache.players@,
                                                uuid,
                                                pi as int,
                                            );
                                            assert(event_acts(
                                                old(self).cache.players@,
                                                old(self).player_dir@,
                                                ev,
                                            ));
                                        }
                                        let id = String::from_str(
                                            self.cache.players[pi].id.as_str(),
                                        );
                                        acts.push(SessionAction::ReadPlayer { id, uuid });
                                    },
                                    None => {
                                        proof {
                                            assert(!event_acts(
                                                old(self).cache.players@,
                                                old(self).player_dir@,
                                                ev,
                                            )) by {
                                                if event_acts(
                                                    old(self).cache.players@,
                                                    old(self).player_dir@,
                                                    ev,
                                                ) {
                                                    let w = choose|x: int|
                                                        0 <= x < old(
                                                            self,
                                                        ).cache.players@.len() && (#[trigger] old(
                                                            self,
                                                        ).cache.players@[x]).uuid as int
                                                            == spec_uuid_value(
                                                            player_rest(
                                                                old(self).player_dir@,
                                                                ev.path@,
                                                            ),
                                                        );
                                                    assert(old(
                                                        self,
                                                    ).cache.players@[w].uuid == uuid);
                                                }
                                            }
                                        }
                                        // a change for a player the session never
                                        // subscribed to: nothing to push
                                    },
                                }
                            },
                        }
                    },
                    None => {
                        proof {
                            assert(event_acts(
                                old(self).cache.players@,
                                old(self).player_dir@,
                                ev,
                            ));
                        }
                        acts.push(SessionAction::IdentifyRegion { path: ev.path });
                    },
                }
            }
            i = i + 1;
        }
        proof {
            assert(events0.take(total as int) =~= events0);
            assert(!spec_notify_fails(old(self).player_dir@, events0)) by {
                if spec_notify_fails(old(self).player_dir@, events0) {
                    let w = choose|x: int|
                        0 <= x < events0.len() && event_malformed(
                            old(self).player_dir@,
                            #[trigger] events0[x],
                        );
                }
            }
        }
        Ok(acts)
    }

    /// A changed region file was identified: re-run the read-diff-emit
    /// pass, but only for the chunk keys of that region the session
    /// already tracks - never for keys the client has not asked about.
    pub fn handle_region_identified(&self, region: &RegionKey) -> (r: Option<SessionAction>)
        requires
            self.wf(),
        ensures
            (r is Some) == self.cache.spec_has_region(*region),
            r matches Some(a) ==> (a matches SessionAction::ReadRegion { region: rg, reqs }
                && rg == *region && ({
                let chunks = self.cache.regions@[region_index(
                    self.cache.regions@,
                    *region,
                )].chunks@;
                &&& reqs@.len() == chunks.len()
                &&& forall|j: int|
                    0 <= j < chunks.len() ==> (#[trigger] reqs@[j]).pos == chunks[j].pos
                        && reqs@[j].states == chunks[j].obs.subscribed_block_states
                        && reqs@[j].entities == chunks[j].obs.subscribed_block_entities
            })),
    {
        let found = self.cache.find_region(region);
        match found {
            None => None,
            Some(ridx) => {
                proof {
                    lemma_region_index(self.cache.regions@, *region, ridx as int);
                    assert(self.cache.spec_has_region(*region));
                }
                let mut reqs: Vec<ChunkReq> = Vec::new();
                let n = self.cache.regions[ridx].chunks.len();
                let mut j: usize = 0;
                while j < n
                    invariant
                        j <= n,
                        ridx < self.cache.regions@.len(),
                        n == self.cache.regions@[ridx as int].chunks@.len(),
                        reqs@.len() == j,
                        forall|x: int|
                            0 <= x < j ==> (#[trigger] reqs@[x]).pos
                                == self.cache.regions@[ridx as int].chunks@[x].pos
                                && reqs@[x].states
                                == self.cache.regions@[ridx as int].chunks@[x].obs.subscribed_block_states
                                && reqs@[x].entities
                                == self.cache.regions@[ridx as int].chunks@[x].obs.subscribed_block_entities,
                    decreases n - j,
                {
                    let slot = &self.cache.regions[ridx].chunks[j];
                    reqs.push(
                        ChunkReq {
                            pos: slot.pos,
                            states: slot.obs.subscribed_block_states,
                            entities: slot.obs.subscribed_block_entities,
                        },
                    );
                    j = j + 1;
                }
                Some(SessionAction::ReadRegion { region: *region, reqs })
            },
        }
    }

    /// One read of a player's data file: pushes a frame exactly when the
    /// observed data differs from what the client last saw.
    pub fn handle_player_read(&mut self, id: String, uuid: u128, data: Option<Vec<u8>>) -> (r:
        Option<Frame>)
        requires
            old(self).wf(),
            old(self).cache.spec_has_player(uuid),
        ensures
            final(self).wf(),
            final(self).state == old(self).state,
            final(self).same_config(*old(self)),
            final(self).cache.regions@ == old(self).cache.regions@,
            final(self).cache.players@.len() == old(self).cache.players@.len(),
            forall|i: int|
                0 <= i < old(self).cache.players@.len() && i != player_index(
                    old(self).cache.players@,
                    uuid,
                ) ==> #[trigger] final(self).cache.players@[i] == old(self).cache.players@[i],
            (r is Some) == spec_player_should_emit(
                old(self).cache.players@[player_index(old(self).cache.players@, uuid)].last,
                player_data_view(data),
            ),
            r matches Some(f) ==> (f matches Frame::PlayerData { id: i, uuid: u, data: d }
                && i@ == id@ && u == uuid && player_data_view(d) == player_data_view(data)),
            ({
                let pidx = player_index(old(self).cache.players@, uuid);
                let before = old(self).cache.players@[pidx];
                let after = final(self).cache.players@[pidx];
                &&& after.uuid == uuid
                &&& after.id@ == before.id@
                &&& (r is Some ==> (after.last matches Some(d) && player_data_view(d)
                    == player_data_view(data)))
                &&& (r is None ==> after.last == before.last)
            }),
    {
        let stored: Option<Vec<u8>> = match &data {
            None => None,
            Some(v) => Some(copy_blob(v)),
        };
        let emit = self.cache.apply_player_observation(uuid, stored);
        if emit {
            Some(Frame::PlayerData { id, uuid, data })
        } else {
            None
        }
    }
}

} // verus!
