//! End-to-end session scenarios: subscribe, read, dedup, notify, errors.

use worldsync::block::{BlockEntity, BlockState, ChunkSection, SECTION_VOLUME};
use worldsync::cache::{ChunkReq, ObservedValue};
use worldsync::errors::SessionError;
use worldsync::keys::{ChunkPos, Dimension, RegionKey};
use worldsync::session::{
    ColumnRead, FsEvent, Session, SessionAction, SessionState, BLOCK_ENTITIES_CY,
};
use worldsync::wire::{ClientMessage, Frame};
use worldsync::ProtocolVersion;

fn uniform_section(id: u32) -> ChunkSection {
    let mut blocks = Vec::new();
    for _ in 0..SECTION_VOLUME {
        blocks.push(BlockState { id });
    }
    ChunkSection { blocks }
}

fn new_session() -> Session {
    Session::new(ProtocolVersion::V4, b"/srv/world/playerdata/".to_vec())
}

fn present_read(pos: ChunkPos, timestamp: i64, id: u32) -> ColumnRead {
    ColumnRead {
        pos,
        timestamp: Some(timestamp),
        value: ObservedValue::Section(Some(uniform_section(id))),
    }
}

/// Scenario: one subscribe against a present chunk pushes exactly one
/// frame with matching coordinates; a change notification whose re-read
/// observes the same timestamp pushes nothing more.
#[test]
fn subscribe_present_chunk_then_unchanged_notification() {
    let mut s = new_session();
    let acts = s.handle_message(ClientMessage::SubscribeToChunk {
        dimension: Dimension::Overworld,
        cx: 0,
        cy: 0,
        cz: 0,
    });
    assert_eq!(acts.len(), 2);
    let region = match &acts[0] {
        SessionAction::WatchRegion(r) => *r,
        other => panic!("expected a watch first, got {other:?}"),
    };
    assert_eq!(region, RegionKey { dimension: Dimension::Overworld, rx: 0, rz: 0 });
    let reqs: Vec<ChunkReq> = match &acts[1] {
        SessionAction::ReadRegion { region: rg, reqs } => {
            assert_eq!(*rg, region);
            reqs.clone()
        },
        other => panic!("expected a read, got {other:?}"),
    };
    assert_eq!(reqs.len(), 1);
    let pos = reqs[0].pos;
    assert_eq!((pos.rel_x, pos.cy, pos.rel_z), (0, 0, 0));

    let frames = s.handle_region_read(region, reqs.clone(), Some(vec![present_read(pos, 100, 7)]));
    assert_eq!(frames.len(), 1);
    match &frames[0] {
        Frame::ChunkData { key, section } => {
            assert_eq!((key.dimension, key.cx, key.cy, key.cz), (Dimension::Overworld, 0, 0, 0));
            let sec = section.as_ref().expect("present chunk carries data");
            assert!(sec.blocks.iter().all(|b| b.id == 7));
        },
        other => panic!("expected chunk data, got {other:?}"),
    }

    // the file-change notification re-reads the cached keys only
    let act = s
        .handle_region_identified(&region)
        .expect("a watched region is cached");
    let reqs2 = match act {
        SessionAction::ReadRegion { region: rg, reqs } => {
            assert_eq!(rg, region);
            reqs
        },
        other => panic!("expected a read, got {other:?}"),
    };
    assert_eq!(reqs2.len(), 1);
    let frames2 = s.handle_region_read(region, reqs2, Some(vec![present_read(pos, 100, 7)]));
    assert!(frames2.is_empty(), "unchanged timestamp must not emit");
}

/// Scenario: a timestamp that advances with identical content pushes
/// nothing; content that also changes pushes exactly one new frame.
#[test]
fn timestamp_advance_same_content_then_changed_content() {
    let mut s = new_session();
    let acts = s.handle_message(ClientMessage::SubscribeToChunk {
        dimension: Dimension::Overworld,
        cx: 0,
        cy: 0,
        cz: 0,
    });
    let (region, reqs) = match (&acts[0], &acts[1]) {
        (SessionAction::WatchRegion(r), SessionAction::ReadRegion { reqs, .. }) => {
            (*r, reqs.clone())
        },
        other => panic!("unexpected actions {other:?}"),
    };
    let pos = reqs[0].pos;
    let first = s.handle_region_read(region, reqs.clone(), Some(vec![present_read(pos, 100, 7)]));
    assert_eq!(first.len(), 1);

    // timestamp moved, content identical: dedup is by value
    let second = s.handle_region_read(region, reqs.clone(), Some(vec![present_read(pos, 200, 7)]));
    assert!(second.is_empty());

    // timestamp moved, content changed: exactly one new frame
    let third = s.handle_region_read(region, reqs.clone(), Some(vec![present_read(pos, 300, 8)]));
    assert_eq!(third.len(), 1);
}

/// Scenario: the second identical subscribe is free - no disk read, no
/// watch, no frame.
#[test]
fn subscribe_idempotent_second_subscribe_does_nothing() {
    let mut s = new_session();
    let msg = || ClientMessage::SubscribeToChunk {
        dimension: Dimension::Overworld,
        cx: 5,
        cy: 2,
        cz: -3,
    };
    let acts = s.handle_message(msg());
    assert_eq!(acts.len(), 2);
    let acts2 = s.handle_message(msg());
    assert!(acts2.is_empty(), "idempotent re-subscribe must be free");
}

/// Scenario: a duplicated key in one batched subscribe is requested from
/// disk once.
#[test]
fn duplicate_keys_collapse_to_one_request() {
    let mut s = new_session();
    let acts = s.handle_message(ClientMessage::SubscribeToChunks(vec![
        (Dimension::Overworld, 0, 0, 0),
        (Dimension::Overworld, 0, 0, 0),
    ]));
    assert_eq!(acts.len(), 2);
    match &acts[1] {
        SessionAction::ReadRegion { reqs, .. } => assert_eq!(reqs.len(), 1),
        other => panic!("expected a read, got {other:?}"),
    }
}

/// Scenario: a region file that vanishes pushes one absent frame per
/// cached chunk, and only once.
#[test]
fn region_vanishing_pushes_batch_absence_once() {
    let mut s = new_session();
    let acts = s.handle_message(ClientMessage::SubscribeToChunks(vec![
        (Dimension::Overworld, 0, 0, 0),
        (Dimension::Overworld, 1, 0, 0),
    ]));
    let (region, reqs) = match (&acts[0], &acts[1]) {
        (SessionAction::WatchRegion(r), SessionAction::ReadRegion { reqs, .. }) => {
            (*r, reqs.clone())
        },
        other => panic!("unexpected actions {other:?}"),
    };
    assert_eq!(reqs.len(), 2);
    let frames = s.handle_region_read(region, reqs.clone(), None);
    assert_eq!(frames.len(), 2);
    for f in &frames {
        match f {
            Frame::ChunkData { section, .. } => assert!(section.is_none()),
            other => panic!("expected chunk data, got {other:?}"),
        }
    }
    // the region is still gone on the next notification: nothing new
    let frames2 = s.handle_region_read(region, reqs, None);
    assert!(frames2.is_empty());
}

/// Scenario: block-entity subscriptions use the column convention and
/// dedup by list equality.
#[test]
fn block_entities_subscribe_and_dedup() {
    let mut s = new_session();
    let acts = s.handle_message(ClientMessage::SubscribeToBlockEntities {
        dimension: Dimension::Overworld,
        cx: 0,
        cz: 0,
    });
    let (region, reqs) = match (&acts[0], &acts[1]) {
        (SessionAction::WatchRegion(r), SessionAction::ReadRegion { reqs, .. }) => {
            (*r, reqs.clone())
        },
        other => panic!("unexpected actions {other:?}"),
    };
    assert_eq!(reqs[0].pos.cy, BLOCK_ENTITIES_CY);
    assert!(reqs[0].entities && !reqs[0].states);
    let read = ColumnRead {
        pos: reqs[0].pos,
        timestamp: Some(50),
        value: ObservedValue::Entities(vec![BlockEntity { data: vec![1, 2, 3] }]),
    };
    let frames = s.handle_region_read(region, reqs.clone(), Some(vec![read]));
    assert_eq!(frames.len(), 1);
    match &frames[0] {
        Frame::BlockEntities { dimension, cx, cz, data } => {
            assert_eq!((*dimension, *cx, *cz), (Dimension::Overworld, 0, 0));
            assert_eq!(data.len(), 1);
            assert_eq!(data[0].data, vec![1, 2, 3]);
        },
        other => panic!("expected block entities, got {other:?}"),
    }
    let read_again = ColumnRead {
        pos: reqs[0].pos,
        timestamp: Some(50),
        value: ObservedValue::Entities(vec![BlockEntity { data: vec![1, 2, 3] }]),
    };
    let frames2 = s.handle_region_read(region, reqs, Some(vec![read_again]));
    assert!(frames2.is_empty());
}

/// Scenario: a failed inventory resolution is reported in one `Error`
/// frame carrying the original reference, and the session stays open.
#[test]
fn failed_resolution_is_nonfatal() {
    let mut s = new_session();
    let acts = s.handle_message(ClientMessage::SubscribeToInventory {
        player: "unknown-id".to_string(),
    });
    assert_eq!(acts.len(), 1);
    let player = match &acts[0] {
        SessionAction::Resolve { player } => player.clone(),
        other => panic!("expected a resolve, got {other:?}"),
    };
    let acts2 = s.handle_resolved(player, None);
    assert_eq!(acts2.len(), 1);
    match &acts2[0] {
        SessionAction::Send(Frame::Error { debug, .. }) => assert_eq!(debug, "unknown-id"),
        other => panic!("expected an error frame, got {other:?}"),
    }
    assert_eq!(s.state, SessionState::Running);
    // the session still accepts messages
    let acts3 = s.handle_message(ClientMessage::Pong);
    assert!(acts3.is_empty());
}

/// Scenario: a successful resolution watches the player once and pushes
/// data frames only on change.
#[test]
fn player_data_read_diff_emit() {
    let mut s = new_session();
    let uuid = 0x069a79f444e94726a5befca90e38aaf5u128;
    let acts = s.handle_resolved("fenhl".to_string(), Some(uuid));
    assert_eq!(acts.len(), 2);
    assert!(matches!(acts[0], SessionAction::WatchPlayer(u) if u == uuid));
    assert!(matches!(&acts[1], SessionAction::ReadPlayer { uuid: u, .. } if *u == uuid));

    let f1 = s.handle_player_read("fenhl".to_string(), uuid, Some(vec![9, 9]));
    assert!(matches!(&f1, Some(Frame::PlayerData { data: Some(d), .. }) if *d == vec![9, 9]));
    let f2 = s.handle_player_read("fenhl".to_string(), uuid, Some(vec![9, 9]));
    assert!(f2.is_none(), "unchanged player data must not emit");
    let f3 = s.handle_player_read("fenhl".to_string(), uuid, None);
    assert!(matches!(&f3, Some(Frame::PlayerData { data: None, .. })));

    // a second subscribe for the same player does not watch again
    let acts2 = s.handle_resolved("fenhl".to_string(), Some(uuid));
    assert_eq!(acts2.len(), 1);
    assert!(matches!(&acts2[0], SessionAction::ReadPlayer { .. }));
}

/// Scenario: the read deadline expiring is fatal; a shutdown closes
/// cleanly; write-side failures close with the given error.
#[test]
fn timeout_and_shutdown_close_the_session() {
    let mut s = new_session();
    let e = s.handle_timeout();
    assert!(matches!(e, SessionError::Timeout));
    assert_eq!(s.state, SessionState::Closed);

    let mut s2 = new_session();
    s2.handle_shutdown();
    assert_eq!(s2.state, SessionState::Closed);
}

/// Scenario: notify batches are partitioned into player re-reads and
/// region identifications; a malformed player-data path is fatal.
#[test]
fn notify_batch_partitioning() {
    let mut s = new_session();
    let uuid = 0x069a79f444e94726a5befca90e38aaf5u128;
    s.handle_resolved("fenhl".to_string(), Some(uuid));
    let events = vec![
        FsEvent {
            modified: true,
            path: b"/srv/world/playerdata/069a79f4-44e9-4726-a5be-fca90e38aaf5.dat".to_vec(),
        },
        FsEvent { modified: true, path: b"/srv/world/region/r.0.0.mca".to_vec() },
        FsEvent { modified: false, path: b"/srv/world/playerdata/garbage".to_vec() },
    ];
    let acts = s.handle_notify_batch(events).expect("well-shaped paths");
    // the batch is drained in order; the non-modified event produces nothing
    assert_eq!(acts.len(), 2);
    assert!(matches!(&acts[0], SessionAction::ReadPlayer { .. }));
    assert!(matches!(&acts[1], SessionAction::IdentifyRegion { .. }));
    assert!(acts.iter().any(|a| matches!(a, SessionAction::ReadPlayer { uuid: u, .. } if *u == uuid)));
    assert!(acts.iter().any(|a| matches!(a, SessionAction::IdentifyRegion { .. })));

    // an unknown UUID under the player directory is dropped, not fatal
    let acts2 = s
        .handle_notify_batch(vec![FsEvent {
            modified: true,
            path: b"/srv/world/playerdata/00000000-0000-0000-0000-000000000001.dat".to_vec(),
        }])
        .expect("well-shaped path");
    assert!(acts2.is_empty());

    // a malformed shape under the player directory is fatal
    let err = s.handle_notify_batch(vec![FsEvent {
        modified: true,
        path: b"/srv/world/playerdata/not-a-uuid.dat".to_vec(),
    }]);
    assert!(matches!(err, Err(SessionError::MalformedPlayerDataPath(_))));
    assert_eq!(s.state, SessionState::Closed);
}

/// Scenario: notifications for a region nobody subscribed to are ignored.
#[test]
fn unsubscribed_region_notification_is_ignored() {
    let s = new_session();
    let region = RegionKey { dimension: Dimension::Nether, rx: 4, rz: -2 };
    assert!(s.handle_region_identified(&region).is_none());
}
