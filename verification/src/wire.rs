//! The wire messages of the chunk-streaming protocol, and the encoding of
//! version-agnostic frames into the two coexisting wire formats.
//!
//! The session logic never mentions a protocol version: it produces `Frame`
//! values, and the negotiated version picks one of the two encoders below,
//! once, at the session boundary.

use vstd::prelude::*;
use crate::block::{BlockEntity, BlockState, ChunkSection};
use crate::codec::{encode_chunk_v3, encode_chunk_v4, v4_payload_ok};
use crate::keys::{ChunkKey, Dimension};

verus! {

/// Messages a client sends to the server.
#[derive(Debug)]
pub enum ClientMessage {
    /// Reply to the server's keepalive ping; a no-op on the server side.
    Pong,
    /// Request the current state of one chunk section, plus updates
    /// whenever it changes on disk.
    SubscribeToChunk { dimension: Dimension, cx: i32, cy: i8, cz: i32 },
    /// The same, for a batch of chunk sections.
    SubscribeToChunks(Vec<(Dimension, i32, i8, i32)>),
    /// Request the block entities of one chunk column, plus updates.
    SubscribeToBlockEntities { dimension: Dimension, cx: i32, cz: i32 },
    /// Request one player's data, plus updates; the reference is resolved
    /// to a UUID by the identity collaborator.
    SubscribeToInventory { player: String },
}

/// Messages the server sends to a version-3 client.
#[derive(Debug)]
pub enum ServerMessageV3 {
    /// Sent every 30 seconds; a client that hears nothing for 60 seconds
    /// may consider the connection failed.
    Ping,
    Error { debug: String, display: String },
    /// A dense, fully copied 16x16x16 grid in y (outer) -> z -> x (inner)
    /// order, or nothing for an absent section.
    ChunkData { dimension: Dimension, cx: i32, cy: i8, cz: i32, data: Option<Vec<BlockState>> },
    BlockEntities { dimension: Dimension, cx: i32, cz: i32, data: Vec<BlockEntity> },
    PlayerData { id: String, uuid: u128, data: Option<Vec<u8>> },
}

/// Messages the server sends to a version-4 client.
#[derive(Debug)]
pub enum ServerMessageV4 {
    /// Sent every 30 seconds; a client that hears nothing for 60 seconds
    /// may consider the connection failed.
    Ping,
    Error { debug: String, display: String },
    /// A palette of distinct block states and a packed stream of palette
    /// indices, each `palette.len().next_power_of_two().ilog2()` bits.
    ChunkData {
        dimension: Dimension,
        cx: i32,
        cy: i8,
        cz: i32,
        palette: Vec<BlockState>,
        data: Vec<u8>,
    },
    BlockEntities { dimension: Dimension, cx: i32, cz: i32, data: Vec<BlockEntity> },
    PlayerData { id: String, uuid: u128, data: Option<Vec<u8>> },
}

/// A version-agnostic outbound frame, as the session logic produces it.
#[derive(Debug)]
pub enum Frame {
    Ping,
    Error { debug: String, display: String },
    ChunkData { key: ChunkKey, section: Option<ChunkSection> },
    BlockEntities { dimension: Dimension, cx: i32, cz: i32, data: Vec<BlockEntity> },
    PlayerData { id: String, uuid: u128, data: Option<Vec<u8>> },
}

impl Frame {
    /// Frames whose chunk payload is well formed; all other variants are
    /// unconditionally encodable.
    pub open spec fn wf(self) -> bool {
        match self {
            Frame::ChunkData { key, section } => match section {
                Option::Some(s) => s.wf(),
                Option::None => true,
            },
            _ => true,
        }
    }
}

/// Encodes one frame for a version-3 client.
pub fn encode_frame_v3(f: Frame) -> (m: ServerMessageV3)
    requires
        f.wf(),
    ensures
        match f {
            Frame::Ping => m is Ping,
            Frame::Error { debug, display } => m matches ServerMessageV3::Error {
                debug: d,
                display: s,
            } && d == debug && s == display,
            Frame::ChunkData { key, section } => m matches ServerMessageV3::ChunkData {
                dimension,
                cx,
                cy,
                cz,
                data,
            } && dimension == key.dimension && cx == key.cx && cy == key.cy && cz == key.cz
                && (match section {
                Option::None => data is None,
                Option::Some(s) => data matches Some(d) && d@ =~= s.blocks@,
            }),
            Frame::BlockEntities { dimension, cx, cz, data } => m
                matches ServerMessageV3::BlockEntities { dimension: d, cx: x, cz: z, data: b }
                && d == dimension && x == cx && z == cz && b == data,
            Frame::PlayerData { id, uuid, data } => m matches ServerMessageV3::PlayerData {
                id: i,
                uuid: u,
                data: b,
            } && i == id && u == uuid && b == data,
        },
{
    match f {
        Frame::Ping => ServerMessageV3::Ping,
        Frame::Error { debug, display } => ServerMessageV3::Error { debug, display },
        Frame::ChunkData { key, section } => {
            let data = encode_chunk_v3(section.as_ref());
            ServerMessageV3::ChunkData {
                dimension: key.dimension,
                cx: key.cx,
                cy: key.cy,
                cz: key.cz,
                data,
            }
        },
        Frame::BlockEntities { dimension, cx, cz, data } => ServerMessageV3::BlockEntities {
            dimension,
            cx,
            cz,
            data,
        },
        Frame::PlayerData { id, uuid, data } => ServerMessageV3::PlayerData { id, uuid, data },
    }
}

/// Encodes one frame for a version-4 client.
pub fn encode_frame_v4(f: Frame) -> (m: ServerMessageV4)
    requires
        f.wf(),
    ensures
        match f {
            Frame::Ping => m is Ping,
            Frame::Error { debug, display } => m matches ServerMessageV4::Error {
                debug: d,
                display: s,
            } && d == debug && s == display,
            Frame::ChunkData { key, section } => m matches ServerMessageV4::ChunkData {
                dimension,
                cx,
                cy,
                cz,
                palette,
                data,
            } && dimension == key.dimension && cx == key.cx && cy == key.cy && cz == key.cz
                && v4_payload_ok(
                match section {
                    Option::None => Option::None,
                    Option::Some(s) => Option::Some(s.blocks@),
                },
                palette@,
                data@,
            ),
            Frame::BlockEntities { dimension, cx, cz, data } => m
                matches ServerMessageV4::BlockEntities { dimension: d, cx: x, cz: z, data: b }
                && d == dimension && x == cx && z == cz && b == data,
            Frame::PlayerData { id, uuid, data } => m matches ServerMessageV4::PlayerData {
                id: i,
                uuid: u,
                data: b,
            } && i == id && u == uuid && b == data,
        },
{
    match f {
        Frame::Ping => ServerMessageV4::Ping,
        Frame::Error { debug, display } => ServerMessageV4::Error { debug, display },
        Frame::ChunkData { key, section } => {
            let (palette, data) = encode_chunk_v4(section.as_ref());
            ServerMessageV4::ChunkData {
                dimension: key.dimension,
                cx: key.cx,
                cy: key.cy,
                cz: key.cz,
                palette,
                data,
            }
        },
        Frame::BlockEntities { dimension, cx, cz, data } => ServerMessageV4::BlockEntities {
            dimension,
            cx,
            cz,
            data,
        },
        Frame::PlayerData { id, uuid, data } => ServerMessageV4::PlayerData { id, uuid, data },
    }
}

} // verus!
