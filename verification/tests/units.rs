//! Region math, path parsing, error folding, and the small public helpers.

use uuid::Uuid;
use worldsync::errors::{from_notify_errors, SessionError};
use worldsync::keys::{chunk_coord, region_coord, ChunkKey, Dimension};
use worldsync::lang::{join, join_opt};
use worldsync::paths::{parse_player_filename, strip_prefix};
use worldsync::world::World;

/// Floored division and Euclidean remainder over a range that includes
/// negative chunk coordinates.
#[test]
fn region_coordinates_cover_negatives() {
    let cases: &[(i32, i32, u8)] = &[
        (0, 0, 0),
        (31, 0, 31),
        (32, 1, 0),
        (33, 1, 1),
        (-1, -1, 31),
        (-32, -1, 0),
        (-33, -2, 31),
        (i32::MAX, i32::MAX / 32, (i32::MAX % 32) as u8),
        (i32::MIN, -67108864, 0),
    ];
    for &(c, rx, rel) in cases {
        assert_eq!(region_coord(c), (rx, rel), "coordinate {c}");
    }
    for c in -1000..1000 {
        let (rx, rel) = region_coord(c);
        assert!(rel < 32);
        assert_eq!(rx * 32 + rel as i32, c);
        assert_eq!(chunk_coord(rx, rel), c);
    }
}

#[test]
fn chunk_key_decomposition() {
    let key = ChunkKey { dimension: Dimension::End, cx: -47, cy: 3, cz: 95 };
    let region = key.region_key();
    let pos = key.rel_pos();
    assert_eq!(region.dimension, Dimension::End);
    assert_eq!((region.rx, region.rz), (-2, 2));
    assert_eq!((pos.rel_x, pos.cy, pos.rel_z), (17, 3, 31));
}

/// The hand-rolled UUID filename parser agrees with the uuid crate.
#[test]
fn player_filename_parses_like_uuid_crate() {
    let names = [
        "069a79f4-44e9-4726-a5be-fca90e38aaf5",
        "00000000-0000-0000-0000-000000000000",
        "ffffffff-ffff-ffff-ffff-ffffffffffff",
        "DEADBEEF-0123-4567-89ab-cdefABCDEF01",
    ];
    for name in names {
        let file = format!("{name}.dat").into_bytes();
        let parsed = parse_player_filename(&file).expect("well-formed name");
        assert_eq!(parsed, Uuid::parse_str(name).unwrap().as_u128());
    }
}

#[test]
fn player_filename_rejects_other_shapes() {
    let bad: &[&[u8]] = &[
        b"",
        b"069a79f4-44e9-4726-a5be-fca90e38aaf5",     // no extension
        b"069a79f4-44e9-4726-a5be-fca90e38aaf5.",    // empty extension
        b"069a79f444e94726a5befca90e38aaf5.dat",     // not hyphenated
        b"069a79f4-44e9-4726-a5be-fca90e38aagz.dat", // not hexadecimal
        b"069a79f4-44e9-4726/a5be-fca90e38aaf5.dat", // path separator
        b"not-a-uuid.dat",
    ];
    for name in bad {
        assert!(parse_player_filename(&name.to_vec()).is_none());
    }
}

#[test]
fn prefix_stripping() {
    let path = b"/srv/pd/a.dat".to_vec();
    assert_eq!(strip_prefix(&path, &b"/srv/pd/".to_vec()), Some(b"a.dat".to_vec()));
    assert_eq!(strip_prefix(&path, &b"/other/".to_vec()), None);
    assert_eq!(strip_prefix(&path, &Vec::new()), Some(path.clone()));
}

#[test]
fn notify_error_folding() {
    assert!(matches!(from_notify_errors(Vec::new()), SessionError::NotifyEmptyErrorList));
    let folded = from_notify_errors(vec!["first".to_string(), "second".to_string()]);
    assert!(matches!(folded, SessionError::Notify(s) if s == "first"));
}

#[test]
fn join_phrases() {
    assert_eq!(join_opt(Vec::new()), None);
    assert_eq!(join_opt(vec!["Fenhl".to_string()]).unwrap(), "Fenhl");
    assert_eq!(
        join(vec!["Fenhl".to_string(), "Ruth".to_string()]),
        "Fenhl and Ruth"
    );
    assert_eq!(
        join(vec!["a".to_string(), "b".to_string(), "c".to_string(), "d".to_string()]),
        "a, b, c, and d"
    );
}

#[test]
fn world_directories() {
    let world = World::new("usc".to_string());
    assert_eq!(world.dir(), "/opt/wurstmineberg/world/usc");
    assert_eq!(World::default().dir(), "/opt/wurstmineberg/world/wurstmineberg");
}
