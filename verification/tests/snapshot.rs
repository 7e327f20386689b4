//! Snapshots: claims, scans and the catalogue that they show.

use blop_db::database::snapshot::{
    check_live, visible_versions, Endpoint, Registry, Scan, Step, VersionKey,
};
use blop_db::database::Error;

#[test]
fn snapshots_hold_the_floor_until_they_are_revoked() {
    let mut registry = Registry::new();
    assert_eq!(registry.snapshot_floor(9), 9);
    let first = registry.capture(4);
    let second = registry.capture(7);
    assert_ne!(first, second);
    assert_eq!(registry.snapshot_floor(9), 4);
    assert!(!registry.is_revoked(first));
    assert!(registry.revoke(first));
    assert!(registry.is_revoked(first));
    assert!(!registry.is_revoked(second));
    assert_eq!(registry.snapshot_floor(9), 7);
    // Only the first call releases the view.
    assert!(!registry.revoke(first));
    let third = registry.capture(2);
    assert!(third != first && third != second);
    registry.revoke_all();
    assert!(registry.is_revoked(second) && registry.is_revoked(third));
    assert_eq!(registry.snapshot_floor(9), 9);
}

/// The keys between two ends, as a scan over `rows` gives them.
fn scanned(rows: &[&[u8]], lower: Endpoint, upper: Endpoint) -> Result<Vec<Vec<u8>>, Error> {
    let mut scan = Scan::start(lower, upper)?;
    let mut found: Vec<Vec<u8>> = vec![];
    loop {
        match scan.next(false) {
            Step::Revoked => return Err(Error::SnapshotRevoked),
            Step::Ended => return Ok(found),
            Step::Read => {
                let next = rows.iter().find(|row| {
                    let above = match &scan.lower {
                        Endpoint::Unbounded => true,
                        Endpoint::Included(key) => ***row >= key[..],
                        Endpoint::Excluded(key) => ***row > key[..],
                    };
                    let below = match &scan.upper {
                        Endpoint::Unbounded => true,
                        Endpoint::Included(key) => ***row <= key[..],
                        Endpoint::Excluded(key) => ***row < key[..],
                    };
                    above && below
                });
                match next {
                    Some(row) => {
                        found.push(row.to_vec());
                        scan.read(row.to_vec());
                    }
                    None => scan.end(),
                }
            }
        }
    }
}

#[test]
fn scans_give_each_row_of_their_range_once() {
    let rows: [&[u8]; 4] = [&[1], &[1, 0], &[2], &[3]];
    let included = |byte: u8| Endpoint::Included(vec![byte]);
    let excluded = |byte: u8| Endpoint::Excluded(vec![byte]);
    let count = |lower, upper| scanned(&rows, lower, upper).unwrap().len();
    assert_eq!(count(Endpoint::Unbounded, Endpoint::Unbounded), 4);
    assert_eq!(count(included(1), included(3)), 4);
    assert_eq!(count(excluded(1), excluded(3)), 2);
    assert_eq!(count(included(2), Endpoint::Unbounded), 2);
    assert_eq!(count(included(2), included(2)), 1);
    assert_eq!(count(included(2), excluded(2)), 0);
    assert_eq!(count(excluded(2), included(2)), 0);
    assert_eq!(
        scanned(&rows, included(3), included(2)),
        Err(Error::InvalidInput("reversed scan endpoints"))
    );
    let prefix = Endpoint::Excluded(vec![1, 0]);
    assert_eq!(
        scanned(&rows, prefix, included(1)),
        Err(Error::InvalidInput("reversed scan endpoints"))
    );
}

#[test]
fn revoked_scans_say_so_even_after_their_end() {
    let mut scan = Scan::start(Endpoint::Unbounded, Endpoint::Unbounded).unwrap();
    assert_eq!(scan.next(true), Step::Revoked);
    scan.end();
    assert_eq!(scan.next(false), Step::Ended);
    assert_eq!(scan.next(true), Step::Revoked);
}

#[test]
fn snapshots_show_one_version_of_each_table() {
    let keys: Vec<VersionKey> = [(1, 9), (1, 5), (1, 2), (2, 8), (3, 4), (3, 1)]
        .into_iter()
        .map(|(table, sequence)| VersionKey { table, sequence })
        .collect();
    assert_eq!(visible_versions(&keys, 9), vec![0, 3, 4]);
    assert_eq!(visible_versions(&keys, 6), vec![1, 4]);
    assert_eq!(visible_versions(&keys, 1), vec![5]);
    assert_eq!(visible_versions(&keys, 0), vec![]);
}

#[test]
fn only_live_tables_are_read() {
    assert_eq!(check_live(Some(true)), Ok(()));
    for live in [Some(false), None] {
        assert_eq!(
            check_live(live),
            Err(Error::InvalidInput(
                "table is unknown or dropped at snapshot sequence"
            ))
        );
    }
}
