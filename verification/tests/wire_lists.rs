//! How a neighbor list is written and read.

use bincode::Options;
use hnsw::nodes::NeighborNodes;
use hnsw::wire::{ListReader, WireError};

fn options() -> impl Options {
    bincode::DefaultOptions::new()
        .with_little_endian()
        .with_fixint_encoding()
}

fn deserialize(bytes: &[u8]) -> Result<NeighborNodes<4>, WireError> {
    let wire: Vec<u64> = options().deserialize(bytes).expect("deserialize");
    NeighborNodes::from_wire(&wire)
}

#[test]
fn a_bare_usize_encodes_as_eight_bytes_on_every_target() {
    let one: usize = 1;
    let bytes = options().serialize(&one).expect("serialize");
    assert_eq!(
        bytes.len(),
        8,
        "bincode fixint must encode `usize` as eight bytes; got {bytes:?} on \
         a target with usize::BITS = {}",
        usize::BITS
    );
    assert_eq!(bytes, 1u64.to_le_bytes());
}

#[test]
fn a_neighbour_list_encodes_as_length_prefixed_u64s() {
    let nodes = NeighborNodes::<4> {
        neighbors: [!0, 7, !0, !0],
    };
    let bytes = options().serialize(&nodes.to_wire()).expect("serialize");

    let mut expected = Vec::new();
    expected.extend_from_slice(&4u64.to_le_bytes());
    expected.extend_from_slice(&u64::MAX.to_le_bytes());
    expected.extend_from_slice(&7u64.to_le_bytes());
    expected.extend_from_slice(&u64::MAX.to_le_bytes());
    expected.extend_from_slice(&u64::MAX.to_le_bytes());

    assert_eq!(
        bytes, expected,
        "neighbour lists must encode as a u64 length followed by u64 \
         elements, with `u64::MAX` for an empty slot, on every target"
    );
}

#[test]
fn the_wire_sentinel_decodes_to_this_targets_empty_marker() {
    let mut bytes = Vec::new();
    bytes.extend_from_slice(&4u64.to_le_bytes());
    bytes.extend_from_slice(&u64::MAX.to_le_bytes());
    bytes.extend_from_slice(&3u64.to_le_bytes());
    bytes.extend_from_slice(&u64::MAX.to_le_bytes());
    bytes.extend_from_slice(&u64::MAX.to_le_bytes());

    let nodes: NeighborNodes<4> = deserialize(&bytes).expect("deserialize");

    assert_eq!(nodes.neighbors[0], !0, "sentinel must decode to !0");
    assert_eq!(nodes.neighbors[1], 3, "real index must decode unchanged");
    assert_eq!(nodes.neighbors[2], !0);
    assert_eq!(nodes.neighbors[3], !0);
}

#[test]
fn a_legacy_32_bit_empty_slot_is_recovered_as_empty() {
    let mut bytes = Vec::new();
    bytes.extend_from_slice(&4u64.to_le_bytes());
    bytes.extend_from_slice(&2u64.to_le_bytes());
    bytes.extend_from_slice(&(u32::MAX as u64).to_le_bytes());
    bytes.extend_from_slice(&(u32::MAX as u64).to_le_bytes());
    bytes.extend_from_slice(&(u32::MAX as u64).to_le_bytes());

    let nodes: NeighborNodes<4> = deserialize(&bytes).expect("deserialize");

    assert_eq!(nodes.neighbors[0], 2, "a real index must survive");
    assert_eq!(
        nodes.neighbors[1], !0,
        "a legacy 32-bit sentinel must be recovered as empty, not imported \
         as neighbour index 4294967295"
    );
    assert_eq!(nodes.neighbors[2], !0);
    assert_eq!(nodes.neighbors[3], !0);
}

#[test]
fn an_out_of_range_neighbour_index_is_reported() {
    let mut bytes = Vec::new();
    bytes.extend_from_slice(&4u64.to_le_bytes());
    bytes.extend_from_slice(&(u64::MAX - 1).to_le_bytes());
    bytes.extend_from_slice(&u64::MAX.to_le_bytes());
    bytes.extend_from_slice(&u64::MAX.to_le_bytes());
    bytes.extend_from_slice(&u64::MAX.to_le_bytes());

    let decoded: Result<NeighborNodes<4>, _> = deserialize(&bytes);

    if usize::BITS >= 64 {
        let nodes = decoded.expect("a 64-bit target can hold this index");
        assert_eq!(nodes.neighbors[0], (u64::MAX - 1) as usize);
    } else {
        assert!(
            decoded.is_err(),
            "a neighbour index that does not fit this target's usize must be \
             an error, not a silently truncated index"
        );
    }
}

#[test]
fn a_list_of_the_wrong_length_is_refused() {
    assert_eq!(
        NeighborNodes::<3>::from_wire(&[1, 2]),
        Err(WireError::TooFew { found: 2 })
    );
    assert_eq!(
        NeighborNodes::<3>::from_wire(&[1, 2, 3, 4]),
        Err(WireError::TooMany)
    );
    assert_eq!(
        NeighborNodes::<0>::from_wire(&[u64::MAX]),
        Err(WireError::TooMany)
    );
    assert_eq!(
        NeighborNodes::<3>::from_wire(&[1, 2, u64::MAX]),
        Ok(NeighborNodes {
            neighbors: [1, 2, !0]
        })
    );
}

#[test]
fn a_written_list_is_read_back() {
    let list = NeighborNodes::<5> {
        neighbors: [9, 0, 4_294_967_294, !0, !0],
    };
    assert_eq!(list.to_wire(), [9, 0, 4_294_967_294, u64::MAX, u64::MAX]);
    assert_eq!(NeighborNodes::from_wire(&list.to_wire()), Ok(list));
}

#[test]
fn a_list_is_read_element_by_element() {
    let mut reader = ListReader::<2>::new();
    assert_eq!(reader.read(5), Ok(()));
    assert_eq!(reader.read(u64::MAX), Ok(()));
    assert_eq!(reader.read(6), Err(WireError::TooMany));
    assert_eq!(reader.finish().unwrap().neighbors, [5, !0]);

    let mut reader = ListReader::<2>::new();
    assert_eq!(reader.read(5), Ok(()));
    assert!(matches!(reader.finish(), Err(WireError::TooFew { found: 1 })));
}
