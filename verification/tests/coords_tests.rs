use chunked_cells::coords::{
    index_to_chunk_index, index_to_chunk_offset, index_to_pos_ex, pos, pos_to_index_ex, wrap,
    wrap_pos, Pos,
};
use chunked_cells::grid::Chunk;

#[test]
fn wrap_identity_inside_domain() {
    for s in [1i32, 3, 7, 32] {
        for p in 0..s {
            assert_eq!(wrap(p, s), p);
        }
    }
}

#[test]
fn wrap_positive_edge() {
    // a +1 offset at coordinate S-1 resolves to 0, on any axis
    for s in [2i32, 3, 5, 96] {
        assert_eq!(wrap((s - 1) + 1, s), 0);
    }
}

#[test]
fn wrap_negative_edge() {
    // a -1 offset at coordinate 0 resolves to S-1
    for s in [2i32, 3, 5, 96] {
        assert_eq!(wrap(0 - 1, s), s - 1);
    }
}

#[test]
fn wrap_far_values() {
    assert_eq!(wrap(17, 5), 2);
    assert_eq!(wrap(-1, 5), 4);
    assert_eq!(wrap(-11, 5), 4);
    assert_eq!(wrap(-2147483648, 3), 1);
    assert_eq!(wrap(2147483647, 3), 1);
}

#[test]
fn wrap_pos_componentwise() {
    let w = wrap_pos(pos(-1, 3, 7), 3);
    assert_eq!((w.x, w.y, w.z), (2, 0, 1));
}

#[test]
fn pos_index_roundtrip_small_grid() {
    // radius 2, chunk edge 3: domain edge 6
    for x in 0..6i32 {
        for y in 0..6i32 {
            for z in 0..6i32 {
                let p = Pos { x, y, z };
                let i = pos_to_index_ex(p, 2, 3);
                assert!(i < 216);
                let q = index_to_pos_ex(i, 2, 3);
                assert_eq!((q.x, q.y, q.z), (x, y, z));
            }
        }
    }
}

#[test]
fn index_pos_roundtrip_all_indices() {
    for i in 0..216usize {
        let p = index_to_pos_ex(i, 2, 3);
        assert_eq!(pos_to_index_ex(p, 2, 3), i);
    }
}

#[test]
fn chunk_split_of_flat_index() {
    // chunk edge 3: 27 cells per chunk
    assert_eq!(index_to_chunk_index(0, 3), 0);
    assert_eq!(index_to_chunk_offset(0, 3), 0);
    assert_eq!(index_to_chunk_index(27, 3), 1);
    assert_eq!(index_to_chunk_offset(27, 3), 0);
    assert_eq!(index_to_chunk_index(55, 3), 2);
    assert_eq!(index_to_chunk_offset(55, 3), 1);
}

#[test]
fn border_positions_of_a_chunk() {
    // edge 4, border radius 1: interior is the 2x2x2 core
    let mut interior = 0;
    for x in 0..4i32 {
        for y in 0..4i32 {
            for z in 0..4i32 {
                let b = Chunk::is_border_pos(Pos { x, y, z }, 1, 4);
                let core =
                    (1..3).contains(&x) && (1..3).contains(&y) && (1..3).contains(&z);
                assert_eq!(b, !core);
                if !b {
                    interior += 1;
                }
            }
        }
    }
    assert_eq!(interior, 8);
}

#[test]
fn chunk_edge_three_has_one_interior_cell() {
    for x in 0..3i32 {
        for y in 0..3i32 {
            for z in 0..3i32 {
                let border = Chunk::is_border_pos(Pos { x, y, z }, 1, 3);
                assert_eq!(border, (x, y, z) != (1, 1, 1));
            }
        }
    }
}

#[test]
fn chunk_local_roundtrip() {
    for o in 0..64usize {
        let p = Chunk::index_to_pos(o, 4);
        assert_eq!(Chunk::pos_to_index(p, 4), o);
    }
}
