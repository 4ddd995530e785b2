use flatbush::bytes::push_le;
use flatbush::{buffers_match, check_buffer_equality};
use flatbush::coord::coord_le;
use flatbush::hilbert::hilbert;
use flatbush::indices::{IndexError, MutableIndices};
use flatbush::sort::stable_order;
use flatbush::{compute_layout, FlatbushBuilder, LayoutError, OwnedFlatbush, Rect};

fn rect(min_x: f64, min_y: f64, max_x: f64, max_y: f64) -> Rect {
    Rect::new(min_x.to_bits(), min_y.to_bits(), max_x.to_bits(), max_y.to_bits())
}

fn coords(r: &Rect) -> [f64; 4] {
    [
        f64::from_bits(r.min_x),
        f64::from_bits(r.min_y),
        f64::from_bits(r.max_x),
        f64::from_bits(r.max_y),
    ]
}

fn overlaps(a: &[f64; 4], q: &[f64; 4]) -> bool {
    a[0] <= q[2] && a[2] >= q[0] && a[1] <= q[3] && a[3] >= q[1]
}

/// Hilbert keys of the box centres, scaled to the grid over the extent.
fn centre_keys(boxes: &[[f64; 4]]) -> Vec<u32> {
    let mut ext = [f64::INFINITY, f64::INFINITY, f64::NEG_INFINITY, f64::NEG_INFINITY];
    for b in boxes {
        ext[0] = ext[0].min(b[0]);
        ext[1] = ext[1].min(b[1]);
        ext[2] = ext[2].max(b[2]);
        ext[3] = ext[3].max(b[3]);
    }
    let w = ext[2] - ext[0];
    let h = ext[3] - ext[1];
    boxes
        .iter()
        .map(|b| {
            let cx = if w > 0.0 { 65535.0 * ((b[0] + b[2]) / 2.0 - ext[0]) / w } else { 0.0 };
            let cy = if h > 0.0 { 65535.0 * ((b[1] + b[3]) / 2.0 - ext[1]) / h } else { 0.0 };
            hilbert(cx.clamp(0.0, 65535.0) as u32, cy.clamp(0.0, 65535.0) as u32)
        })
        .collect()
}

fn build(boxes: &[[f64; 4]], node_size: usize) -> OwnedFlatbush {
    let mut builder = FlatbushBuilder::new_with_node_size(boxes.len(), node_size);
    for (i, b) in boxes.iter().enumerate() {
        let r = rect(b[0], b[1], b[2], b[3]);
        assert_eq!(builder.add(r.min_x, r.min_y, r.max_x, r.max_y), i);
    }
    builder.finish(&centre_keys(boxes))
}

fn grid_boxes(n: usize) -> Vec<[f64; 4]> {
    (0..n)
        .map(|i| {
            let x = ((i * 37) % 101) as f64;
            let y = ((i * 59) % 97) as f64 - 40.0;
            [x, y, x + (i % 7) as f64 * 0.5, y + (i % 5) as f64]
        })
        .collect()
}

fn sorted(mut v: Vec<usize>) -> Vec<usize> {
    v.sort();
    v
}

#[test]
fn concrete_scenario() {
    let boxes = [[0.0, 0.0, 1.0, 1.0], [5.0, 5.0, 6.0, 6.0], [2.0, 2.0, 3.0, 3.0]];
    let index = build(&boxes, 16);
    assert_eq!(sorted(index.search(&rect(0.0, 0.0, 3.0, 3.0))), vec![0, 2]);
    assert_eq!(sorted(index.search(&rect(-1.0, -1.0, 10.0, 10.0))), vec![0, 1, 2]);
    assert_eq!(index.search(&rect(20.0, 20.0, 30.0, 30.0)), Vec::<usize>::new());
}

#[test]
fn header_scenario() {
    let boxes = grid_boxes(1000);
    let buf = build(&boxes, 16).into_inner();
    assert_eq!(buf[0..8].to_vec(), vec![0xfb, 0x38, 0x10, 0x00, 0xE8, 0x03, 0x00, 0x00]);
    assert_eq!(buf.len(), 8 + 1068 * 32 + 1068 * 2);
}

#[test]
fn search_matches_brute_force() {
    let boxes = grid_boxes(500);
    let index = build(&boxes, 8);
    let queries = [
        [0.0, 0.0, 10.0, 10.0],
        [50.0, -40.0, 51.0, 60.0],
        [-5.0, -5.0, 0.0, 0.0],
        [90.0, 50.0, 200.0, 200.0],
        [33.3, 12.1, 33.4, 12.2],
    ];
    for q in queries.iter() {
        let found = index.search(&rect(q[0], q[1], q[2], q[3]));
        let mut seen = vec![false; boxes.len()];
        for &id in found.iter() {
            assert!(overlaps(&boxes[id], q));
            assert!(!seen[id]);
            seen[id] = true;
        }
        for (id, b) in boxes.iter().enumerate() {
            assert_eq!(seen[id], overlaps(b, q));
        }
    }
}

#[test]
fn full_extent_round_trip() {
    for &(n, ns) in [(0usize, 16usize), (1, 16), (16, 16), (17, 16), (300, 4), (1000, 2)].iter() {
        let boxes = grid_boxes(n);
        let index = build(&boxes, ns);
        let all = sorted(index.search(&rect(-1e9, -1e9, 1e9, 1e9)));
        assert_eq!(all, (0..n).collect::<Vec<usize>>());
    }
}

#[test]
fn empty_index_finds_nothing() {
    let index = build(&[], 16);
    assert_eq!(index.search(&rect(f64::NEG_INFINITY, f64::NEG_INFINITY, f64::INFINITY, f64::INFINITY)).len(), 0);
    let buf = index.into_inner();
    assert_eq!(buf.len(), 8 + 32 + 2);
}

#[test]
fn small_input_keeps_insertion_order() {
    let boxes = [[4.0, 1.0, 5.0, 2.0], [-3.0, 0.5, 0.0, 9.0], [1.0, -2.0, 1.5, 0.0]];
    let mut builder = FlatbushBuilder::new(3);
    for b in boxes.iter() {
        let r = rect(b[0], b[1], b[2], b[3]);
        builder.add(r.min_x, r.min_y, r.max_x, r.max_y);
    }
    // keys that would reverse the order are ignored at this size
    let buf = builder.finish(&vec![9, 5, 1]).into_inner();
    let read_f64 = |at: usize| {
        let mut b = [0u8; 8];
        b.copy_from_slice(&buf[at..at + 8]);
        f64::from_le_bytes(b)
    };
    for (i, b) in boxes.iter().enumerate() {
        for k in 0..4 {
            assert_eq!(read_f64(8 + i * 32 + k * 8), b[k]);
        }
    }
    let root: Vec<f64> = (0..4).map(|k| read_f64(8 + 3 * 32 + k * 8)).collect();
    assert_eq!(root, vec![-3.0, -2.0, 5.0, 9.0]);
    let ids_at = 8 + 4 * 32;
    assert_eq!(buf[ids_at..].to_vec(), vec![0, 0, 1, 0, 2, 0, 0, 0]);
}

#[test]
fn sorted_leaves_follow_keys() {
    let boxes = grid_boxes(40);
    let mut builder = FlatbushBuilder::new_with_node_size(40, 4);
    for b in boxes.iter() {
        let r = rect(b[0], b[1], b[2], b[3]);
        builder.add(r.min_x, r.min_y, r.max_x, r.max_y);
    }
    let keys: Vec<u32> = (0..40u32).map(|i| 40 - i).collect();
    let index = builder.finish(&keys);
    assert_eq!(sorted(index.search(&rect(-1e9, -1e9, 1e9, 1e9))), (0..40).collect::<Vec<usize>>());
    let buf = index.into_inner();
    let layout = compute_layout(40, 4).unwrap();
    let ids_at = 8 + layout.num_nodes * 32;
    let first = u16::from_le_bytes([buf[ids_at], buf[ids_at + 1]]);
    assert_eq!(first, 39);
}

#[test]
fn index_width_boundary() {
    let below = compute_layout(15358, 16).unwrap();
    let above = compute_layout(15359, 16).unwrap();
    assert_eq!(below.num_nodes, 16383);
    assert_eq!(above.num_nodes, 16384);
    let small = build(&grid_boxes(15358), 16);
    let large = build(&grid_boxes(15359), 16);
    let q = rect(10.0, 10.0, 20.0, 20.0);
    let s1 = sorted(small.search(&q));
    let s2 = sorted(large.search(&q));
    assert!(!s1.is_empty());
    assert_eq!(s1, s2.iter().cloned().filter(|&i| i < 15358).collect::<Vec<usize>>());
    assert_eq!(small.into_inner().len(), 8 + 16383 * 32 + 16383 * 2);
    assert_eq!(large.into_inner().len(), 8 + 16384 * 32 + 16384 * 4);
}

#[test]
fn layout_is_deterministic() {
    let a = compute_layout(1000, 16).unwrap();
    let b = compute_layout(1000, 16).unwrap();
    assert_eq!(a.num_nodes, 1068);
    assert_eq!(a.level_bounds, vec![4000, 4252, 4268, 4272]);
    assert_eq!(a.num_nodes, b.num_nodes);
    assert_eq!(a.level_bounds, b.level_bounds);
    let c = compute_layout(0, 16).unwrap();
    assert_eq!((c.num_nodes, c.level_bounds), (1, vec![0, 4]));
    let d = compute_layout(1, 16).unwrap();
    assert_eq!((d.num_nodes, d.level_bounds), (2, vec![4, 8]));
}

#[test]
fn layout_errors() {
    assert_eq!(compute_layout(10, 1).err(), Some(LayoutError::NodeSizeOutOfRange));
    assert_eq!(compute_layout(10, 65536).err(), Some(LayoutError::NodeSizeOutOfRange));
    assert!(compute_layout(10, 65535).is_ok());
    assert!(compute_layout(10, 2).is_ok());
    assert_eq!(compute_layout(4294967296, 16).err(), Some(LayoutError::TooManyItems));
    assert_eq!(compute_layout(4294967295, 2).err(), Some(LayoutError::EncodingOverflow));
}

#[test]
fn hilbert_distances() {
    assert_eq!(hilbert(0, 0), 0);
    assert_eq!(hilbert(1, 0), 1);
    assert_eq!(hilbert(1, 1), 2);
    assert_eq!(hilbert(0, 1), 3);
    assert_eq!(hilbert(32768, 32768), 2147483648);
    assert_eq!(hilbert(0, 65535), 1431655765);
    assert_eq!(hilbert(65535, 65535), 2863311530);
    assert_eq!(hilbert(65535, 0), 4294967295);
    assert_eq!(hilbert(12345, 54321), 1555040834);
}

#[test]
fn stable_order_keeps_ties() {
    assert_eq!(stable_order(&vec![3, 1, 3, 0]), vec![3, 1, 0, 2]);
    assert_eq!(stable_order(&vec![]), Vec::<usize>::new());
    assert_eq!(stable_order(&vec![7, 7, 7]), vec![0, 1, 2]);
}

#[test]
fn index_store_widths() {
    let mut narrow = MutableIndices::new(3);
    assert!(!narrow.is_wide());
    assert_eq!(narrow.get(1), 0);
    assert_eq!(narrow.set(1, 65535), Ok(()));
    assert_eq!(narrow.get(1), 65535);
    assert_eq!(narrow.set(2, 65536), Err(IndexError::ValueOutOfRange));
    assert_eq!(narrow.get(2), 0);
    let mut wide = MutableIndices::new(16384);
    assert!(wide.is_wide());
    assert_eq!(wide.set(16383, 65536), Ok(()));
    assert_eq!(wide.get(16383), 65536);
    let mut out = Vec::new();
    narrow.write_le(&mut out);
    assert_eq!(out, vec![0, 0, 0xff, 0xff, 0, 0]);
}

#[test]
fn little_endian_bytes() {
    let mut out = vec![9u8];
    push_le(&mut out, 0x0102_0304, 4);
    assert_eq!(out, vec![9, 4, 3, 2, 1]);
    let mut bits = Vec::new();
    push_le(&mut bits, (-2.5f64).to_bits(), 8);
    assert_eq!(bits, (-2.5f64).to_le_bytes().to_vec());
}

#[test]
fn coordinate_order() {
    assert!(coord_le((-3.0f64).to_bits(), (-1.0f64).to_bits()));
    assert!(!coord_le((1.0f64).to_bits(), (-1.0f64).to_bits()));
    assert!(coord_le((-0.0f64).to_bits(), (0.0f64).to_bits()));
    assert!(coord_le((0.0f64).to_bits(), (-0.0f64).to_bits()));
    assert!(coord_le(f64::NEG_INFINITY.to_bits(), f64::MIN.to_bits()));
    assert!(coord_le(f64::MAX.to_bits(), f64::INFINITY.to_bits()));
    let a = rect(0.0, 0.0, 1.0, 1.0);
    assert!(a.intersects(&rect(1.0, 1.0, 2.0, 2.0)));
    assert!(!a.intersects(&rect(1.5, 0.0, 2.0, 1.0)));
    assert_eq!(coords(&a.union(&rect(-1.0, 0.5, 0.5, 3.0))), [-1.0, 0.0, 1.0, 3.0]);
}

#[test]
fn buffer_headers_compared() {
    let a = build(&grid_boxes(50), 16).into_inner();
    let b = build(&grid_boxes(50), 16).into_inner();
    assert!(buffers_match(&a, &b));
    assert!(check_buffer_equality(&a, &b));
    let c = build(&grid_boxes(51), 16).into_inner();
    assert!(!buffers_match(&a, &c));
    let mut d = a.clone();
    d[3] = 1;
    assert!(!buffers_match(&a, &d));
    let mut e = a.clone();
    e[20] ^= 0xff;
    assert!(buffers_match(&a, &e));
    assert!(check_buffer_equality(&a, &e));
    assert!(!buffers_match(&vec![0u8; 8], &vec![0u8; 9]));
    assert!(!buffers_match(
        &vec![0xfb, 0x38, 0x10, 0, 3, 0, 0, 0],
        &vec![0xfb, 0x38, 0x10, 0, 4, 0, 0, 0]
    ));
}

#[test]
fn buffer_length_follows_node_count() {
    assert_eq!(build(&grid_boxes(1000), 16).into_inner().len(), 36320);
    assert_eq!(build(&grid_boxes(15358), 16).into_inner().len(), 557030);
    assert_eq!(build(&grid_boxes(15359), 16).into_inner().len(), 589832);
}

#[test]
fn builder_tracks_extent() {
    let mut builder = FlatbushBuilder::new(2);
    assert_eq!(coords(&builder.current_extent()), [f64::INFINITY, f64::INFINITY, f64::NEG_INFINITY, f64::NEG_INFINITY]);
    let a = rect(1.0, -2.0, 3.0, 4.0);
    builder.add(a.min_x, a.min_y, a.max_x, a.max_y);
    let b = rect(-5.0, 0.0, 2.0, 8.0);
    builder.add(b.min_x, b.min_y, b.max_x, b.max_y);
    assert_eq!(coords(&builder.current_extent()), [-5.0, -2.0, 3.0, 8.0]);
}

#[test]
fn root_is_extent_above_node_size() {
    let boxes = grid_boxes(500);
    let index = build(&boxes, 8);
    let nodes = compute_layout(500, 8).unwrap().num_nodes;
    let buf = index.into_inner();
    let at = 8 + (nodes - 1) * 32;
    let root: Vec<f64> = (0..4)
        .map(|k| {
            let mut b = [0u8; 8];
            b.copy_from_slice(&buf[at + k * 8..at + k * 8 + 8]);
            f64::from_le_bytes(b)
        })
        .collect();
    let min_x = boxes.iter().map(|b| b[0]).fold(f64::INFINITY, f64::min);
    let min_y = boxes.iter().map(|b| b[1]).fold(f64::INFINITY, f64::min);
    let max_x = boxes.iter().map(|b| b[2]).fold(f64::NEG_INFINITY, f64::max);
    let max_y = boxes.iter().map(|b| b[3]).fold(f64::NEG_INFINITY, f64::max);
    assert_eq!(root, vec![min_x, min_y, max_x, max_y]);
}
