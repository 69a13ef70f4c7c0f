use cicada_server::display::PickTable;
use cicada_server::draw::{
    distinct_hash_places, draw_frames, drawing_counts, drawn_elements, frames_for_drawing,
    frames_for_value, value_drawing, DrawnCurve, DrawnKind, DrawnMesh, DrawnPoint, Drawing,
    FrameTarget, ValueShape,
};
use cicada_server::frames::{decode, Frame, FrameKind, ValueHash};

fn bits(values: &[f32]) -> Vec<u32> {
    values.iter().map(|v| v.to_bits()).collect()
}

fn point(element: u32, x: f32) -> DrawnPoint {
    DrawnPoint {
        element,
        position: [x.to_bits(), 0.0f32.to_bits(), 0.0f32.to_bits()],
    }
}

/// A tetrahedron at `x`: 4 vertices, 4 triangles.
fn tetra(element: u32, hash: u8, x: f32) -> DrawnMesh {
    DrawnMesh {
        element,
        hash: ValueHash::from_bytes([hash; 32]),
        positions: bits(&[
            x, 0.0, 0.0, //
            x + 1.0, 0.0, 0.0, //
            x, 1.0, 0.0, //
            x, 0.0, 1.0,
        ]),
        indices: vec![0, 2, 1, 0, 1, 3, 0, 3, 2, 1, 2, 3],
    }
}

/// A closed loop of `segments` segments.
fn loop_curve(element: u32, segments: u32) -> DrawnCurve {
    let mut positions = Vec::new();
    let mut indices = Vec::new();
    for k in 0..segments {
        positions.extend(bits(&[k as f32, 0.0, 0.0]));
        indices.push(k);
        indices.push((k + 1) % segments);
    }
    DrawnCurve {
        element,
        positions,
        indices,
    }
}

fn drawing(points: Vec<DrawnPoint>, curves: Vec<DrawnCurve>, meshes: Vec<DrawnMesh>) -> Drawing {
    Drawing {
        points,
        curves,
        meshes,
        refused: Vec::new(),
    }
}

fn target(generation: u64, node: u32, element_count: u32) -> FrameTarget {
    FrameTarget {
        generation,
        node,
        output: 0,
        element_count,
    }
}

fn kinds(frames: &[Vec<u8>]) -> Vec<FrameKind> {
    frames
        .iter()
        .map(|bytes| decode(bytes).unwrap().header().kind)
        .collect()
}

#[test]
fn a_point_list_becomes_one_point_batch_with_stable_picks() {
    // A list of three slots, the middle one absent.
    let d = drawing(vec![point(0, 0.0), point(2, 2.0)], vec![], vec![]);
    let mut picks = PickTable::new();
    let first = frames_for_drawing(&d, target(1, 5, 3), &mut picks);
    let counts = drawing_counts(&d);
    assert_eq!(counts.kinds, vec![DrawnKind::Point]);
    assert_eq!(counts.points, 2);
    let Frame::Batch { header, batch } = decode(&first[0]).unwrap() else {
        panic!("point batch")
    };
    assert_eq!(
        (header.node, header.output, header.element_count),
        (5, 0, 3)
    );
    assert_eq!(batch.elements[1].element_index, 2, "absent slot skipped, index kept");
    let pick_of_third = batch.elements[1].pick_id;
    assert_eq!(picks.resolve(pick_of_third), Some((5, 0, 2)));
    // Same triple next generation → same pick id.
    let second = frames_for_drawing(&d, target(2, 5, 3), &mut picks);
    let Frame::Batch { batch, .. } = decode(&second[0]).unwrap() else {
        panic!("point batch")
    };
    assert_eq!(batch.elements[1].pick_id, pick_of_third);
    assert_eq!(picks.encodes(), 2, "one ask per output drawn");
}

#[test]
fn pick_ids_are_asked_for_once_up_front_for_every_drawn_element() {
    // A mesh at slot 0, an absent slot 1, a circle at 2, a nested list of
    // two points sharing slot 3, a point at 4.
    let d = drawing(
        vec![point(3, 7.0), point(3, 8.0), point(4, 1.0)],
        vec![loop_curve(2, 64)],
        vec![tetra(0, 1, 0.0)],
    );
    let elements = drawn_elements(&d);
    assert_eq!(
        elements,
        vec![0, 2, 3, 4],
        "the distinct drawn slots ascending (the absent slot 1 is no element)"
    );
    // Ids of the test's choosing: element + 100.
    let ids: Vec<u32> = elements.iter().map(|e| e + 100).collect();
    let frames = draw_frames(&d, target(1, 9, 5), &elements, &ids);
    let mut carried: Vec<(u32, u32)> = Vec::new();
    for bytes in &frames {
        if let Frame::Batch { batch, .. } = decode(bytes).unwrap() {
            for element in &batch.elements {
                carried.push((element.element_index, element.pick_id));
            }
        }
    }
    carried.sort_unstable();
    assert_eq!(
        carried,
        vec![(0, 100), (2, 102), (3, 103), (3, 103), (4, 104)],
        "every element carries the id answered for its slot"
    );
    assert_eq!(
        kinds(&frames),
        vec![FrameKind::Point, FrameKind::Curve, FrameKind::Mesh]
    );
}

#[test]
fn repeated_mesh_hashes_instance_and_singles_go_inline() {
    let d = drawing(
        vec![],
        vec![],
        vec![tetra(0, 1, 0.0), tetra(1, 2, 5.0), tetra(2, 1, 0.0)],
    );
    let mut picks = PickTable::new();
    let frames = frames_for_drawing(&d, target(3, 1, 3), &mut picks);
    let counts = drawing_counts(&d);
    assert_eq!(counts.instanced, 2);
    assert_eq!(counts.elements, 3);
    assert_eq!(counts.triangles, 12);
    assert_eq!(counts.vertices, 8, "the blob's vertices travel once");
    assert_eq!(counts.kinds, vec![DrawnKind::Instances, DrawnKind::Mesh]);
    assert_eq!(
        kinds(&frames),
        vec![FrameKind::MeshBlob, FrameKind::Instances, FrameKind::Mesh]
    );
    let Frame::Instances { instances, hash, .. } = decode(&frames[1]).unwrap() else {
        panic!("instances")
    };
    assert_eq!(hash, ValueHash::from_bytes([1; 32]));
    assert_eq!(
        instances.iter().map(|i| i.element_index).collect::<Vec<_>>(),
        vec![0, 2]
    );
    let Frame::Batch { batch, .. } = decode(&frames[2]).unwrap() else {
        panic!("mesh batch")
    };
    assert_eq!(batch.elements.len(), 1);
    assert_eq!(batch.elements[0].element_index, 1);
    assert_eq!(batch.positions[3], 6.0f32.to_bits());
}

#[test]
fn scalars_clear_and_curves_tessellate() {
    let nothing = drawing(vec![], vec![], vec![]);
    let mut picks = PickTable::new();
    let frames = frames_for_drawing(&nothing, target(1, 1, 1), &mut picks);
    assert_eq!(kinds(&frames), vec![FrameKind::Clear]);
    assert_eq!(drawing_counts(&nothing).kinds, vec![DrawnKind::Clear]);
    assert_eq!(DrawnKind::Clear.name(), "clear");
    let circle = drawing(vec![], vec![loop_curve(0, 64)], vec![]);
    let frames = frames_for_drawing(&circle, target(1, 1, 1), &mut picks);
    assert_eq!(kinds(&frames), vec![FrameKind::Curve]);
    let counts = drawing_counts(&circle);
    assert_eq!(counts.kinds, vec![DrawnKind::Curve]);
    assert_eq!(counts.segments, 64, "closed loop");
    assert_eq!(counts.vertices, 64);
}

#[test]
fn shared_meshes_go_out_in_hash_order_and_empty_curves_draw_nothing() {
    let d = Drawing {
        points: vec![],
        curves: vec![DrawnCurve {
            element: 4,
            positions: vec![],
            indices: vec![],
        }],
        meshes: vec![
            tetra(0, 9, 0.0),
            tetra(1, 3, 0.0),
            tetra(2, 9, 0.0),
            tetra(3, 3, 0.0),
        ],
        refused: vec![5],
    };
    let elements = drawn_elements(&d);
    assert_eq!(elements, vec![0, 1, 2, 3, 4, 5], "a refused solid still gets an id");
    let mut picks = PickTable::new();
    let frames = frames_for_drawing(&d, target(1, 2, 6), &mut picks);
    assert_eq!(
        kinds(&frames),
        vec![
            FrameKind::MeshBlob,
            FrameKind::Instances,
            FrameKind::MeshBlob,
            FrameKind::Instances
        ]
    );
    let hashes: Vec<ValueHash> = frames
        .iter()
        .filter_map(|bytes| match decode(bytes).unwrap() {
            Frame::MeshBlob { hash, .. } => Some(hash),
            _ => None,
        })
        .collect();
    assert_eq!(
        hashes,
        vec![ValueHash::from_bytes([3; 32]), ValueHash::from_bytes([9; 32])]
    );
    let counts = drawing_counts(&d);
    assert_eq!(counts.kinds, vec![DrawnKind::Instances]);
    assert_eq!((counts.instanced, counts.elements, counts.segments), (4, 4, 0));
}

#[test]
fn distinct_solids_dedup_by_hash_in_hash_order() {
    let hashes: Vec<ValueHash> = [9u8, 3, 9, 5, 3]
        .iter()
        .map(|b| ValueHash::from_bytes([*b; 32]))
        .collect();
    assert_eq!(distinct_hash_places(&hashes), vec![1, 3, 0]);
    assert!(distinct_hash_places(&[]).is_empty());
}

#[test]
fn a_value_is_walked_into_its_drawing_by_top_level_slot() {
    // A mesh at slot 0, an absent slot 1, a curve at 2, a nested list of
    // two points at 3 (both take slot 3), a refused solid at 4, a scalar
    // at 5 and a solid with a display mesh at 6.
    let shape = || {
        let t = tetra(0, 7, 0.0);
        let s = tetra(0, 9, 3.0);
        let c = loop_curve(0, 4);
        ValueShape::List {
            slots: vec![
                Some(ValueShape::Mesh { hash: t.hash, positions: t.positions, indices: t.indices }),
                None,
                Some(ValueShape::Curve { positions: c.positions, indices: c.indices }),
                Some(ValueShape::List {
                    slots: vec![
                        Some(ValueShape::Point { position: point(0, 7.0).position }),
                        None,
                        Some(ValueShape::Point { position: point(0, 8.0).position }),
                    ],
                }),
                Some(ValueShape::Solid { hash: ValueHash::from_bytes([4; 32]), mesh: None }),
                Some(ValueShape::Other),
                Some(ValueShape::Solid { hash: s.hash, mesh: Some((s.positions, s.indices)) }),
            ],
        }
    };
    let d = value_drawing(shape());
    let expected = Drawing {
        points: vec![point(3, 7.0), point(3, 8.0)],
        curves: vec![loop_curve(2, 4)],
        meshes: vec![tetra(0, 7, 0.0), tetra(6, 9, 3.0)],
        refused: vec![4],
    };
    assert_eq!(d, expected);
    assert_eq!(drawn_elements(&d), vec![0, 2, 3, 4, 6]);
    let mut picks = PickTable::new();
    let frames = frames_for_value(shape(), target(1, 2, 7), &mut picks);
    let mut again = PickTable::new();
    assert_eq!(frames, frames_for_drawing(&expected, target(1, 2, 7), &mut again));
    assert_eq!(picks.encodes(), 1);
    assert_eq!(picks.resolve(1), Some((2, 0, 0)));
    assert_eq!(picks.resolve(4), Some((2, 0, 4)));
    // A lone drawable is element 0; a scalar draws nothing.
    assert_eq!(value_drawing(ValueShape::Point { position: [1, 2, 3] }).points, vec![DrawnPoint { element: 0, position: [1, 2, 3] }]);
    assert_eq!(drawn_elements(&value_drawing(ValueShape::Other)), Vec::<u32>::new());
}
