use cicada_server::frames::{
    decode, encode_batch, encode_clear, encode_instances, encode_mesh_blob, identity, Batch, Frame,
    FrameError, FrameKind, Header, Instance, ValueHash, HEADER_LEN,
};

fn header(kind: FrameKind) -> Header {
    Header {
        kind,
        generation: 7,
        node: 3,
        output: 1,
        element_start: 0,
        element_count: 2,
    }
}

/// Positions as the frames carry them: `f32` bit patterns.
fn bits(values: &[f64]) -> Vec<u32> {
    values.iter().map(|&v| (v as f32).to_bits()).collect()
}

#[test]
fn batch_round_trips_and_arrays_are_aligned() {
    let mut batch = Batch::new();
    batch.push_element(
        0,
        11,
        &bits(&[0.0, 0.0, 0.0, 1.0, 0.0, 0.0, 0.0, 1.0, 0.0]),
        &[0, 1, 2],
    );
    batch.push_element(
        1,
        12,
        &bits(&[5.0, 5.0, 5.0, 6.0, 5.0, 5.0, 5.0, 6.0, 5.0]),
        &[0, 1, 2],
    );
    assert_eq!(
        batch.indices,
        vec![0, 1, 2, 3, 4, 5],
        "indices are frame-global"
    );
    assert_eq!(batch.pick_ids, vec![11, 11, 11, 12, 12, 12]);
    let bytes = encode_batch(&header(FrameKind::Mesh), FrameKind::Mesh, &batch);
    assert_eq!(bytes.len() % 4, 0);
    assert_eq!(&bytes[0..4], b"CICF");
    // positions start after header + counts + table
    let positions_at = HEADER_LEN + 12 + 24 * 2;
    assert_eq!(positions_at % 4, 0);
    assert_eq!(bytes.len(), positions_at + 12 * 6 + 4 * 6 + 4 * 6);
    let decoded = decode(&bytes).unwrap();
    assert_eq!(
        decoded,
        Frame::Batch {
            header: header(FrameKind::Mesh),
            batch
        }
    );
}

#[test]
fn clear_blob_and_instances_round_trip() {
    let h = header(FrameKind::Clear);
    assert_eq!(
        decode(&encode_clear(&h)).unwrap(),
        Frame::Clear { header: h }
    );
    let hash = ValueHash::from_bytes([9u8; 32]);
    let blob = encode_mesh_blob(
        &header(FrameKind::MeshBlob),
        &hash,
        &bits(&[1.0, 2.0, 3.0]),
        &[0, 0, 0],
    );
    match decode(&blob).unwrap() {
        Frame::MeshBlob {
            hash: h,
            positions,
            indices,
            ..
        } => {
            assert_eq!(h, hash);
            assert_eq!(positions, bits(&[1.0, 2.0, 3.0]));
            assert_eq!(indices, vec![0, 0, 0]);
        }
        other => panic!("{other:?}"),
    }
    let inst = encode_instances(
        &header(FrameKind::Instances),
        &hash,
        &[Instance {
            element_index: 4,
            pick_id: 40,
            transform: identity(),
        }],
    );
    assert_eq!(inst.len(), HEADER_LEN + 36 + 56);
    match decode(&inst).unwrap() {
        Frame::Instances { instances, .. } => {
            assert_eq!(instances.len(), 1);
            assert_eq!(instances[0].transform, identity());
            assert_eq!(instances[0].pick_id, 40);
        }
        other => panic!("{other:?}"),
    }
}

#[test]
fn malformed_frames_are_refused_loudly() {
    assert_eq!(decode(&[0u8; 8]).unwrap_err(), FrameError::Short(8));
    let mut bad = encode_clear(&header(FrameKind::Clear));
    bad[0] = b'X';
    assert!(matches!(decode(&bad).unwrap_err(), FrameError::Magic(_)));
    let mut batch = Batch::new();
    batch.push_element(0, 1, &bits(&[0.0; 9]), &[0, 1, 2]);
    let mut truncated = encode_batch(&header(FrameKind::Curve), FrameKind::Curve, &batch);
    truncated.truncate(truncated.len() - 3);
    assert!(matches!(
        decode(&truncated).unwrap_err(),
        FrameError::Truncated { .. }
    ));
    let mut kind = encode_clear(&header(FrameKind::Clear));
    kind[6] = 99;
    assert_eq!(decode(&kind).unwrap_err(), FrameError::Kind(99));
}

#[test]
fn identity_is_one_on_the_diagonal() {
    let expected: Vec<u32> = [1.0f32, 0.0, 0.0, 0.0, 0.0, 1.0, 0.0, 0.0, 0.0, 0.0, 1.0, 0.0]
        .iter()
        .map(|v| v.to_bits())
        .collect();
    assert_eq!(identity().to_vec(), expected);
}

#[test]
fn kind_codes_round_trip_and_unknown_codes_are_refused() {
    for code in 1u16..=6 {
        let kind = FrameKind::from_u16(code).unwrap();
        assert_eq!(kind.code(), code);
    }
    assert_eq!(FrameKind::from_u16(0), None);
    assert_eq!(FrameKind::from_u16(7), None);
}

#[test]
fn a_version_other_than_one_is_refused() {
    let mut bytes = encode_clear(&header(FrameKind::Clear));
    bytes[4] = 2;
    assert_eq!(decode(&bytes).unwrap_err(), FrameError::Version(2));
}

#[test]
fn local_indices_saturate_instead_of_wrapping() {
    let mut batch = Batch::new();
    batch.push_element(0, 1, &bits(&[0.0; 3]), &[0]);
    batch.push_element(1, 2, &bits(&[0.0; 3]), &[u32::MAX]);
    assert_eq!(batch.indices, vec![0, u32::MAX]);
    assert_eq!(batch.elements[1].vertex_start, 1);
    assert_eq!(batch.elements[1].index_start, 1);
}
