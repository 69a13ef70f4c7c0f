use cicada_server::conform::{conforms, leaky_edge_count, Returned, Shape};

fn plain(kind: &str) -> Returned {
    Returned {
        kind: kind.to_owned(),
        shape: Shape::Plain,
    }
}

fn mesh(watertight: bool, indices: Vec<u32>) -> Returned {
    Returned {
        kind: "Mesh".to_owned(),
        shape: Shape::Mesh {
            watertight,
            indices,
        },
    }
}

fn list(slots: Vec<Option<Returned>>) -> Returned {
    Returned {
        kind: "List".to_owned(),
        shape: Shape::List(slots),
    }
}

const TETRAHEDRON: [u32; 12] = [0, 2, 1, 0, 1, 3, 0, 3, 2, 1, 2, 3];

#[test]
fn conforms_checks_refinement_predicates_not_just_kinds() {
    let open = Returned {
        kind: "Curve".to_owned(),
        shape: Shape::Curve {
            closed: false,
            variant: "Polyline".to_owned(),
            polyline_vertices: Some(2),
        },
    };
    assert!(conforms(&open, "Curve", 0, false).is_ok());
    assert_eq!(
        conforms(&open, "Closed<Curve>", 0, false).unwrap_err(),
        "an open Polyline (2 vertices)"
    );
    let tetra = mesh(true, TETRAHEDRON.to_vec());
    assert!(conforms(&tetra, "Watertight<Mesh>", 0, false).is_ok());
    assert_eq!(
        conforms(&tetra, "Closed<Curve>", 0, false).unwrap_err(),
        "a Mesh",
        "wrong kind for a refinement names the kind"
    );
    let leaky_indices = vec![0, 2, 1, 0, 1, 3, 1, 2, 3];
    assert_eq!(
        leaky_edge_count(&leaky_indices),
        3,
        "the missing face leaves 3 unpaired edges"
    );
    let leaky = mesh(false, leaky_indices);
    assert!(conforms(&leaky, "Mesh", 0, false).is_ok());
    assert!(conforms(&leaky, "Watertight<Mesh>", 0, false)
        .unwrap_err()
        .contains("3 triangles, 3 open"));
}

#[test]
fn a_closed_mesh_has_no_leaky_edges_and_a_doubled_face_has_some() {
    assert_eq!(leaky_edge_count(&TETRAHEDRON), 0);
    assert_eq!(leaky_edge_count(&[]), 0);
    // A trailing partial triangle is ignored.
    assert_eq!(leaky_edge_count(&[0, 1, 2, 5]), 3);
    // The same face twice, same way round: each of its edges is used twice.
    assert_eq!(leaky_edge_count(&[0, 1, 2, 0, 1, 2]), 3);
    // The same face both ways round: every edge pairs with its reverse.
    assert_eq!(leaky_edge_count(&[0, 1, 2, 0, 2, 1]), 0);
}

#[test]
fn lists_conform_slot_by_slot_and_name_the_first_bad_slot() {
    let numbers = list(vec![Some(plain("Number")), Some(plain("Integer")), None]);
    assert_eq!(
        conforms(&numbers, "Number", 1, false).unwrap_err(),
        "an absent element at slot 2"
    );
    assert!(conforms(&numbers, "Number", 1, true).is_ok());
    assert_eq!(
        conforms(&numbers, "Integer", 1, true).unwrap_err(),
        "a Number at slot 0"
    );
    let nested = list(vec![
        Some(list(vec![Some(plain("Point"))])),
        Some(list(vec![Some(plain("Point")), Some(plain("Vector"))])),
    ]);
    assert!(conforms(&nested, "Point", 1, false).unwrap_err() == "a List at slot 0");
    assert_eq!(
        conforms(&nested, "Point", 2, false).unwrap_err(),
        "a Vector at slot 1 at slot 1"
    );
    assert_eq!(conforms(&plain("Point"), "Point", 1, false).unwrap_err(), "a Point");
    assert!(conforms(&plain("Integer"), "Number", 0, false).is_ok());
    assert_eq!(conforms(&plain("Number"), "Integer", 0, false).unwrap_err(), "a Number");
}
