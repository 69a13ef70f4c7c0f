use cicada_server::summary::{
    list_facts, reads_undisplayed_solids, solid_facts, ListedSolid, SolidAnswer, SolidFacts,
};

fn solids(answers: &[SolidAnswer]) -> Vec<ListedSolid> {
    answers
        .iter()
        .enumerate()
        .map(|(element, answer)| ListedSolid {
            element: u32::try_from(element).unwrap(),
            answer: answer.clone(),
        })
        .collect()
}

fn solid_slots(n: usize) -> Vec<Option<String>> {
    vec![Some("Solid".to_owned()); n]
}

#[test]
fn a_summary_reads_the_cache_and_never_meshes() {
    let lone = solid_facts(SolidAnswer::NotDisplayed);
    assert_eq!(lone, SolidFacts::NotDisplayed);
    assert!(reads_undisplayed_solids(None, Some(&lone)));
    let list = list_facts(
        &solid_slots(2),
        &[],
        &solids(&[SolidAnswer::NotDisplayed, SolidAnswer::NotDisplayed]),
    );
    assert_eq!(list.solids, Some(2));
    assert_eq!(list.not_displayed, Some(2));
    assert_eq!(list.faces, None);
    assert_eq!(list.triangles, None);
    assert!(reads_undisplayed_solids(Some(&list), None));
    // Drawn once: every summary reads the one entry.
    let drawn = SolidAnswer::Drawn {
        triangles: 12,
        faces: 6,
        watertight: true,
    };
    let lone = solid_facts(drawn.clone());
    assert_eq!(
        lone,
        SolidFacts::Drawn {
            faces: 6,
            triangles: 12,
            watertight: true
        }
    );
    assert!(!reads_undisplayed_solids(None, Some(&lone)));
    let list = list_facts(&solid_slots(2), &[], &solids(&[drawn.clone(), drawn]));
    assert_eq!(list.not_displayed, None);
    assert_eq!(list.triangles, Some(24));
    assert_eq!(list.faces, Some(12));
    assert!(!reads_undisplayed_solids(Some(&list), None));
}

#[test]
fn a_list_counts_its_slots_and_names_each_refusal() {
    let slots = vec![
        None,
        Some("Mesh".to_owned()),
        Some("Solid".to_owned()),
        Some("Solid".to_owned()),
        None,
        Some("Solid".to_owned()),
    ];
    let list = list_facts(
        &slots,
        &[4],
        &solids(&[
            SolidAnswer::Drawn {
                triangles: 8,
                faces: 5,
                watertight: false,
            },
            SolidAnswer::Refused("bad bytes".to_owned()),
            SolidAnswer::Refused("no kernel".to_owned()),
        ]),
    );
    assert_eq!((list.count, list.absent), (6, 2));
    assert_eq!(list.element_kind.as_deref(), Some("Mesh"));
    assert_eq!(list.triangles, Some(12));
    assert_eq!(list.solids, Some(3));
    assert_eq!(list.faces, Some(5));
    assert_eq!(list.unclosed, Some(1));
    assert_eq!(list.not_displayed, None);
    assert_eq!(
        list.error.as_deref(),
        Some("element 1 (Solid): bad bytes; element 2 (Solid): no kernel")
    );
    let empty = list_facts(&[], &[], &[]);
    assert_eq!((empty.count, empty.absent, empty.element_kind), (0, 0, None));
    assert_eq!((empty.solids, empty.triangles, empty.error), (None, None, None));
    assert_eq!(
        solid_facts(SolidAnswer::Refused("bad".to_owned())),
        SolidFacts::Error("bad".to_owned())
    );
}
