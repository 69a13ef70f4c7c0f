use cicada_server::calls::{call_bindings, port_feeds, CallBinding, KwargShape, PortFeed};

fn kwarg(name: &str, each_depth: usize) -> KwargShape {
    KwargShape { name: name.to_owned(), each_depth }
}

fn names(list: &[&str]) -> Vec<String> {
    list.iter().map(|s| (*s).to_owned()).collect()
}

#[test]
fn each_port_takes_the_first_argument_of_its_name() {
    let ports = names(&["a", "b", "c"]);
    let kwargs = vec![kwarg("c", 1), kwarg("a", 0), kwarg("c", 0)];
    assert_eq!(
        port_feeds(&ports, &kwargs),
        Ok(vec![
            PortFeed::Wired { kwarg: 1, fan: 0 },
            PortFeed::Absent,
            PortFeed::Wired { kwarg: 0, fan: 1 },
        ])
    );
}

#[test]
fn an_argument_lifted_twice_is_refused_with_its_depth() {
    let ports = names(&["a", "b"]);
    let kwargs = vec![kwarg("b", 3), kwarg("a", 2)];
    assert_eq!(port_feeds(&ports, &kwargs), Err(2));
    // An unused deep argument refuses nothing.
    assert_eq!(port_feeds(&names(&["a"]), &vec![kwarg("z", 5)]), Ok(vec![PortFeed::Absent]));
}

#[test]
fn targets_bind_outputs_and_a_lone_name_binds_port_or_node() {
    let several = call_bindings(&"x".to_owned(), &names(&["lo", "hi"]), 2);
    assert_eq!(
        several,
        vec![
            ("lo".to_owned(), CallBinding::Port { output: 0 }),
            ("hi".to_owned(), CallBinding::Port { output: 1 }),
        ]
    );
    assert_eq!(
        call_bindings(&"x".to_owned(), &names(&["x"]), 1),
        vec![("x".to_owned(), CallBinding::Port { output: 0 })]
    );
    assert_eq!(
        call_bindings(&"x".to_owned(), &names(&["x"]), 3),
        vec![("x".to_owned(), CallBinding::Node)]
    );
}
