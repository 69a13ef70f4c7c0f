//! How a call statement lowers, as plain decisions: which keyword argument
//! feeds each of the node's input ports (the first one of its name, absent
//! when there is none; an argument lifted more than one `each` deep is
//! refused), and which names the statement binds (each of several targets
//! its own output, a single name one output of a one-output node, else
//! the node itself).
use vstd::prelude::*;
use crate::status::texts;

verus! {

/// A keyword argument of a call: its name, and how many `each` levels
/// lift its value.
#[derive(Debug, Clone, PartialEq, Eq)]
pub struct KwargShape {
    pub name: String,
    pub each_depth: usize,
}

/// What feeds one input port.
#[derive(Debug, Clone, Copy, PartialEq, Eq, Structural)]
pub enum PortFeed {
    /// No argument names the port.
    Absent,
    /// The `kwarg`-th argument, fanned out over `fan` levels.
    Wired { kwarg: usize, fan: usize },
}

/// The first argument named `port`.
pub open spec fn first_kwarg(kwargs: Seq<KwargShape>, port: Seq<char>, n: int) -> Option<int>
    decreases n,
{
    if n <= 0 {
        None
    } else {
        match first_kwarg(kwargs, port, n - 1) {
            Some(k) => Some(k),
            None => if kwargs[n - 1].name@ == port {
                Some(n - 1)
            } else {
                None
            },
        }
    }
}

/// What feeds `port`.
pub open spec fn feed_of(kwargs: Seq<KwargShape>, port: Seq<char>) -> PortFeed {
    match first_kwarg(kwargs, port, kwargs.len() as int) {
        Some(k) => PortFeed::Wired { kwarg: k as usize, fan: kwargs[k].each_depth },
        None => PortFeed::Absent,
    }
}

/// The feed is lifted deeper than one `each`.
pub open spec fn too_deep(feed: PortFeed) -> bool {
    feed matches PortFeed::Wired { fan, .. } && fan > 1
}

/// The first of the first `n` ports whose feed is too deep.
pub open spec fn first_too_deep(kwargs: Seq<KwargShape>, ports: Seq<Seq<char>>, n: int) -> Option<int>
    decreases n,
{
    if n <= 0 {
        None
    } else {
        match first_too_deep(kwargs, ports, n - 1) {
            Some(i) => Some(i),
            None => if too_deep(feed_of(kwargs, ports[n - 1])) {
                Some(n - 1)
            } else {
                None
            },
        }
    }
}

proof fn lemma_first_kwarg_found(kwargs: Seq<KwargShape>, port: Seq<char>, n: int)
    requires
        0 <= n <= kwargs.len(),
    ensures
        first_kwarg(kwargs, port, n) matches Some(k) ==> 0 <= k < n && kwargs[k].name@ == port,
    decreases n,
{
    if n > 0 {
        lemma_first_kwarg_found(kwargs, port, n - 1);
    }
}

/// The argument that feeds `port`: the first named after it.
fn find_kwarg(kwargs: &Vec<KwargShape>, port: &str) -> (found: Option<usize>)
    ensures
        found matches Some(k) ==> first_kwarg(kwargs@, port@, kwargs@.len() as int) == Some(k as int),
        found is None ==> first_kwarg(kwargs@, port@, kwargs@.len() as int) is None,
{
    let mut k: usize = 0;
    while k < kwargs.len()
        invariant
            0 <= k <= kwargs@.len(),
            first_kwarg(kwargs@, port@, k as int) is None,
        decreases kwargs@.len() - k,
    {
        if crate::text::same_text(kwargs[k].name.as_str(), port) {
            proof {
                lemma_first_kwarg_tail(kwargs@, port@, k + 1, kwargs@.len() as int);
            }
            return Some(k);
        }
        k += 1;
    }
    None
}

proof fn lemma_first_kwarg_tail(kwargs: Seq<KwargShape>, port: Seq<char>, m: int, n: int)
    requires
        0 <= m <= n,
        first_kwarg(kwargs, port, m) is Some,
    ensures
        first_kwarg(kwargs, port, n) == first_kwarg(kwargs, port, m),
    decreases n - m,
{
    if m < n {
        lemma_first_kwarg_tail(kwargs, port, m, n - 1);
    }
}

/// What feeds each of a node's input ports, in port order — or, when an
/// argument is lifted more than one `each` deep, the first such port's
/// depth.
pub fn port_feeds(ports: &Vec<String>, kwargs: &Vec<KwargShape>) -> (feeds: Result<Vec<PortFeed>, usize>)
    ensures
        match feeds {
            Ok(feeds) => first_too_deep(kwargs@, texts(ports@), ports@.len() as int) is None
                && feeds@.len() == ports@.len() && forall|i: int|
                0 <= i < ports@.len() ==> #[trigger] feeds@[i] == feed_of(kwargs@, ports@[i]@),
            Err(depth) => first_too_deep(kwargs@, texts(ports@), ports@.len() as int) matches Some(i)
                && feed_of(kwargs@, ports@[i]@) matches PortFeed::Wired { fan, .. } && fan == depth,
        },
{
    let ghost names = texts(ports@);
    let mut feeds: Vec<PortFeed> = Vec::new();
    let mut i: usize = 0;
    while i < ports.len()
        invariant
            0 <= i <= ports@.len(),
            names == texts(ports@),
            first_too_deep(kwargs@, names, i as int) is None,
            feeds@.len() == i,
            forall|j: int| 0 <= j < i ==> #[trigger] feeds@[j] == feed_of(kwargs@, ports@[j]@),
        decreases ports@.len() - i,
    {
        assert(names[i as int] == ports@[i as int]@);
        let feed = match find_kwarg(kwargs, ports[i].as_str()) {
            Some(k) => {
                proof {
                    lemma_first_kwarg_found(kwargs@, ports@[i as int]@, kwargs@.len() as int);
                }
                PortFeed::Wired { kwarg: k, fan: kwargs[k].each_depth }
            },
            None => PortFeed::Absent,
        };
        if let PortFeed::Wired { fan, .. } = feed {
            if fan > 1 {
                proof {
                    lemma_first_too_deep_tail(kwargs@, names, i + 1, ports@.len() as int);
                }
                return Err(fan);
            }
        }
        feeds.push(feed);
        i += 1;
    }
    Ok(feeds)
}

proof fn lemma_first_too_deep_tail(kwargs: Seq<KwargShape>, ports: Seq<Seq<char>>, m: int, n: int)
    requires
        0 <= m <= n,
        first_too_deep(kwargs, ports, m) is Some,
    ensures
        first_too_deep(kwargs, ports, n) == first_too_deep(kwargs, ports, m),
    decreases n - m,
{
    if m < n {
        lemma_first_too_deep_tail(kwargs, ports, m, n - 1);
    }
}

/// Where a name a call statement binds points.
#[derive(Debug, Clone, Copy, PartialEq, Eq, Structural)]
pub enum CallBinding {
    /// One of the node's outputs.
    Port { output: usize },
    /// The node itself (several outputs under one name).
    Node,
}

/// The names a call statement binds, in order: with several targets the
/// `k`-th binds output `k`; a single name binds output 0 of a one-output
/// node, and the node itself otherwise.
pub fn call_bindings(name: &String, targets: &Vec<String>, output_count: usize) -> (bindings: Vec<(String, CallBinding)>)
    ensures
        targets@.len() > 1 ==> bindings@.len() == targets@.len() && forall|k: int|
            0 <= k < targets@.len() ==> (#[trigger] bindings@[k]).0@ == targets@[k]@ && bindings@[k].1
                == (CallBinding::Port { output: k as usize }),
        targets@.len() <= 1 ==> bindings@.len() == 1 && bindings@[0].0@ == name@ && bindings@[0].1 == (
        if output_count == 1 {
            (CallBinding::Port { output: 0 })
        } else {
            CallBinding::Node
        }),
{
    let mut bindings: Vec<(String, CallBinding)> = Vec::new();
    if targets.len() > 1 {
        let mut k: usize = 0;
        while k < targets.len()
            invariant
                0 <= k <= targets@.len(),
                bindings@.len() == k,
                forall|j: int|
                    0 <= j < k ==> (#[trigger] bindings@[j]).0@ == targets@[j]@ && bindings@[j].1
                        == (CallBinding::Port { output: j as usize }),
            decreases targets@.len() - k,
        {
            bindings.push((targets[k].clone(), CallBinding::Port { output: k }));
            k += 1;
        }
    } else if output_count == 1 {
        bindings.push((name.clone(), CallBinding::Port { output: 0 }));
    } else {
        bindings.push((name.clone(), CallBinding::Node));
    }
    bindings
}

} // verus!
