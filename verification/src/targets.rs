//! What a headless run computes, and why a binding is left out of the
//! solve graph: target resolution over a pipeline's statements (the
//! requested names, or every leaf binding minus effectful ones, whose
//! inputs take their place), and the exclusion reasons as a user reads
//! them.
use vstd::prelude::*;
use crate::status::texts;
use crate::text::same_text;

verus! {

// ---------------------------------------------------------- exclusion --

/// Why a binding is not in the solve graph (the reason is always spelled
/// out).
#[derive(Debug, Clone, PartialEq, Eq)]
pub enum Exclusion {
    /// The binding's own statement has checker/parse diagnostics.
    Diagnostics,
    /// The statement is `#off`-disabled.
    Disabled,
    /// Lowering itself refused (its message).
    Lowering(String),
    /// An upstream binding is excluded (or unknown); this one is blocked
    /// by it — the name is the culprit.
    FedBy(String),
}

/// The status word of an exclusion.
pub open spec fn exclusion_status(e: Exclusion) -> Seq<char> {
    match e {
        Exclusion::FedBy(_) => "blocked"@,
        _ => "red"@,
    }
}

/// The reason of an exclusion as a user reads it.
pub open spec fn exclusion_reason(e: Exclusion) -> Seq<char> {
    match e {
        Exclusion::Diagnostics => "has diagnostics"@,
        Exclusion::Disabled => "disabled (`#off`)"@,
        Exclusion::Lowering(message) => message@,
        Exclusion::FedBy(upstream) => "fed by red `"@ + upstream@ + "`"@,
    }
}

impl Exclusion {
    /// The status-vocabulary word: `red` or `blocked`.
    pub fn status(&self) -> (word: &'static str)
        ensures
            word@ == exclusion_status(*self),
    {
        match self {
            Exclusion::FedBy(_) => "blocked",
            Exclusion::Diagnostics => "red",
            Exclusion::Disabled => "red",
            Exclusion::Lowering(_) => "red",
        }
    }

    /// The honest reason as a user reads it — the text the canvas shows on
    /// the node and the `check` tool reports per excluded binding (one
    /// rendering, so the two never disagree).
    pub fn reason(&self) -> (text: String)
        ensures
            text@ == exclusion_reason(*self),
    {
        match self {
            Exclusion::Diagnostics => "has diagnostics".to_owned(),
            Exclusion::Disabled => "disabled (`#off`)".to_owned(),
            Exclusion::Lowering(message) => message.clone(),
            Exclusion::FedBy(upstream) => {
                let mut text = "fed by red `".to_owned();
                text.append(upstream.as_str());
                text.append("`");
                text
            },
        }
    }
}

// ------------------------------------------------------------ targets --

/// A statement of a pipeline as target resolution reads it: the names it
/// binds, the names it references (in order), and the node it calls (if
/// its right-hand side is a call).
#[derive(Debug, Clone, PartialEq, Eq)]
pub struct TargetStatement {
    /// The bound names.
    pub targets: Vec<String>,
    /// The referenced names, in order.
    pub references: Vec<String>,
    /// The called node's name.
    pub call: Option<String>,
}

/// A statement as plain values.
pub struct StatementView {
    pub targets: Seq<Seq<char>>,
    pub references: Seq<Seq<char>>,
    pub call: Option<Seq<char>>,
}

/// A statement's plain values.
pub open spec fn statement_view(s: TargetStatement) -> StatementView {
    StatementView {
        targets: texts(s.targets@),
        references: texts(s.references@),
        call: match s.call {
            Some(c) => Some(c@),
            None => None,
        },
    }
}

/// The statements' plain values.
pub open spec fn statement_views(ss: Seq<TargetStatement>) -> Seq<StatementView> {
    ss.map_values(|s: TargetStatement| statement_view(s))
}

/// A copy of a run of strings.
pub fn copy_strings(strings: &Vec<String>) -> (copy: Vec<String>)
    ensures
        copy@ == strings@,
{
    let mut copy: Vec<String> = Vec::new();
    let mut k: usize = 0;
    while k < strings.len()
        invariant
            0 <= k <= strings@.len(),
            copy@ == strings@.take(k as int),
        decreases strings@.len() - k,
    {
        copy.push(strings[k].clone());
        assert(copy@ =~= strings@.take(k + 1));
        k += 1;
    }
    assert(strings@.take(strings@.len() as int) =~= strings@);
    copy
}

impl TargetStatement {
    /// A copy of the statement.
    pub fn duplicate(&self) -> (copy: TargetStatement)
        ensures
            statement_view(copy) == statement_view(*self),
    {
        TargetStatement {
            targets: copy_strings(&self.targets),
            references: copy_strings(&self.references),
            call: match &self.call {
                Some(c) => Some(c.clone()),
                None => None,
            },
        }
    }
}

/// The resolved target set of a headless run.
#[derive(Debug, Clone, PartialEq, Eq)]
pub struct Targets {
    /// Binding names to compute, in order.
    pub names: Vec<String>,
    /// Effectful leaves that were skipped (their inputs still solve;
    /// exporters never auto-run).
    pub skipped_effectful: Vec<String>,
}

/// Why target resolution refused.
#[derive(Debug, Clone, PartialEq, Eq)]
pub enum TargetError {
    /// A named target binds nothing.
    Unknown(String),
    /// Nothing to compute (every leaf is effectful, or the file is empty).
    Nothing,
}

/// How a target refusal reads.
pub open spec fn target_error_text(e: TargetError) -> Seq<char> {
    match e {
        TargetError::Unknown(name) => "no binding named `"@ + name@ + "` in the pipeline"@,
        TargetError::Nothing => "the pipeline binds nothing to compute (effectful bindings run only via --node / explicit run)"@,
    }
}

impl TargetError {
    /// The refusal in words.
    pub fn message(&self) -> (text: String)
        ensures
            text@ == target_error_text(*self),
    {
        match self {
            TargetError::Unknown(name) => {
                let mut text = "no binding named `".to_owned();
                text.append(name.as_str());
                text.append("` in the pipeline");
                text
            },
            TargetError::Nothing => "the pipeline binds nothing to compute (effectful bindings run only via --node / explicit run)".to_owned(),
        }
    }
}

/// Some statement binds `name`.
pub open spec fn bound(stmts: Seq<StatementView>, name: Seq<char>) -> bool {
    exists|i: int, j: int|
        0 <= i < stmts.len() && 0 <= j < stmts[i].targets.len() && #[trigger] stmts[i].targets[j] == name
}

/// Some statement references `name`.
pub open spec fn referenced(stmts: Seq<StatementView>, name: Seq<char>) -> bool {
    exists|i: int, j: int|
        0 <= i < stmts.len() && 0 <= j < stmts[i].references.len() && #[trigger] stmts[i].references[j] == name
}

/// The statement calls an effectful node.
pub open spec fn effectful_call(effectful: Seq<Seq<char>>, s: StatementView) -> bool {
    s.call matches Some(c) && effectful.contains(c)
}

/// `leaves` with each of `names` added that is not there yet, in order.
pub open spec fn add_new(leaves: Seq<Seq<char>>, names: Seq<Seq<char>>) -> Seq<Seq<char>>
    decreases names.len(),
{
    if names.len() == 0 {
        leaves
    } else {
        let before = add_new(leaves, names.drop_last());
        if before.contains(names.last()) {
            before
        } else {
            before.push(names.last())
        }
    }
}

/// One bound name of statement `s`: skipped when something references it;
/// an effectful statement's is skipped and its references become targets;
/// otherwise the name itself is a target (once).
pub open spec fn target_step(
    all: Seq<StatementView>,
    effectful: Seq<Seq<char>>,
    s: StatementView,
    name: Seq<char>,
    acc: (Seq<Seq<char>>, Seq<Seq<char>>),
) -> (Seq<Seq<char>>, Seq<Seq<char>>) {
    if referenced(all, name) {
        acc
    } else if effectful_call(effectful, s) {
        (add_new(acc.0, s.references), acc.1.push(name))
    } else if acc.0.contains(name) {
        acc
    } else {
        (acc.0.push(name), acc.1)
    }
}

/// The first `n` bound names of statement `s`, stepped in order.
pub open spec fn statement_steps(
    all: Seq<StatementView>,
    effectful: Seq<Seq<char>>,
    s: StatementView,
    n: nat,
    acc: (Seq<Seq<char>>, Seq<Seq<char>>),
) -> (Seq<Seq<char>>, Seq<Seq<char>>)
    decreases n,
{
    if n == 0 {
        acc
    } else {
        target_step(
            all,
            effectful,
            s,
            s.targets[n - 1],
            statement_steps(all, effectful, s, (n - 1) as nat, acc),
        )
    }
}

/// The first `n` statements, stepped in order: the leaves and the skipped
/// effectful names.
pub open spec fn leaves_of(all: Seq<StatementView>, effectful: Seq<Seq<char>>, n: nat) -> (
    Seq<Seq<char>>,
    Seq<Seq<char>>,
)
    decreases n,
{
    if n == 0 {
        (Seq::empty(), Seq::empty())
    } else {
        let s = all[n - 1];
        statement_steps(all, effectful, s, s.targets.len(), leaves_of(all, effectful, (n - 1) as nat))
    }
}

proof fn lemma_add_new_keeps(leaves: Seq<Seq<char>>, names: Seq<Seq<char>>)
    ensures
        forall|x: Seq<char>| leaves.contains(x) ==> #[trigger] add_new(leaves, names).contains(x),
        forall|k: int| 0 <= k < names.len() ==> add_new(leaves, names).contains(#[trigger] names[k]),
    decreases names.len(),
{
    if names.len() > 0 {
        let before = add_new(leaves, names.drop_last());
        lemma_add_new_keeps(leaves, names.drop_last());
        assert forall|k: int| 0 <= k < names.len() implies add_new(leaves, names).contains(#[trigger] names[k]) by {
            if k < names.len() - 1 {
                assert(names.drop_last()[k] == names[k]);
                assert(before.contains(names[k]));
                if !before.contains(names.last()) {
                    let i = choose|i: int| 0 <= i < before.len() && before[i] == names[k];
                    assert(before.push(names.last())[i] == names[k]);
                }
            } else {
                if !before.contains(names.last()) {
                    assert(before.push(names.last())[before.len() as int] == names.last());
                }
            }
        }
        assert forall|x: Seq<char>| leaves.contains(x) implies #[trigger] add_new(leaves, names).contains(x) by {
            assert(before.contains(x));
            if !before.contains(names.last()) {
                let i = choose|i: int| 0 <= i < before.len() && before[i] == x;
                assert(before.push(names.last())[i] == x);
            }
        }
    }
}

proof fn lemma_step_keeps(
    all: Seq<StatementView>,
    effectful: Seq<Seq<char>>,
    s: StatementView,
    name: Seq<char>,
    acc: (Seq<Seq<char>>, Seq<Seq<char>>),
)
    ensures
        forall|x: Seq<char>| acc.0.contains(x) ==> #[trigger] target_step(all, effectful, s, name, acc).0.contains(x),
        !referenced(all, name) && !effectful_call(effectful, s) ==> target_step(all, effectful, s, name, acc).0.contains(
            name,
        ),
{
    let r = target_step(all, effectful, s, name, acc);
    if !referenced(all, name) && effectful_call(effectful, s) {
        lemma_add_new_keeps(acc.0, s.references);
    }
    assert forall|x: Seq<char>| acc.0.contains(x) implies #[trigger] r.0.contains(x) by {
        if !referenced(all, name) && !effectful_call(effectful, s) && !acc.0.contains(name) {
            let i = choose|i: int| 0 <= i < acc.0.len() && acc.0[i] == x;
            assert(acc.0.push(name)[i] == x);
        }
    }
    if !referenced(all, name) && !effectful_call(effectful, s) && !acc.0.contains(name) {
        assert(acc.0.push(name)[acc.0.len() as int] == name);
    }
}

proof fn lemma_steps_keep(
    all: Seq<StatementView>,
    effectful: Seq<Seq<char>>,
    s: StatementView,
    n: nat,
    acc: (Seq<Seq<char>>, Seq<Seq<char>>),
)
    requires
        n <= s.targets.len(),
    ensures
        forall|x: Seq<char>| acc.0.contains(x) ==> #[trigger] statement_steps(all, effectful, s, n, acc).0.contains(x),
        !effectful_call(effectful, s) ==> forall|t: int|
            0 <= t < n && !referenced(all, #[trigger] s.targets[t]) ==> statement_steps(
                all,
                effectful,
                s,
                n,
                acc,
            ).0.contains(s.targets[t]),
    decreases n,
{
    if n > 0 {
        let before = statement_steps(all, effectful, s, (n - 1) as nat, acc);
        lemma_steps_keep(all, effectful, s, (n - 1) as nat, acc);
        lemma_step_keeps(all, effectful, s, s.targets[n - 1], before);
    }
}

proof fn lemma_leaves_hold(all: Seq<StatementView>, effectful: Seq<Seq<char>>, n: nat)
    requires
        n <= all.len(),
    ensures
        forall|i: int, t: int|
            0 <= i < n && 0 <= t < all[i].targets.len() && !referenced(all, #[trigger] all[i].targets[t])
                && !effectful_call(effectful, all[i]) ==> leaves_of(all, effectful, n).0.contains(all[i].targets[t]),
    decreases n,
{
    if n > 0 {
        let prev = leaves_of(all, effectful, (n - 1) as nat);
        let s = all[n - 1];
        lemma_leaves_hold(all, effectful, (n - 1) as nat);
        lemma_steps_keep(all, effectful, s, s.targets.len(), prev);
    }
}

/// With no requested targets, every leaf is computed: each name a
/// statement binds that no statement references, unless the statement
/// calls an effectful node, is among the resolved names (whatever its
/// position among the statement's targets).
pub proof fn lemma_every_leaf_is_a_target(all: Seq<StatementView>, effectful: Seq<Seq<char>>)
    ensures
        forall|i: int, t: int|
            0 <= i < all.len() && 0 <= t < all[i].targets.len() && !referenced(all, #[trigger] all[i].targets[t])
                && !effectful_call(effectful, all[i]) ==> leaves_of(all, effectful, all.len()).0.contains(
                all[i].targets[t],
            ),
{
    lemma_leaves_hold(all, effectful, all.len());
}

proof fn lemma_step_keeps_skipped(
    all: Seq<StatementView>,
    effectful: Seq<Seq<char>>,
    s: StatementView,
    name: Seq<char>,
    acc: (Seq<Seq<char>>, Seq<Seq<char>>),
)
    ensures
        forall|x: Seq<char>| acc.1.contains(x) ==> #[trigger] target_step(all, effectful, s, name, acc).1.contains(x),
        !referenced(all, name) && effectful_call(effectful, s) ==> {
            &&& target_step(all, effectful, s, name, acc).1.contains(name)
            &&& forall|k: int|
                0 <= k < s.references.len() ==> target_step(all, effectful, s, name, acc).0.contains(
                    #[trigger] s.references[k],
                )
        },
{
    let r = target_step(all, effectful, s, name, acc);
    if !referenced(all, name) && effectful_call(effectful, s) {
        lemma_add_new_keeps(acc.0, s.references);
        assert(acc.1.push(name)[acc.1.len() as int] == name);
        assert forall|x: Seq<char>| acc.1.contains(x) implies #[trigger] r.1.contains(x) by {
            let i = choose|i: int| 0 <= i < acc.1.len() && acc.1[i] == x;
            assert(acc.1.push(name)[i] == x);
        }
    }
}

proof fn lemma_steps_keep_skipped(
    all: Seq<StatementView>,
    effectful: Seq<Seq<char>>,
    s: StatementView,
    n: nat,
    acc: (Seq<Seq<char>>, Seq<Seq<char>>),
)
    requires
        n <= s.targets.len(),
    ensures
        forall|x: Seq<char>| acc.1.contains(x) ==> #[trigger] statement_steps(all, effectful, s, n, acc).1.contains(x),
        effectful_call(effectful, s) ==> forall|t: int|
            0 <= t < n && !referenced(all, #[trigger] s.targets[t]) ==> statement_steps(
                all,
                effectful,
                s,
                n,
                acc,
            ).1.contains(s.targets[t]),
        effectful_call(effectful, s) && (exists|t: int| 0 <= t < n && !referenced(all, #[trigger] s.targets[t]))
            ==> forall|k: int|
            0 <= k < s.references.len() ==> statement_steps(all, effectful, s, n, acc).0.contains(
                #[trigger] s.references[k],
            ),
    decreases n,
{
    if n > 0 {
        let before = statement_steps(all, effectful, s, (n - 1) as nat, acc);
        lemma_steps_keep_skipped(all, effectful, s, (n - 1) as nat, acc);
        lemma_step_keeps_skipped(all, effectful, s, s.targets[n - 1], before);
        lemma_step_keeps(all, effectful, s, s.targets[n - 1], before);
    }
}

proof fn lemma_skipped_hold(all: Seq<StatementView>, effectful: Seq<Seq<char>>, n: nat)
    requires
        n <= all.len(),
    ensures
        forall|i: int, t: int|
            0 <= i < n && 0 <= t < all[i].targets.len() && !referenced(all, #[trigger] all[i].targets[t])
                && effectful_call(effectful, all[i]) ==> leaves_of(all, effectful, n).1.contains(all[i].targets[t])
                && forall|k: int|
                0 <= k < all[i].references.len() ==> leaves_of(all, effectful, n).0.contains(
                    #[trigger] all[i].references[k],
                ),
    decreases n,
{
    if n > 0 {
        let prev = leaves_of(all, effectful, (n - 1) as nat);
        let s = all[n - 1];
        lemma_skipped_hold(all, effectful, (n - 1) as nat);
        lemma_steps_keep(all, effectful, s, s.targets.len(), prev);
        lemma_steps_keep_skipped(all, effectful, s, s.targets.len(), prev);
        assert forall|i: int, t: int|
            0 <= i < n && 0 <= t < all[i].targets.len() && !referenced(all, #[trigger] all[i].targets[t])
                && effectful_call(effectful, all[i]) implies leaves_of(all, effectful, n).1.contains(
            all[i].targets[t],
        ) && forall|k: int|
            0 <= k < all[i].references.len() ==> leaves_of(all, effectful, n).0.contains(
                #[trigger] all[i].references[k],
            ) by {
            if i == n - 1 {
                assert(!referenced(all, s.targets[t]));
            }
        }
    }
}

/// An effectful leaf is never computed by default: its name is among the
/// skipped ones, and every name it references is computed instead.
pub proof fn lemma_effectful_leaves_are_skipped(all: Seq<StatementView>, effectful: Seq<Seq<char>>)
    ensures
        forall|i: int, t: int|
            0 <= i < all.len() && 0 <= t < all[i].targets.len() && !referenced(all, #[trigger] all[i].targets[t])
                && effectful_call(effectful, all[i]) ==> leaves_of(all, effectful, all.len()).1.contains(
                all[i].targets[t],
            ) && forall|k: int|
                0 <= k < all[i].references.len() ==> leaves_of(all, effectful, all.len()).0.contains(
                    #[trigger] all[i].references[k],
                ),
{
    lemma_skipped_hold(all, effectful, all.len());
}

/// `x` is a name a default run may compute: an unreferenced name a
/// statement without an effectful call binds, or a name an effectful
/// statement with an unreferenced target references.
pub open spec fn default_target(all: Seq<StatementView>, effectful: Seq<Seq<char>>, x: Seq<char>) -> bool {
    ||| exists|i: int, t: int|
        0 <= i < all.len() && 0 <= t < all[i].targets.len() && #[trigger] all[i].targets[t] == x && !referenced(
            all,
            x,
        ) && !effectful_call(effectful, all[i])
    ||| exists|i: int, t: int, k: int|
        0 <= i < all.len() && 0 <= t < all[i].targets.len() && 0 <= k < all[i].references.len()
            && effectful_call(effectful, all[i]) && !referenced(all, #[trigger] all[i].targets[t])
            && #[trigger] all[i].references[k] == x
}

/// `x` is a name a default run may skip: an unreferenced name an
/// effectful statement binds.
pub open spec fn skipped_target(all: Seq<StatementView>, effectful: Seq<Seq<char>>, x: Seq<char>) -> bool {
    exists|i: int, t: int|
        0 <= i < all.len() && 0 <= t < all[i].targets.len() && #[trigger] all[i].targets[t] == x && !referenced(
            all,
            x,
        ) && effectful_call(effectful, all[i])
}

proof fn lemma_add_new_only(leaves: Seq<Seq<char>>, names: Seq<Seq<char>>)
    ensures
        forall|x: Seq<char>| #[trigger] add_new(leaves, names).contains(x) ==> leaves.contains(x) || names.contains(x),
    decreases names.len(),
{
    if names.len() > 0 {
        let before = add_new(leaves, names.drop_last());
        lemma_add_new_only(leaves, names.drop_last());
        assert forall|x: Seq<char>| #[trigger] add_new(leaves, names).contains(x) implies leaves.contains(x)
            || names.contains(x) by {
            if before.contains(x) {
                if !leaves.contains(x) {
                    let k = choose|k: int| 0 <= k < names.drop_last().len() && names.drop_last()[k] == x;
                    assert(names[k] == x);
                }
            } else {
                let r = add_new(leaves, names);
                let k = choose|k: int| 0 <= k < r.len() && r[k] == x;
                assert(r == before.push(names.last()));
                if k < before.len() {
                    assert(r[k] == before[k]);
                }
                assert(names[names.len() - 1] == x);
            }
        }
    }
}

proof fn lemma_steps_only(
    all: Seq<StatementView>,
    effectful: Seq<Seq<char>>,
    i: int,
    n: nat,
    acc: (Seq<Seq<char>>, Seq<Seq<char>>),
)
    requires
        0 <= i < all.len(),
        n <= all[i].targets.len(),
    ensures
        forall|x: Seq<char>|
            #[trigger] statement_steps(all, effectful, all[i], n, acc).0.contains(x) ==> acc.0.contains(x)
                || default_target(all, effectful, x),
        forall|x: Seq<char>|
            #[trigger] statement_steps(all, effectful, all[i], n, acc).1.contains(x) ==> acc.1.contains(x)
                || skipped_target(all, effectful, x),
    decreases n,
{
    if n > 0 {
        let s = all[i];
        let before = statement_steps(all, effectful, s, (n - 1) as nat, acc);
        let name = s.targets[n - 1];
        lemma_steps_only(all, effectful, i, (n - 1) as nat, acc);
        let r = target_step(all, effectful, s, name, before);
        if !referenced(all, name) && effectful_call(effectful, s) {
            lemma_add_new_only(before.0, s.references);
            assert forall|x: Seq<char>| #[trigger] r.0.contains(x) implies acc.0.contains(x) || default_target(
                all,
                effectful,
                x,
            ) by {
                if !before.0.contains(x) {
                    let k = choose|k: int| 0 <= k < s.references.len() && s.references[k] == x;
                    assert(all[i].references[k] == x);
                    assert(!referenced(all, all[i].targets[n - 1]));
                }
            }
            assert forall|x: Seq<char>| #[trigger] r.1.contains(x) implies acc.1.contains(x) || skipped_target(
                all,
                effectful,
                x,
            ) by {
                if !before.1.contains(x) {
                    let k = choose|k: int| 0 <= k < r.1.len() && r.1[k] == x;
                    if k < before.1.len() {
                        assert(r.1[k] == before.1[k]);
                    }
                    assert(all[i].targets[n - 1] == x);
                }
            }
        } else if !referenced(all, name) && !before.0.contains(name) {
            assert forall|x: Seq<char>| #[trigger] r.0.contains(x) implies acc.0.contains(x) || default_target(
                all,
                effectful,
                x,
            ) by {
                if !before.0.contains(x) {
                    let k = choose|k: int| 0 <= k < r.0.len() && r.0[k] == x;
                    if k < before.0.len() {
                        assert(r.0[k] == before.0[k]);
                    }
                    assert(all[i].targets[n - 1] == x);
                }
            }
        }
    }
}

proof fn lemma_leaves_only(all: Seq<StatementView>, effectful: Seq<Seq<char>>, n: nat)
    requires
        n <= all.len(),
    ensures
        forall|x: Seq<char>|
            #[trigger] leaves_of(all, effectful, n).0.contains(x) ==> default_target(all, effectful, x),
        forall|x: Seq<char>|
            #[trigger] leaves_of(all, effectful, n).1.contains(x) ==> skipped_target(all, effectful, x),
    decreases n,
{
    if n > 0 {
        lemma_leaves_only(all, effectful, (n - 1) as nat);
        let prev = leaves_of(all, effectful, (n - 1) as nat);
        lemma_steps_only(all, effectful, n - 1, all[n - 1].targets.len(), prev);
    }
}

/// A default run computes nothing else: every resolved name is an
/// unreferenced name of a statement without an effectful call, or a name
/// an effectful leaf statement references; every skipped name is an
/// unreferenced name of an effectful statement.
pub proof fn lemma_default_targets_are_leaves(all: Seq<StatementView>, effectful: Seq<Seq<char>>)
    ensures
        forall|x: Seq<char>|
            #[trigger] leaves_of(all, effectful, all.len()).0.contains(x) ==> default_target(all, effectful, x),
        forall|x: Seq<char>|
            #[trigger] leaves_of(all, effectful, all.len()).1.contains(x) ==> skipped_target(all, effectful, x),
{
    lemma_leaves_only(all, effectful, all.len());
}

/// No name occurs twice.
pub open spec fn no_repeats(names: Seq<Seq<char>>) -> bool {
    forall|a: int, b: int| 0 <= a < b < names.len() ==> names[a] != names[b]
}

proof fn lemma_push_new_keeps_no_repeats(names: Seq<Seq<char>>, x: Seq<char>)
    requires
        no_repeats(names),
        !names.contains(x),
    ensures
        no_repeats(names.push(x)),
{
    assert forall|a: int, b: int| 0 <= a < b < names.push(x).len() implies names.push(x)[a] != names.push(x)[b] by {
        if b == names.len() {
            assert(names[a] == names.push(x)[a]);
        }
    }
}

proof fn lemma_add_new_no_repeats(leaves: Seq<Seq<char>>, names: Seq<Seq<char>>)
    requires
        no_repeats(leaves),
    ensures
        no_repeats(add_new(leaves, names)),
    decreases names.len(),
{
    if names.len() > 0 {
        lemma_add_new_no_repeats(leaves, names.drop_last());
        let before = add_new(leaves, names.drop_last());
        if !before.contains(names.last()) {
            lemma_push_new_keeps_no_repeats(before, names.last());
        }
    }
}

proof fn lemma_steps_no_repeats(
    all: Seq<StatementView>,
    effectful: Seq<Seq<char>>,
    s: StatementView,
    n: nat,
    acc: (Seq<Seq<char>>, Seq<Seq<char>>),
)
    requires
        no_repeats(acc.0),
    ensures
        no_repeats(statement_steps(all, effectful, s, n, acc).0),
    decreases n,
{
    if n > 0 {
        lemma_steps_no_repeats(all, effectful, s, (n - 1) as nat, acc);
        let before = statement_steps(all, effectful, s, (n - 1) as nat, acc);
        let name = s.targets[n - 1];
        if !referenced(all, name) {
            if effectful_call(effectful, s) {
                lemma_add_new_no_repeats(before.0, s.references);
            } else if !before.0.contains(name) {
                lemma_push_new_keeps_no_repeats(before.0, name);
            }
        }
    }
}

proof fn lemma_leaves_no_repeats(all: Seq<StatementView>, effectful: Seq<Seq<char>>, n: nat)
    requires
        n <= all.len(),
    ensures
        no_repeats(leaves_of(all, effectful, n).0),
    decreases n,
{
    if n > 0 {
        lemma_leaves_no_repeats(all, effectful, (n - 1) as nat);
        lemma_steps_no_repeats(
            all,
            effectful,
            all[n - 1],
            all[n - 1].targets.len(),
            leaves_of(all, effectful, (n - 1) as nat),
        );
    }
}

/// A default run computes each name once: the resolved names never
/// repeat.
pub proof fn lemma_default_targets_are_distinct(all: Seq<StatementView>, effectful: Seq<Seq<char>>)
    ensures
        no_repeats(leaves_of(all, effectful, all.len()).0),
{
    lemma_leaves_no_repeats(all, effectful, all.len());
}

/// The first requested name no statement binds.
pub open spec fn first_unbound(stmts: Seq<StatementView>, requested: Seq<Seq<char>>) -> Option<int>
    decreases requested.len(),
{
    if requested.len() == 0 {
        None
    } else {
        match first_unbound(stmts, requested.drop_last()) {
            Some(k) => Some(k),
            None => if !bound(stmts, requested.last()) {
                Some(requested.len() - 1)
            } else {
                None
            },
        }
    }
}

/// Does some statement bind (or reference, with `refs`) `name`?
pub(crate) fn mentions(stmts: &[TargetStatement], name: &str, refs: bool) -> (found: bool)
    ensures
        found == if refs {
            referenced(statement_views(stmts@), name@)
        } else {
            bound(statement_views(stmts@), name@)
        },
{
    let ghost sv = statement_views(stmts@);
    let mut i: usize = 0;
    while i < stmts.len()
        invariant
            0 <= i <= stmts@.len(),
            sv == statement_views(stmts@),
            forall|a: int, b: int|
                0 <= a < i && 0 <= b < (if refs {
                    sv[a].references.len()
                } else {
                    sv[a].targets.len()
                }) ==> (if refs {
                    sv[a].references[b]
                } else {
                    sv[a].targets[b]
                }) != name@,
        decreases stmts@.len() - i,
    {
        let names = if refs {
            &stmts[i].references
        } else {
            &stmts[i].targets
        };
        assert(sv[i as int] == statement_view(stmts@[i as int]));
        let mut j: usize = 0;
        while j < names.len()
            invariant
                0 <= j <= names@.len(),
                0 <= i < stmts@.len(),
                sv == statement_views(stmts@),
                texts(names@) == (if refs {
                    sv[i as int].references
                } else {
                    sv[i as int].targets
                }),
                forall|b: int| 0 <= b < j ==> texts(names@)[b] != name@,
            decreases names@.len() - j,
        {
            assert(texts(names@)[j as int] == names@[j as int]@);
            if same_text(names[j].as_str(), name) {
                proof {
                    if refs {
                        assert(sv[i as int].references[j as int] == name@);
                    } else {
                        assert(sv[i as int].targets[j as int] == name@);
                    }
                }
                return true;
            }
            j += 1;
        }
        i += 1;
    }
    false
}

/// Does `names` hold `name`?
fn holds_name(names: &Vec<String>, name: &str) -> (found: bool)
    ensures
        found == texts(names@).contains(name@),
{
    let ghost all = texts(names@);
    let mut k: usize = 0;
    while k < names.len()
        invariant
            0 <= k <= names@.len(),
            all == texts(names@),
            forall|m: int| 0 <= m < k ==> all[m] != name@,
        decreases names@.len() - k,
    {
        assert(all[k as int] == names@[k as int]@);
        if same_text(names[k].as_str(), name) {
            return true;
        }
        k += 1;
    }
    false
}

/// The requested target names, or every leaf binding (nothing references
/// it) in definition order — minus effectful leaves, whose references
/// become targets instead (naming one explicitly is the explicit action).
/// `effectful` names the nodes whose calls are effectful.
pub fn resolve_targets(
    statements: &[TargetStatement],
    effectful: &Vec<String>,
    requested: &Vec<String>,
) -> (resolved: Result<Targets, TargetError>)
    ensures
        requested@.len() > 0 ==> match first_unbound(statement_views(statements@), texts(requested@)) {
            Some(k) => resolved matches Err(TargetError::Unknown(name)) && name@ == texts(requested@)[k],
            None => resolved matches Ok(t) && texts(t.names@) == texts(requested@)
                && t.skipped_effectful@.len() == 0,
        },
        requested@.len() == 0 ==> ({
            let (leaves, skipped) = leaves_of(
                statement_views(statements@),
                texts(effectful@),
                statements@.len(),
            );
            if leaves.len() == 0 {
                resolved matches Err(TargetError::Nothing)
            } else {
                resolved matches Ok(t) && texts(t.names@) == leaves && texts(t.skipped_effectful@) == skipped
            }
        }),
{
    let ghost sv = statement_views(statements@);
    let ghost eff = texts(effectful@);
    if requested.len() > 0 {
        let ghost req = texts(requested@);
        let mut k: usize = 0;
        while k < requested.len()
            invariant
                0 <= k <= requested@.len(),
                req == texts(requested@),
                sv == statement_views(statements@),
                first_unbound(sv, req.take(k as int)) is None,
            decreases requested@.len() - k,
        {
            assert(req[k as int] == requested@[k as int]@);
            assert(req.take(k + 1).drop_last() =~= req.take(k as int));
            assert(req.take(k + 1).last() == req[k as int]);
            if !mentions(statements, requested[k].as_str(), false) {
                proof {
                    assert(first_unbound(sv, req.take(k + 1)) == Some(k as int));
                    lemma_first_unbound_prefix(sv, req, (k + 1) as nat);
                }
                return Err(TargetError::Unknown(requested[k].clone()));
            }
            k += 1;
        }
        assert(req.take(requested@.len() as int) =~= req);
        let mut names: Vec<String> = Vec::new();
        let mut m: usize = 0;
        while m < requested.len()
            invariant
                0 <= m <= requested@.len(),
                texts(names@) == texts(requested@).take(m as int),
            decreases requested@.len() - m,
        {
            let ghost prev = names@;
            names.push(requested[m].clone());
            assert(names@ =~= prev.push(requested@[m as int]));
            assert(texts(requested@).take(m + 1) =~= texts(requested@).take(m as int).push(
                requested@[m as int]@,
            ));
            assert(texts(names@) =~= texts(prev).push(requested@[m as int]@));
            m += 1;
        }
        assert(texts(requested@).take(requested@.len() as int) =~= texts(requested@));
        return Ok(Targets { names, skipped_effectful: Vec::new() });
    }
    let mut leaves: Vec<String> = Vec::new();
    let mut skipped: Vec<String> = Vec::new();
    let mut i: usize = 0;
    assert(texts(leaves@) =~= Seq::<Seq<char>>::empty());
    assert(texts(skipped@) =~= Seq::<Seq<char>>::empty());
    while i < statements.len()
        invariant
            0 <= i <= statements@.len(),
            sv == statement_views(statements@),
            eff == texts(effectful@),
            (texts(leaves@), texts(skipped@)) == leaves_of(sv, eff, i as nat),
        decreases statements@.len() - i,
    {
        let st = &statements[i];
        let ghost s = sv[i as int];
        assert(s == statement_view(*st));
        let is_effectful = match &st.call {
            Some(c) => holds_name(effectful, c.as_str()),
            None => false,
        };
        assert(is_effectful == effectful_call(eff, s));
        let ghost start = (texts(leaves@), texts(skipped@));
        let mut j: usize = 0;
        while j < st.targets.len()
            invariant
                0 <= j <= st.targets@.len(),
                0 <= i < statements@.len(),
                sv == statement_views(statements@),
                eff == texts(effectful@),
                s == sv[i as int],
                s == statement_view(*st),
                is_effectful == effectful_call(eff, s),
                (texts(leaves@), texts(skipped@)) == statement_steps(sv, eff, s, j as nat, start),
            decreases st.targets@.len() - j,
        {
            let target = &st.targets[j];
            assert(s.targets[j as int] == target@);
            proof {
                assert(statement_steps(sv, eff, s, (j + 1) as nat, start) == target_step(
                    sv,
                    eff,
                    s,
                    s.targets[j as int],
                    statement_steps(sv, eff, s, j as nat, start),
                ));
            }
            if mentions(statements, target.as_str(), true) {
            } else if is_effectful {
                let ghost prev = skipped@;
                skipped.push(target.clone());
                assert(skipped@ =~= prev.push(*target));
                assert(texts(skipped@) =~= texts(prev).push(target@));
                add_references(&mut leaves, &st.references);
            } else if !holds_name(&leaves, target.as_str()) {
                let ghost prev = leaves@;
                leaves.push(target.clone());
                assert(leaves@ =~= prev.push(*target));
                assert(texts(leaves@) =~= texts(prev).push(target@));
            }
            j += 1;
        }
        i += 1;
    }
    if leaves.len() == 0 {
        return Err(TargetError::Nothing);
    }
    Ok(Targets { names: leaves, skipped_effectful: skipped })
}

/// Add each of `names` to `leaves` that is not there yet, in order.
fn add_references(leaves: &mut Vec<String>, names: &Vec<String>)
    ensures
        texts(final(leaves)@) == add_new(texts(old(leaves)@), texts(names@)),
{
    let ghost start = texts(leaves@);
    let mut k: usize = 0;
    assert(texts(names@).take(0) =~= Seq::<Seq<char>>::empty());
    while k < names.len()
        invariant
            0 <= k <= names@.len(),
            texts(leaves@) == add_new(start, texts(names@).take(k as int)),
        decreases names@.len() - k,
    {
        let ghost all = texts(names@);
        assert(all[k as int] == names@[k as int]@);
        assert(all.take(k + 1).drop_last() =~= all.take(k as int));
        assert(all.take(k + 1).last() == all[k as int]);
        if !holds_name(leaves, names[k].as_str()) {
            let ghost prev = leaves@;
            leaves.push(names[k].clone());
            assert(leaves@ =~= prev.push(names@[k as int]));
            assert(texts(leaves@) =~= texts(prev).push(names@[k as int]@));
        }
        k += 1;
    }
    assert(texts(names@).take(names@.len() as int) =~= texts(names@));
}

/// A first unbound name in a prefix is the first overall.
pub(crate) proof fn lemma_first_unbound_prefix(stmts: Seq<StatementView>, requested: Seq<Seq<char>>, n: nat)
    requires
        n <= requested.len(),
        first_unbound(stmts, requested.take(n as int)) is Some,
    ensures
        first_unbound(stmts, requested) == first_unbound(stmts, requested.take(n as int)),
    decreases requested.len() - n,
{
    if n < requested.len() {
        assert(requested.take(n + 1int).drop_last() =~= requested.take(n as int));
        lemma_first_unbound_prefix(stmts, requested, n + 1);
    } else {
        assert(requested.take(n as int) =~= requested);
    }
}


/// The names bound by statements that call an effectful node.
pub open spec fn effectful_names(stmts: Seq<StatementView>, effectful: Seq<Seq<char>>) -> Set<Seq<char>> {
    Set::new(
        |b: Seq<char>|
            exists|i: int|
                0 <= i < stmts.len() && effectful_call(effectful, stmts[i]) && #[trigger] stmts[i].targets.contains(b),
    )
}

/// The names bound by effectful calls (in statement order, each once).
pub fn effectful_bindings(statements: &[TargetStatement], effectful: &Vec<String>) -> (names: Vec<String>)
    ensures
        texts(names@).to_set() == effectful_names(statement_views(statements@), texts(effectful@)),
{
    let ghost sv = statement_views(statements@);
    let ghost eff = texts(effectful@);
    let mut names: Vec<String> = Vec::new();
    let mut i: usize = 0;
    while i < statements.len()
        invariant
            0 <= i <= statements@.len(),
            sv == statement_views(statements@),
            eff == texts(effectful@),
            forall|b: Seq<char>|
                #[trigger] texts(names@).contains(b) <==> exists|a: int|
                    0 <= a < i && effectful_call(eff, sv[a]) && sv[a].targets.contains(b),
        decreases statements@.len() - i,
    {
        let st = &statements[i];
        assert(sv[i as int] == statement_view(*st));
        let is_effectful = match &st.call {
            Some(c) => holds_name(effectful, c.as_str()),
            None => false,
        };
        if is_effectful {
            let ghost before = texts(names@);
            let mut t: usize = 0;
            while t < st.targets.len()
                invariant
                    0 <= t <= st.targets@.len(),
                    0 <= i < statements@.len(),
                    sv == statement_views(statements@),
                    sv[i as int] == statement_view(*st),
                    forall|b: Seq<char>|
                        #[trigger] texts(names@).contains(b) <==> before.contains(b) || exists|u: int|
                            0 <= u < t && sv[i as int].targets[u] == b,
                decreases st.targets@.len() - t,
            {
                assert(sv[i as int].targets[t as int] == st.targets@[t as int]@);
                let ghost prev = names@;
                names.push(st.targets[t].clone());
                assert(names@ =~= prev.push(st.targets@[t as int]));
                assert(texts(names@) =~= texts(prev).push(st.targets@[t as int]@));
                proof {
                    let now = texts(names@);
                    let was = texts(prev);
                    assert forall|b: Seq<char>| #[trigger] now.contains(b) <==> was.contains(b) || b == st.targets@[t as int]@ by {
                        if now.contains(b) {
                            let k = choose|k: int| 0 <= k < now.len() && now[k] == b;
                            if k < was.len() {
                                assert(was[k] == b);
                            }
                        }
                        if was.contains(b) {
                            let k = choose|k: int| 0 <= k < was.len() && was[k] == b;
                            assert(now[k] == b);
                        }
                        if b == st.targets@[t as int]@ {
                            assert(now[was.len() as int] == b);
                        }
                    }
                }
                t += 1;
            }
            proof {
                assert forall|b: Seq<char>| #[trigger] texts(names@).contains(b) <==> exists|a: int|
                    0 <= a < i + 1 && effectful_call(eff, sv[a]) && sv[a].targets.contains(b) by {
                    if sv[i as int].targets.contains(b) {
                        let u = choose|u: int| 0 <= u < sv[i as int].targets.len() && sv[i as int].targets[u] == b;
                    }
                }
            }
        } else {
            proof {
                assert forall|b: Seq<char>| #[trigger] texts(names@).contains(b) <==> exists|a: int|
                    0 <= a < i + 1 && effectful_call(eff, sv[a]) && sv[a].targets.contains(b) by {
                    if exists|a: int| 0 <= a < i + 1 && effectful_call(eff, sv[a]) && sv[a].targets.contains(b) {
                        let a = choose|a: int| 0 <= a < i + 1 && effectful_call(eff, sv[a]) && sv[a].targets.contains(b);
                        assert(a != i);
                    }
                }
            }
        }
        i += 1;
    }
    assert(texts(names@).to_set() =~= effectful_names(sv, eff));
    names
}

} // verus!
