//! Properties of registration that hold for every registry and program.
use vstd::prelude::*;

use crate::init::{run_spec, run_steps, InitError, Step};
use crate::registry::{chain, lemma_bind_wf, lemma_child, lemma_declare_wf, lemma_walk, CallError, RegistryModel};

verus! {

/// Walking the nodes that one declaration appended, from the `j`-th of them,
/// follows the rest of the created segments to the last one.
proof fn lemma_walk_chain(m1: RegistryModel, base: nat, n: nat, segs: Seq<Seq<char>>, j: nat)
    requires
        m1.wf(),
        m1.nodes.len() == base + segs.len(),
        forall|i: int| 0 <= i < segs.len() ==> m1.nodes[base + i] == chain(base, n, segs)[i],
        j < segs.len(),
    ensures
        m1.walk(base + j, segs.skip(j + 1 as int)) == ((base + segs.len() - 1) as nat, (segs.len() - j - 1) as nat),
    decreases segs.len() - j,
{
    let rest = segs.skip(j + 1 as int);
    if rest.len() > 0 {
        let c = base + j + 1;
        assert(m1.nodes[c as int] == chain(base, n, segs)[j + 1 as int]);
        assert(m1.has_child(base + j, rest[0], c as int));
        lemma_child(m1, base + j, rest[0]);
        assert(rest.drop_first() =~= segs.skip(j + 2 as int));
        lemma_walk_chain(m1, base, n, segs, j + 1);
    }
}

/// After a declaration appended the chain for the unmatched rest of `path`,
/// walking `path` from `from` follows it to the end.
proof fn lemma_walk_declared(m: RegistryModel, m1: RegistryModel, from: nat, path: Seq<Seq<char>>)
    requires
        m.wf(),
        m1.wf(),
        from < m.nodes.len(),
        m1.nodes == m.nodes + chain(m.nodes.len(), m.walk(from, path).0, path.skip(m.walk(from, path).1 as int)),
    ensures
        m1.walk(from, path) == (
            if m.walk(from, path).1 == path.len() {
                m.walk(from, path).0
            } else {
                (m1.nodes.len() - 1) as nat
            },
            path.len(),
        ),
    decreases path.len(),
{
    let base = m.nodes.len();
    let (n, k) = m.walk(from, path);
    lemma_walk(m, from, path);
    let segs = path.skip(k as int);
    if path.len() > 0 {
        lemma_child(m, from, path[0]);
        match m.child(from, path[0]) {
            Some(c) => {
                assert(m1.nodes[c as int] == m.nodes[c as int]);
                assert(m1.has_child(from, path[0], c as int));
                lemma_child(m1, from, path[0]);
                let (d, km) = m.walk(c, path.drop_first());
                assert(path.drop_first().skip(km as int) =~= segs);
                lemma_walk_declared(m, m1, c, path.drop_first());
            },
            None => {
                assert(k == 0 && n == from);
                assert(segs =~= path);
                assert(m1.nodes[base as int] == chain(base, n, segs)[0]);
                assert(m1.has_child(from, path[0], base as int));
                lemma_child(m1, from, path[0]);
                assert forall|i: int| 0 <= i < segs.len() implies m1.nodes[base + i] == chain(base, n, segs)[i] by {
                    assert(m1.nodes[base + i] == (m.nodes + chain(base, n, segs))[base + i]);
                }
                lemma_walk_chain(m1, base, n, segs, 0);
                assert(segs.skip(1) =~= path.drop_first());
            },
        }
    }
}

/// Declaring the same path twice gives the same node, and the second
/// declaration changes nothing.
pub proof fn lemma_declare_idempotent(m: RegistryModel, path: Seq<Seq<char>>)
    requires
        m.wf(),
        m.declare(path).1 is Ok,
    ensures
        m.declare(path).0.declare(path) == m.declare(path),
{
    let (m1, r) = m.declare(path);
    let id = r->Ok_0;
    lemma_declare_wf(m, path);
    lemma_walk_declared(m, m1, 0, path);
    assert(m1.walk(0, path) == (id, path.len()));
    let (m2, r2) = m1.declare(path);
    assert(path.skip(path.len() as int) =~= Seq::<Seq<char>>::empty());
    assert(m2.nodes =~= m1.nodes);
    assert(m2 == m1);
}

/// Every registry that a successful run leaves behind is a tree in which no
/// two children of a node, and no two bindings of a node, share a name.
proof fn lemma_run_steps_wf(m: RegistryModel, steps: Seq<Step>, i: nat, handles: Seq<nat>)
    requires
        m.wf(),
        handles.len() == i,
        forall|j: int| 0 <= j < i && steps[j] is Declare ==> m.is_node(#[trigger] handles[j]),
    ensures
        run_steps(m, steps, i, handles) matches Ok(r) ==> r.wf(),
    decreases steps.len() - i,
{
    if i < steps.len() {
        match steps[i as int] {
            Step::Declare { path } => {
                let p = crate::registry::names(path@);
                lemma_declare_wf(m, p);
                let (m1, r) = m.declare(p);
                if let Ok(id) = r {
                    let hs = handles.push(id);
                    assert forall|j: int| 0 <= j < i + 1 && steps[j] is Declare implies m1.is_node(#[trigger] hs[j]) by {
                        if j < i {
                            assert(hs[j] == handles[j]);
                        }
                    }
                    lemma_run_steps_wf(m1, steps, i + 1, hs);
                }
            },
            Step::Bind { target, name, arity, entry } => {
                if target < i && steps[target as int] is Declare {
                    let n = handles[target as int];
                    lemma_bind_wf(m, n, name@, arity as nat, entry);
                    let (m1, r) = m.bind(n, name@, arity as nat, entry);
                    if r is Ok {
                        let hs = handles.push(0);
                        assert forall|j: int| 0 <= j < i + 1 && steps[j] is Declare implies m1.is_node(#[trigger] hs[j]) by {
                            if j < i {
                                assert(hs[j] == handles[j]);
                            }
                        }
                        lemma_run_steps_wf(m1, steps, i + 1, hs);
                    }
                }
            },
        }
    }
}

/// After any program that runs to the end, no two children of a node share a
/// name and no two bindings of a node share an exported name.
pub proof fn lemma_run_unique(steps: Seq<Step>)
    ensures
        run_spec(steps) matches Ok(m) ==> m.children_unique() && m.bindings_unique(),
{
    lemma_run_steps_wf(RegistryModel::initial(), steps, 0, Seq::empty());
}

/// A bound function of declared arity `k` runs on exactly `k` arguments; any
/// other argument count is refused before its callable runs.
pub proof fn lemma_call_arity(m: RegistryModel, path: Seq<Seq<char>>, name: Seq<char>, args: Seq<Seq<char>>)
    requires
        m.wf(),
        m.resolve(0, path) is Some,
        m.binding(m.resolve(0, path)->Some_0, name) is Some,
    ensures
        ({
            let b = m.bindings[m.binding(m.resolve(0, path)->Some_0, name)->Some_0 as int];
            m.call(path, name, args) == if args.len() == b.arity {
                Ok::<Seq<char>, CallError>(b.entry.spec_run(args))
            } else {
                Err(CallError::WrongArgumentCount)
            }
        }),
{
}

/// Running one program twice on fresh registries ends in the same state:
/// the same registry, or a failure at the same step with the same error.
pub proof fn lemma_run_deterministic(
    steps: Seq<Step>,
    first: Result<RegistryModel, InitError>,
    second: Result<RegistryModel, InitError>,
)
    requires
        first == run_spec(steps),
        second == run_spec(steps),
    ensures
        first == second,
{
}

} // verus!
