//! Runs a registration program in order and stops at the first failure.
use vstd::prelude::*;

use crate::native::{greeting, Native};
use vstd::string::StringExecFns;
use crate::registry::{names, CallError, NodeModel, RegError, Registry, RegistryModel, lemma_child, lemma_binding};

verus! {

/// One step of a registration program.
#[derive(Debug)]
pub enum Step {
    /// Declares a namespace path below the root.
    Declare { path: Vec<String> },
    /// Binds a callable on the node that the `Declare` step at index `target`
    /// produced.
    Bind { target: usize, name: String, arity: usize, entry: Native },
}

/// The step that failed and why.
#[derive(Clone, Copy, Debug, PartialEq, Eq, Structural)]
pub struct InitError {
    pub step: usize,
    pub error: RegError,
}

/// The outcome of running `steps` from index `i` on `m`, where `handles[j]`
/// is the node that step `j` produced.
pub open spec fn run_steps(m: RegistryModel, steps: Seq<Step>, i: nat, handles: Seq<nat>) -> Result<
    RegistryModel,
    InitError,
>
    decreases steps.len() - i,
{
    if i >= steps.len() {
        Ok(m)
    } else {
        match steps[i as int] {
            Step::Declare { path } => {
                let (m1, r) = m.declare(names(path@));
                match r {
                    Ok(id) => run_steps(m1, steps, i + 1, handles.push(id)),
                    Err(e) => Err(InitError { step: i as usize, error: e }),
                }
            },
            Step::Bind { target, name, arity, entry } => {
                if target >= i || !(steps[target as int] is Declare) {
                    Err(InitError { step: i as usize, error: RegError::UnknownTarget })
                } else {
                    let (m1, r) = m.bind(handles[target as int], name@, arity as nat, entry);
                    match r {
                        Ok(_) => run_steps(m1, steps, i + 1, handles.push(0)),
                        Err(e) => Err(InitError { step: i as usize, error: e }),
                    }
                }
            },
        }
    }
}

/// The outcome of running a whole program on a fresh registry.
pub open spec fn run_spec(steps: Seq<Step>) -> Result<RegistryModel, InitError> {
    run_steps(RegistryModel::initial(), steps, 0, Seq::empty())
}

/// A registry result seen through the registry's view.
pub open spec fn registry_result(r: Result<Registry, InitError>) -> Result<RegistryModel, InitError> {
    match r {
        Ok(reg) => Ok(reg@),
        Err(e) => Err(e),
    }
}

/// Runs `steps` in order on a fresh registry. The first step that fails ends
/// the run, and its error is returned in place of the registry.
pub fn run_program(steps: &Vec<Step>) -> (r: Result<Registry, InitError>)
    ensures
        registry_result(r) == run_spec(steps@),
        r matches Ok(reg) ==> reg@.wf(),
{
    let mut reg = Registry::new();
    let mut handles: Vec<usize> = Vec::new();
    let mut i: usize = 0;
    assert(handles@.map_values(|h: usize| h as nat) =~= Seq::<nat>::empty());
    while i < steps.len()
        invariant
            reg@.wf(),
            0 <= i <= steps.len(),
            handles.len() == i,
            run_spec(steps@) == run_steps(reg@, steps@, i as nat, handles@.map_values(|h: usize| h as nat)),
            forall|j: int| 0 <= j < i && steps@[j] is Declare ==> reg@.is_node(handles@[j] as nat),
        decreases steps.len() - i,
    {
        let ghost hs = handles@.map_values(|h: usize| h as nat);
        let ghost before = reg@;
        match &steps[i] {
            Step::Declare { path } => {
                proof {
                    crate::registry::lemma_declare_wf(reg@, names(path@));
                }
                match reg.declare_namespace(path) {
                    Ok(id) => {
                        handles.push(id);
                        assert(handles@.map_values(|h: usize| h as nat) =~= hs.push(id as nat));
                        assert forall|j: int| 0 <= j < i + 1 && steps@[j] is Declare implies reg@.is_node(
                            handles@[j] as nat,
                        ) by {
                            if j < i {
                                assert(before.is_node(handles@[j] as nat));
                            }
                        }
                    },
                    Err(e) => {
                        return Err(InitError { step: i, error: e });
                    },
                }
            },
            Step::Bind { target, name, arity, entry } => {
                let t = *target;
                if t >= i || !matches!(steps[t], Step::Declare { .. }) {
                    return Err(InitError { step: i, error: RegError::UnknownTarget });
                }
                assert(hs[t as int] == handles@[t as int] as nat);
                match reg.bind_function(handles[t], name, *arity, *entry) {
                    Ok(()) => {
                        handles.push(0);
                        assert(handles@.map_values(|h: usize| h as nat) =~= hs.push(0));
                        assert forall|j: int| 0 <= j < i + 1 && steps@[j] is Declare implies reg@.is_node(
                            handles@[j] as nat,
                        ) by {
                            if j < i {
                                assert(before.is_node(handles@[j] as nat));
                            }
                        }
                    },
                    Err(e) => {
                        return Err(InitError { step: i, error: e });
                    },
                }
            },
        }
        i = i + 1;
    }
    Ok(reg)
}

/// The namespace path that the extension declares.
pub open spec fn hello_path() -> Seq<Seq<char>> {
    seq!["Servactory"@, "HelloRust"@]
}

/// `steps` declares `hello_path()` and binds `hello`, of arity one, on it.
pub open spec fn is_hello_program(steps: Seq<Step>) -> bool {
    &&& steps.len() == 2
    &&& steps[0] matches Step::Declare { path } && names(path@) == hello_path()
    &&& steps[1] matches Step::Bind { target, name, arity, entry } && target == 0 && name@ == "hello"@
        && arity == 1 && entry == Native::Hello
}

/// The extension's registration program: the namespace `Servactory::HelloRust`
/// with the function `hello`, of arity one.
pub fn registration_program() -> (r: Vec<Step>)
    ensures
        is_hello_program(r@),
{
    let path = vec![String::from_str("Servactory"), String::from_str("HelloRust")];
    assert(names(path@) =~= hello_path());
    vec![Step::Declare { path }, Step::Bind { target: 0, name: String::from_str("hello"), arity: 1, entry: Native::Hello }]
}

/// Running the extension's registration program succeeds, and then
/// `Servactory::HelloRust::hello` greets its one argument and refuses any
/// other argument count.
pub proof fn lemma_hello_program(steps: Seq<Step>)
    requires
        is_hello_program(steps),
    ensures
        run_spec(steps) is Ok,
        forall|args: Seq<Seq<char>>| #[trigger]
            run_spec(steps)->Ok_0.call(hello_path(), "hello"@, args) == if args.len() == 1 {
                Ok::<Seq<char>, CallError>(greeting(args[0]))
            } else {
                Err(CallError::WrongArgumentCount)
            },
{
    reveal_strlit("Servactory");
    reveal_strlit("HelloRust");
    reveal_strlit("hello");
    let m0 = RegistryModel::initial();
    let p = hello_path();
    let root = NodeModel { name: Seq::empty(), parent: None };
    let s = NodeModel { name: p[0], parent: Some(0) };
    let h = NodeModel { name: p[1], parent: Some(1) };
    assert(m0.child(0, p[0]) is None);
    assert(m0.walk(0, p) == (0nat, 0nat));
    assert(!m0.has_binding(0, p[0]));
    assert(p.skip(0) =~= p);
    let m1 = m0.declare(p).0;
    assert(m1.nodes =~= seq![root, s, h]);
    assert(m0.declare(p).1 == Ok::<nat, RegError>(2));
    crate::registry::lemma_declare_wf(m0, p);
    let b = crate::registry::BindingModel { node: 2, name: "hello"@, arity: 1, entry: Native::Hello };
    let m2 = m1.bind(2, "hello"@, 1, Native::Hello).0;
    assert(m2.bindings =~= seq![b]);
    crate::registry::lemma_bind_wf(m1, 2, "hello"@, 1, Native::Hello);
    let hs1 = Seq::<nat>::empty().push(2);
    assert(m1.bind(hs1[0], "hello"@, 1, Native::Hello).1 is Ok);
    assert(run_steps(m2, steps, 2, hs1.push(0)) == Ok::<RegistryModel, InitError>(m2));
    assert(run_steps(m1, steps, 1, hs1) == run_steps(m2, steps, 2, hs1.push(0)));
    assert(run_steps(m0, steps, 0, Seq::empty()) == run_steps(m1, steps, 1, hs1));
    assert(m2.has_child(0, p[0], 1));
    lemma_child(m2, 0, p[0]);
    assert(m2.has_child(1, p[1], 2));
    lemma_child(m2, 1, p[1]);
    assert(p.drop_first().drop_first() =~= Seq::<Seq<char>>::empty());
    assert(m2.walk(2, p.drop_first().drop_first()) == (2nat, 0nat));
    assert(m2.walk(1, p.drop_first()) == (2nat, 1nat));
    assert(m2.resolve(0, p) == Some(2nat));
    assert(m2.has_binding_at(2, "hello"@, 0));
    lemma_binding(m2, 2, "hello"@);
}

/// Runs the extension's registration program on a fresh registry and hands
/// back the root of the resulting tree.
pub fn initialize() -> (r: Result<Registry, InitError>)
    ensures
        r matches Ok(reg) && reg@.wf() && forall|args: Seq<Seq<char>>| #[trigger]
            reg@.call(hello_path(), "hello"@, args) == if args.len() == 1 {
                Ok::<Seq<char>, CallError>(greeting(args[0]))
            } else {
                Err(CallError::WrongArgumentCount)
            },
{
    let steps = registration_program();
    proof {
        lemma_hello_program(steps@);
    }
    run_program(&steps)
}

} // verus!
