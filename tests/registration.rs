use servactory::{
    hello, initialize, registration_program, run_program, CallError, InitError, Native, RegError, Registry, Step,
};

fn strings(v: &[&str]) -> Vec<String> {
    v.iter().map(|s| s.to_string()).collect()
}

fn declare(path: &[&str]) -> Step {
    Step::Declare { path: strings(path) }
}

fn bind(target: usize, name: &str, arity: usize) -> Step {
    Step::Bind { target, name: name.to_string(), arity, entry: Native::Hello }
}

fn init_error(r: Result<Registry, InitError>) -> InitError {
    match r {
        Ok(_) => panic!("the program was expected to fail"),
        Err(e) => e,
    }
}

#[test]
fn hello_greets_its_subject() {
    assert_eq!(hello("World"), "Hello from Rust, World!");
    assert_eq!(hello(""), "Hello from Rust, !");
}

#[test]
fn native_runs_on_its_arguments() {
    assert_eq!(Native::Hello.param_count(), 1);
    assert_eq!(Native::Hello.run(&strings(&["Ruby"])), "Hello from Rust, Ruby!");
}

#[test]
fn initialize_exposes_hello() {
    let reg = initialize().unwrap();
    let r = reg.invoke(&strings(&["Servactory", "HelloRust"]), &"hello".to_string(), &strings(&["World"]));
    assert_eq!(r, Ok("Hello from Rust, World!".to_string()));
}

#[test]
fn initialize_builds_the_namespace_tree() {
    let reg = initialize().unwrap();
    let nodes = reg.nodes();
    assert_eq!(nodes.len(), 3);
    assert_eq!(nodes[1].name, "Servactory");
    assert_eq!(nodes[1].parent, Some(0));
    assert_eq!(nodes[2].name, "HelloRust");
    assert_eq!(nodes[2].parent, Some(1));
    let bindings = reg.bindings();
    assert_eq!(bindings.len(), 1);
    assert_eq!(bindings[0].node, 2);
    assert_eq!(bindings[0].name, "hello");
    assert_eq!(bindings[0].arity, 1);
    assert_eq!(bindings[0].entry, Native::Hello);
}

#[test]
fn duplicate_binding_fails_initialization() {
    let steps = vec![declare(&["Servactory", "HelloRust"]), bind(0, "hello", 1), bind(0, "hello", 1)];
    let e = init_error(run_program(&steps));
    assert_eq!(e, InitError { step: 2, error: RegError::DuplicateBinding });
}

#[test]
fn same_path_twice_shares_one_node() {
    let steps = vec![declare(&["Outer", "Inner"]), declare(&["Outer", "Inner"]), bind(0, "hello", 1), bind(1, "greet", 1)];
    let reg = run_program(&steps).unwrap();
    assert_eq!(reg.nodes().len(), 3);
    let path = strings(&["Outer", "Inner"]);
    let args = strings(&["A"]);
    assert_eq!(reg.invoke(&path, &"hello".to_string(), &args), Ok("Hello from Rust, A!".to_string()));
    assert_eq!(reg.invoke(&path, &"greet".to_string(), &args), Ok("Hello from Rust, A!".to_string()));
    assert_eq!(reg.bindings()[0].node, reg.bindings()[1].node);
}

#[test]
fn declare_twice_returns_the_same_node() {
    let mut reg = Registry::new();
    let path = strings(&["Outer", "Inner"]);
    let first = reg.declare_namespace(&path).unwrap();
    let count = reg.nodes().len();
    let second = reg.declare_namespace(&path).unwrap();
    assert_eq!(first, second);
    assert_eq!(reg.nodes().len(), count);
}

#[test]
fn shared_prefix_creates_only_the_rest() {
    let mut reg = Registry::new();
    let b = reg.declare_namespace(&strings(&["A", "B"])).unwrap();
    let c = reg.declare_namespace(&strings(&["A", "C"])).unwrap();
    assert_eq!(b, 2);
    assert_eq!(c, 3);
    assert_eq!(reg.nodes()[3].parent, Some(1));
    assert_eq!(reg.find_namespace(&strings(&["A"])), Some(1));
    assert_eq!(reg.find_namespace(&strings(&["A", "C"])), Some(3));
    assert_eq!(reg.find_namespace(&strings(&["A", "D"])), None);
}

#[test]
fn empty_path_names_the_root() {
    let mut reg = Registry::new();
    assert_eq!(reg.declare_namespace(&Vec::new()), Ok(reg.root()));
    assert_eq!(reg.nodes().len(), 1);
}

#[test]
fn children_and_bindings_stay_unique() {
    let steps = vec![
        declare(&["A", "B"]),
        declare(&["A"]),
        declare(&["A", "B"]),
        declare(&["C", "B"]),
        bind(0, "x", 1),
        bind(3, "x", 1),
        bind(1, "x", 1),
    ];
    let reg = run_program(&steps).unwrap();
    let nodes = reg.nodes();
    for i in 0..nodes.len() {
        for j in 0..nodes.len() {
            if i != j && nodes[i].parent.is_some() && nodes[i].parent == nodes[j].parent {
                assert_ne!(nodes[i].name, nodes[j].name);
            }
        }
    }
    let bindings = reg.bindings();
    assert_eq!(bindings.len(), 3);
    for i in 0..bindings.len() {
        for j in 0..bindings.len() {
            if i != j && bindings[i].node == bindings[j].node {
                assert_ne!(bindings[i].name, bindings[j].name);
            }
        }
    }
}

#[test]
fn wrong_argument_count_is_refused() {
    let reg = initialize().unwrap();
    let path = strings(&["Servactory", "HelloRust"]);
    let name = "hello".to_string();
    assert_eq!(reg.invoke(&path, &name, &Vec::new()), Err(CallError::WrongArgumentCount));
    assert_eq!(reg.invoke(&path, &name, &strings(&["a", "b"])), Err(CallError::WrongArgumentCount));
}

#[test]
fn unknown_names_are_refused() {
    let reg = initialize().unwrap();
    let args = strings(&["World"]);
    assert_eq!(
        reg.invoke(&strings(&["Servactory", "Missing"]), &"hello".to_string(), &args),
        Err(CallError::NoSuchNamespace)
    );
    assert_eq!(
        reg.invoke(&strings(&["Servactory"]), &"hello".to_string(), &args),
        Err(CallError::NoSuchFunction)
    );
}

#[test]
fn rerunning_a_program_ends_the_same_way() {
    let a = initialize().unwrap();
    let b = initialize().unwrap();
    assert_eq!(format!("{:?}", a), format!("{:?}", b));
    let failing = vec![declare(&["A"]), bind(0, "f", 1), bind(0, "f", 1)];
    assert_eq!(init_error(run_program(&failing)), init_error(run_program(&failing)));
}

#[test]
fn namespace_over_a_function_conflicts() {
    let mut reg = Registry::new();
    let root = reg.root();
    assert_eq!(reg.bind_function(root, &"Inner".to_string(), 1, Native::Hello), Ok(()));
    assert_eq!(reg.declare_namespace(&strings(&["Inner", "Deeper"])), Err(RegError::NamespaceConflict));
    assert_eq!(reg.nodes().len(), 1);
}

#[test]
fn empty_names_are_refused() {
    let mut reg = Registry::new();
    assert_eq!(reg.declare_namespace(&strings(&["A", ""])), Err(RegError::InvalidName));
    assert_eq!(reg.nodes().len(), 1);
    let root = reg.root();
    assert_eq!(reg.bind_function(root, &String::new(), 1, Native::Hello), Err(RegError::InvalidName));
    assert!(reg.bindings().is_empty());
}

#[test]
fn arity_mismatch_is_refused() {
    let steps = vec![declare(&["A"]), bind(0, "hello", 2)];
    assert_eq!(init_error(run_program(&steps)), InitError { step: 1, error: RegError::ArityMismatch });
}

#[test]
fn binding_needs_an_earlier_declaration() {
    let forward = vec![bind(1, "hello", 1), declare(&["A"])];
    assert_eq!(init_error(run_program(&forward)), InitError { step: 0, error: RegError::UnknownTarget });
    let onto_bind = vec![declare(&["A"]), bind(0, "f", 1), bind(1, "g", 1)];
    assert_eq!(init_error(run_program(&onto_bind)), InitError { step: 2, error: RegError::UnknownTarget });
}

#[test]
fn failure_stops_at_the_first_bad_step() {
    let steps = vec![declare(&["A"]), declare(&["B", ""]), bind(0, "f", 2)];
    assert_eq!(init_error(run_program(&steps)), InitError { step: 1, error: RegError::InvalidName });
}

#[test]
fn registration_program_declares_then_binds() {
    let steps = registration_program();
    assert_eq!(steps.len(), 2);
    assert!(matches!(&steps[0], Step::Declare { path } if path == &strings(&["Servactory", "HelloRust"])));
    assert!(matches!(&steps[1], Step::Bind { target: 0, name, arity: 1, entry: Native::Hello } if name == "hello"));
}

#[test]
fn lookups_on_a_fresh_registry() {
    let reg = Registry::new();
    assert!(reg.contains_node(0));
    assert!(!reg.contains_node(1));
    assert_eq!(reg.find_child(0, &"A".to_string()), None);
    assert_eq!(reg.find_binding(0, &"f".to_string()), None);
}
