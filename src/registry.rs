//! The namespace tree and the functions bound to its nodes.
//!
//! Nodes live in an arena: a node's identity is its index, the root is node 0,
//! and every other node names its parent, which always has a smaller index.
use vstd::prelude::*;

use crate::native::Native;

verus! {

/// Why a registration step was refused.
#[derive(Clone, Copy, Debug, PartialEq, Eq, Structural)]
pub enum RegError {
    /// A path segment names a bound function, not a namespace.
    NamespaceConflict,
    /// The exported name is already bound on the node.
    DuplicateBinding,
    /// The declared arity differs from the native callable's parameter count.
    ArityMismatch,
    /// A namespace segment or an exported name is empty.
    InvalidName,
    /// A binding step refers to no earlier namespace declaration.
    UnknownTarget,
}

/// Why a call was refused before the native callable ran.
#[derive(Clone, Copy, Debug, PartialEq, Eq, Structural)]
pub enum CallError {
    /// No namespace exists at the path.
    NoSuchNamespace,
    /// The namespace binds no function under the name.
    NoSuchFunction,
    /// The argument count differs from the declared arity.
    WrongArgumentCount,
}

/// A string result seen through the string's view.
pub open spec fn string_result(r: Result<String, CallError>) -> Result<Seq<char>, CallError> {
    match r {
        Ok(s) => Ok(s@),
        Err(e) => Err(e),
    }
}

/// A namespace node as the contracts see it.
pub struct NodeModel {
    pub name: Seq<char>,
    pub parent: Option<nat>,
}

/// A function binding as the contracts see it.
pub struct BindingModel {
    pub node: nat,
    pub name: Seq<char>,
    pub arity: nat,
    pub entry: Native,
}

/// The whole registration state as the contracts see it.
pub struct RegistryModel {
    pub nodes: Seq<NodeModel>,
    pub bindings: Seq<BindingModel>,
}

/// The views of a sequence of strings.
pub open spec fn names(v: Seq<String>) -> Seq<Seq<char>> {
    v.map_values(|s: String| s@)
}

/// The nodes appended when `segs` is created below `parent`, the first of them
/// at index `base`: each new node is the parent of the next.
pub open spec fn chain(base: nat, parent: nat, segs: Seq<Seq<char>>) -> Seq<NodeModel> {
    Seq::new(
        segs.len(),
        |j: int| NodeModel { name: segs[j], parent: Some(if j == 0 { parent } else { (base + j - 1) as nat }) },
    )
}

impl RegistryModel {
    /// The registry that holds the root alone.
    pub open spec fn initial() -> RegistryModel {
        RegistryModel { nodes: seq![NodeModel { name: Seq::empty(), parent: None }], bindings: Seq::empty() }
    }

    pub open spec fn is_node(self, n: nat) -> bool {
        n < self.nodes.len()
    }

    /// Node `i` is a child of `p` called `name`.
    pub open spec fn has_child(self, p: nat, name: Seq<char>, i: int) -> bool {
        &&& 0 <= i < self.nodes.len()
        &&& self.nodes[i].parent == Some(p)
        &&& self.nodes[i].name == name
    }

    /// Binding `k` is on node `n` under `name`.
    pub open spec fn has_binding_at(self, n: nat, name: Seq<char>, k: int) -> bool {
        &&& 0 <= k < self.bindings.len()
        &&& self.bindings[k].node == n
        &&& self.bindings[k].name == name
    }

    pub open spec fn has_binding(self, n: nat, name: Seq<char>) -> bool {
        exists|k: int| self.has_binding_at(n, name, k)
    }

    /// No two children of a node share a name.
    pub open spec fn children_unique(self) -> bool {
        forall|i: int, j: int|
            0 <= i < self.nodes.len() && 0 <= j < self.nodes.len() && i != j
                && self.nodes[i].parent is Some && self.nodes[i].parent == self.nodes[j].parent
                ==> self.nodes[i].name != self.nodes[j].name
    }

    /// No two bindings of a node share an exported name.
    pub open spec fn bindings_unique(self) -> bool {
        forall|i: int, j: int|
            0 <= i < self.bindings.len() && 0 <= j < self.bindings.len() && i != j
                && self.bindings[i].node == self.bindings[j].node
                ==> self.bindings[i].name != self.bindings[j].name
    }

    /// The registry is a tree rooted at node 0, both uniqueness rules hold, and
    /// each binding's arity is its callable's parameter count.
    pub open spec fn wf(self) -> bool {
        &&& self.nodes.len() >= 1
        &&& self.nodes[0].parent is None
        &&& forall|i: int| #![trigger self.nodes[i]]
            1 <= i < self.nodes.len() ==> self.nodes[i].parent is Some && self.nodes[i].parent->0 < i
        &&& forall|k: int| #![trigger self.bindings[k]]
            0 <= k < self.bindings.len() ==> self.bindings[k].node < self.nodes.len()
                && self.bindings[k].arity == self.bindings[k].entry.spec_param_count()
        &&& self.children_unique()
        &&& self.bindings_unique()
    }

    /// The child of `p` called `name`, if there is one.
    pub open spec fn child(self, p: nat, name: Seq<char>) -> Option<nat> {
        if exists|i: int| self.has_child(p, name, i) {
            Some((choose|i: int| self.has_child(p, name, i)) as nat)
        } else {
            None
        }
    }

    /// The binding of `n` called `name`, if there is one.
    pub open spec fn binding(self, n: nat, name: Seq<char>) -> Option<nat> {
        if self.has_binding(n, name) {
            Some((choose|k: int| self.has_binding_at(n, name, k)) as nat)
        } else {
            None
        }
    }

    /// Follows `path` from `from` through existing children as far as it goes:
    /// the node reached and the number of segments followed.
    pub open spec fn walk(self, from: nat, path: Seq<Seq<char>>) -> (nat, nat)
        decreases path.len(),
    {
        if path.len() == 0 {
            (from, 0)
        } else {
            match self.child(from, path[0]) {
                Some(c) => {
                    let (d, m) = self.walk(c, path.drop_first());
                    (d, m + 1)
                },
                None => (from, 0),
            }
        }
    }

    /// The node that `path` names below `from`, if every segment exists.
    pub open spec fn resolve(self, from: nat, path: Seq<Seq<char>>) -> Option<nat> {
        let (d, m) = self.walk(from, path);
        if m == path.len() {
            Some(d)
        } else {
            None
        }
    }

    /// Declares `path` below the root: existing segments are followed, the
    /// missing ones are created, and the node at the end is returned.
    pub open spec fn declare(self, path: Seq<Seq<char>>) -> (RegistryModel, Result<nat, RegError>) {
        if exists|k: int| 0 <= k < path.len() && path[k].len() == 0 {
            (self, Err(RegError::InvalidName))
        } else {
            let (n, k) = self.walk(0, path);
            if k < path.len() && self.has_binding(n, path[k as int]) {
                (self, Err(RegError::NamespaceConflict))
            } else {
                let segs = path.skip(k as int);
                let nodes = self.nodes + chain(self.nodes.len(), n, segs);
                let id = if segs.len() == 0 { n } else { (nodes.len() - 1) as nat };
                (RegistryModel { nodes, bindings: self.bindings }, Ok(id))
            }
        }
    }

    /// What a call of the function `name` on the namespace at `path` gives.
    pub open spec fn call(self, path: Seq<Seq<char>>, name: Seq<char>, args: Seq<Seq<char>>) -> Result<Seq<char>, CallError> {
        match self.resolve(0, path) {
            None => Err(CallError::NoSuchNamespace),
            Some(n) => match self.binding(n, name) {
                None => Err(CallError::NoSuchFunction),
                Some(k) => {
                    let b = self.bindings[k as int];
                    if args.len() != b.arity {
                        Err(CallError::WrongArgumentCount)
                    } else {
                        Ok(b.entry.spec_run(args))
                    }
                },
            },
        }
    }

    /// Binds `entry` on node `n` under `name` with the declared `arity`.
    pub open spec fn bind(self, n: nat, name: Seq<char>, arity: nat, entry: Native) -> (
        RegistryModel,
        Result<(), RegError>,
    ) {
        if name.len() == 0 {
            (self, Err(RegError::InvalidName))
        } else if self.has_binding(n, name) {
            (self, Err(RegError::DuplicateBinding))
        } else if arity != entry.spec_param_count() {
            (self, Err(RegError::ArityMismatch))
        } else {
            let b = BindingModel { node: n, name, arity, entry };
            (RegistryModel { nodes: self.nodes, bindings: self.bindings.push(b) }, Ok(()))
        }
    }
}

/// `child` names the one child of `p` called `name`, which has a larger index
/// than `p`, or says that there is none.
pub proof fn lemma_child(m: RegistryModel, p: nat, name: Seq<char>)
    requires
        m.wf(),
    ensures
        match m.child(p, name) {
            Some(c) => m.has_child(p, name, c as int) && p < c,
            None => forall|i: int| !m.has_child(p, name, i),
        },
        forall|i: int| #[trigger] m.has_child(p, name, i) ==> m.child(p, name) == Some(i as nat),
{
    if exists|i: int| m.has_child(p, name, i) {
        let c = choose|i: int| m.has_child(p, name, i);
        assert(c != 0);
        assert(m.nodes[c].parent is Some);
    }
}

/// `binding` names the one binding of `n` called `name`, or says that there is
/// none.
pub proof fn lemma_binding(m: RegistryModel, n: nat, name: Seq<char>)
    requires
        m.wf(),
    ensures
        match m.binding(n, name) {
            Some(k) => m.has_binding_at(n, name, k as int),
            None => !m.has_binding(n, name),
        },
        forall|k: int| #[trigger] m.has_binding_at(n, name, k) ==> m.binding(n, name) == Some(k as nat),
{
}

/// What a walk reaches: a node at or below `from`, strictly below when a
/// segment was followed, and one without a child for the next segment.
pub proof fn lemma_walk(m: RegistryModel, from: nat, path: Seq<Seq<char>>)
    requires
        m.wf(),
        from < m.nodes.len(),
    ensures
        m.walk(from, path).1 <= path.len(),
        from <= m.walk(from, path).0 < m.nodes.len(),
        m.walk(from, path).1 > 0 ==> from < m.walk(from, path).0,
        m.walk(from, path).1 < path.len() ==> m.child(m.walk(from, path).0, path[m.walk(from, path).1 as int]) is None,
    decreases path.len(),
{
    if path.len() > 0 {
        lemma_child(m, from, path[0]);
        match m.child(from, path[0]) {
            Some(c) => {
                lemma_walk(m, c, path.drop_first());
            },
            None => {},
        }
    }
}

/// Declaring a path keeps the registry a tree with unique names.
pub proof fn lemma_declare_wf(m: RegistryModel, path: Seq<Seq<char>>)
    requires
        m.wf(),
    ensures
        m.declare(path).0.wf(),
        m.declare(path).0.nodes.len() >= m.nodes.len(),
        m.declare(path).0.nodes.subrange(0, m.nodes.len() as int) == m.nodes,
        m.declare(path).1 matches Ok(id) ==> m.declare(path).0.is_node(id),
{
    if !(exists|k: int| 0 <= k < path.len() && path[k].len() == 0) {
        let (n, k) = m.walk(0, path);
        lemma_walk(m, 0, path);
        if !(k < path.len() && m.has_binding(n, path[k as int])) {
            let segs = path.skip(k as int);
            let base = m.nodes.len();
            let c = chain(base, n, segs);
            let m1 = m.declare(path).0;
            assert(m1.nodes == m.nodes + c);
            assert(m1.nodes.subrange(0, base as int) =~= m.nodes);
            assert forall|i: int| #![trigger m1.nodes[i]]
                1 <= i < m1.nodes.len() implies m1.nodes[i].parent is Some && m1.nodes[i].parent->0 < i by {
                if i >= base {
                    assert(m1.nodes[i] == c[i - base]);
                }
            }
            assert forall|i: int, j: int|
                0 <= i < m1.nodes.len() && 0 <= j < m1.nodes.len() && i != j
                    && m1.nodes[i].parent is Some && m1.nodes[i].parent == m1.nodes[j].parent
                implies m1.nodes[i].name != m1.nodes[j].name by {
                if i >= base && j >= base {
                    assert(m1.nodes[i] == c[i - base]);
                    assert(m1.nodes[j] == c[j - base]);
                } else if i >= base {
                    assert(m1.nodes[i] == c[i - base]);
                    assert(m1.nodes[j] == m.nodes[j]);
                    lemma_child(m, n, path[k as int]);
                    assert(!m.has_child(n, path[k as int], j));
                } else if j >= base {
                    assert(m1.nodes[j] == c[j - base]);
                    assert(m1.nodes[i] == m.nodes[i]);
                    lemma_child(m, n, path[k as int]);
                    assert(!m.has_child(n, path[k as int], i));
                } else {
                    assert(m1.nodes[i] == m.nodes[i]);
                    assert(m1.nodes[j] == m.nodes[j]);
                }
            }
        }
    }
}

/// Binding a function keeps the registry a tree with unique names.
pub proof fn lemma_bind_wf(m: RegistryModel, n: nat, name: Seq<char>, arity: nat, entry: Native)
    requires
        m.wf(),
        m.is_node(n),
    ensures
        m.bind(n, name, arity, entry).0.wf(),
{
    let m1 = m.bind(n, name, arity, entry).0;
    if m1.bindings.len() > m.bindings.len() {
        assert forall|i: int, j: int|
            0 <= i < m1.bindings.len() && 0 <= j < m1.bindings.len() && i != j
                && m1.bindings[i].node == m1.bindings[j].node
            implies m1.bindings[i].name != m1.bindings[j].name by {
            if i == m.bindings.len() {
                assert(!m.has_binding_at(n, name, j));
            } else if j == m.bindings.len() {
                assert(!m.has_binding_at(n, name, i));
            }
        }
        assert forall|k: int| #![trigger m1.bindings[k]]
            0 <= k < m1.bindings.len() implies m1.bindings[k].node < m1.nodes.len()
                && m1.bindings[k].arity == m1.bindings[k].entry.spec_param_count() by {
            if k < m.bindings.len() {
                assert(m1.bindings[k] == m.bindings[k]);
            }
        }
    }
}

/// A namespace node: its name and the node that holds it (none for the root).
#[derive(Debug)]
pub struct NamespaceNode {
    pub name: String,
    pub parent: Option<usize>,
}

impl View for NamespaceNode {
    type V = NodeModel;

    open spec fn view(&self) -> NodeModel {
        NodeModel {
            name: self.name@,
            parent: match self.parent {
                Some(p) => Some(p as nat),
                None => None,
            },
        }
    }
}

/// A native callable attached to a node under an exported name and arity.
#[derive(Debug)]
pub struct Binding {
    pub node: usize,
    pub name: String,
    pub arity: usize,
    pub entry: Native,
}

impl View for Binding {
    type V = BindingModel;

    open spec fn view(&self) -> BindingModel {
        BindingModel { node: self.node as nat, name: self.name@, arity: self.arity as nat, entry: self.entry }
    }
}

/// The namespace tree with its bindings. Node 0 is the root.
#[derive(Debug)]
pub struct Registry {
    nodes: Vec<NamespaceNode>,
    bindings: Vec<Binding>,
}

/// A result with its node index seen as a `nat`.
pub open spec fn id_result(r: Result<usize, RegError>) -> Result<nat, RegError> {
    match r {
        Ok(id) => Ok(id as nat),
        Err(e) => Err(e),
    }
}

impl View for Registry {
    type V = RegistryModel;

    closed spec fn view(&self) -> RegistryModel {
        RegistryModel {
            nodes: self.nodes@.map_values(|x: NamespaceNode| x@),
            bindings: self.bindings@.map_values(|b: Binding| b@),
        }
    }
}

impl Registry {
    /// A registry that holds the root alone.
    pub fn new() -> (r: Registry)
        ensures
            r@ == RegistryModel::initial(),
            r@.wf(),
    {
        let root = NamespaceNode { name: String::new(), parent: None };
        let r = Registry { nodes: vec![root], bindings: Vec::new() };
        assert(r@.nodes =~= RegistryModel::initial().nodes);
        assert(r@.bindings =~= RegistryModel::initial().bindings);
        r
    }

    /// The root node.
    pub fn root(&self) -> (r: usize)
        requires
            self@.wf(),
        ensures
            r == 0,
            self@.is_node(r as nat),
    {
        0
    }

    /// Whether `n` is a node of this registry.
    pub fn contains_node(&self, n: usize) -> (r: bool)
        ensures
            r == self@.is_node(n as nat),
    {
        n < self.nodes.len()
    }

    /// The nodes, in the order they were created.
    pub fn nodes(&self) -> (r: &Vec<NamespaceNode>)
        ensures
            r@.map_values(|x: NamespaceNode| x@) == self@.nodes,
    {
        &self.nodes
    }

    /// The bindings, in the order they were made.
    pub fn bindings(&self) -> (r: &Vec<Binding>)
        ensures
            r@.map_values(|b: Binding| b@) == self@.bindings,
    {
        &self.bindings
    }

    /// The child of `p` called `name`, if there is one.
    pub fn find_child(&self, p: usize, name: &String) -> (r: Option<usize>)
        requires
            self@.wf(),
        ensures
            id_option(r) == self@.child(p as nat, name@),
    {
        proof {
            lemma_child(self@, p as nat, name@);
        }
        let mut i: usize = 1;
        while i < self.nodes.len()
            invariant
                self@.wf(),
                1 <= i <= self.nodes.len(),
                forall|j: int| 0 <= j < i ==> !self@.has_child(p as nat, name@, j),
            decreases self.nodes.len() - i,
        {
            let node = &self.nodes[i];
            assert(self@.nodes[i as int] == node@);
            match node.parent {
                Some(q) => {
                    if q == p && node.name == *name {
                        assert(self@.has_child(p as nat, name@, i as int));
                        return Some(i);
                    }
                },
                None => {},
            }
            i = i + 1;
        }
        None
    }

    /// The index of the binding of `n` called `name`, if there is one.
    pub fn find_binding(&self, n: usize, name: &String) -> (r: Option<usize>)
        requires
            self@.wf(),
        ensures
            id_option(r) == self@.binding(n as nat, name@),
    {
        proof {
            lemma_binding(self@, n as nat, name@);
        }
        let mut k: usize = 0;
        while k < self.bindings.len()
            invariant
                self@.wf(),
                0 <= k <= self.bindings.len(),
                forall|j: int| 0 <= j < k ==> !self@.has_binding_at(n as nat, name@, j),
            decreases self.bindings.len() - k,
        {
            let b = &self.bindings[k];
            assert(self@.bindings[k as int] == b@);
            if b.node == n && b.name == *name {
                assert(self@.has_binding_at(n as nat, name@, k as int));
                return Some(k);
            }
            k = k + 1;
        }
        None
    }
    /// Follows `path` from the root through existing children as far as it
    /// goes: the node reached and the number of segments followed.
    fn walk_path(&self, path: &Vec<String>) -> (r: (usize, usize))
        requires
            self@.wf(),
        ensures
            self@.walk(0, names(path@)) == (r.0 as nat, r.1 as nat),
            self@.is_node(r.0 as nat),
            r.1 <= path.len(),
    {
        let ghost p = names(path@);
        let mut cur: usize = 0;
        let mut k: usize = 0;
        assert(p.skip(0) =~= p);
        while k < path.len()
            invariant
                self@.wf(),
                0 <= k <= path.len(),
                p == names(path@),
                self@.is_node(cur as nat),
                self@.walk(0, p) == ({
                    let (d, m) = self@.walk(cur as nat, p.skip(k as int));
                    (d, (m + k) as nat)
                }),
            ensures
                self@.walk(cur as nat, p.skip(k as int)) == (cur as nat, 0nat),
            decreases path.len() - k,
        {
            let ghost rest = p.skip(k as int);
            assert(rest[0] == p[k as int]);
            assert(rest.drop_first() =~= p.skip(k + 1));
            match self.find_child(cur, &path[k]) {
                Some(c) => {
                    proof {
                        lemma_child(self@, cur as nat, p[k as int]);
                    }
                    cur = c;
                    k = k + 1;
                },
                None => {
                    assert(self@.walk(cur as nat, rest) == (cur as nat, 0nat));
                    break;
                },
            }
        }
        (cur, k)
    }

    /// The node that `path` names below the root, if every segment exists.
    pub fn find_namespace(&self, path: &Vec<String>) -> (r: Option<usize>)
        requires
            self@.wf(),
        ensures
            id_option(r) == self@.resolve(0, names(path@)),
    {
        let (d, m) = self.walk_path(path);
        if m == path.len() {
            Some(d)
        } else {
            None
        }
    }

    /// Calls the function bound under `name` on the namespace at `path` with
    /// `args`. A call with an argument count other than the declared arity is
    /// refused before the native callable runs.
    pub fn invoke(&self, path: &Vec<String>, name: &String, args: &Vec<String>) -> (r: Result<String, CallError>)
        requires
            self@.wf(),
        ensures
            string_result(r) == self@.call(names(path@), name@, names(args@)),
    {
        let n = match self.find_namespace(path) {
            Some(n) => n,
            None => {
                return Err(CallError::NoSuchNamespace);
            },
        };
        proof {
            lemma_walk(self@, 0, names(path@));
            lemma_binding(self@, n as nat, name@);
        }
        let k = match self.find_binding(n, name) {
            Some(k) => k,
            None => {
                return Err(CallError::NoSuchFunction);
            },
        };
        let b = &self.bindings[k];
        assert(self@.bindings[k as int] == b@);
        if args.len() != b.arity {
            return Err(CallError::WrongArgumentCount);
        }
        Ok(b.entry.run(args))
    }

    /// Walks `path` from the root, creating each missing segment, and returns
    /// the node at its end. Nothing changes when the path is refused.
    pub fn declare_namespace(&mut self, path: &Vec<String>) -> (r: Result<usize, RegError>)
        requires
            old(self)@.wf(),
        ensures
            final(self)@.wf(),
            (final(self)@, id_result(r)) == old(self)@.declare(names(path@)),
    {
        let ghost p = names(path@);
        proof {
            lemma_declare_wf(self@, p);
        }
        let mut e: usize = 0;
        while e < path.len()
            invariant
                self@ == old(self)@,
                self@.wf(),
                0 <= e <= path.len(),
                p == names(path@),
                forall|j: int| 0 <= j < e ==> p[j].len() != 0,
            decreases path.len() - e,
        {
            assert(p[e as int] == path@[e as int]@);
            if path[e].as_str().unicode_len() == 0 {
                return Err(RegError::InvalidName);
            }
            e = e + 1;
        }
        let (w, v) = self.walk_path(path);
        let mut cur: usize = w;
        let mut k: usize = v;
        let ghost n = cur as nat;
        let ghost k0 = k as nat;
        if k < path.len() {
            match self.find_binding(cur, &path[k]) {
                Some(_) => {
                    proof {
                        lemma_binding(self@, n, p[k as int]);
                    }
                    return Err(RegError::NamespaceConflict);
                },
                None => {
                    proof {
                        lemma_binding(self@, n, p[k as int]);
                    }
                },
            }
        }
        let ghost old_m = self@;
        let ghost segs = p.skip(k as int);
        let ghost base = old_m.nodes.len();
        while k < path.len()
            invariant
                k0 <= k <= path.len(),
                p == names(path@),
                segs == p.skip(k0 as int),
                base == old_m.nodes.len(),
                base >= 1,
                self@.bindings == old_m.bindings,
                self@.nodes =~= old_m.nodes + chain(base, n, segs).take(k - k0),
                cur as nat == if k == k0 { n } else { (self@.nodes.len() - 1) as nat },
            decreases path.len() - k,
        {
            let ghost before = self@;
            let node = NamespaceNode { name: path[k].clone(), parent: Some(cur) };
            self.nodes.push(node);
            assert(self@.nodes =~= before.nodes.push(node@));
            assert(chain(base, n, segs).take(k + 1 - k0) =~= chain(base, n, segs).take(k - k0).push(node@));
            cur = self.nodes.len() - 1;
            k = k + 1;
        }
        assert(chain(base, n, segs).take(k - k0) =~= chain(base, n, segs));
        assert(self@.bindings =~= old_m.declare(p).0.bindings);
        Ok(cur)
    }

    /// Binds `entry` on node `n` under `name` with the declared `arity`.
    /// Nothing changes when the binding is refused.
    pub fn bind_function(&mut self, n: usize, name: &String, arity: usize, entry: Native) -> (r: Result<(), RegError>)
        requires
            old(self)@.wf(),
            old(self)@.is_node(n as nat),
        ensures
            final(self)@.wf(),
            (final(self)@, r) == old(self)@.bind(n as nat, name@, arity as nat, entry),
    {
        proof {
            lemma_bind_wf(self@, n as nat, name@, arity as nat, entry);
            lemma_binding(self@, n as nat, name@);
        }
        if name.as_str().unicode_len() == 0 {
            return Err(RegError::InvalidName);
        }
        if self.find_binding(n, name).is_some() {
            return Err(RegError::DuplicateBinding);
        }
        if arity != entry.param_count() {
            return Err(RegError::ArityMismatch);
        }
        let ghost before = self@;
        let b = Binding { node: n, name: name.clone(), arity, entry };
        self.bindings.push(b);
        assert(self@.bindings =~= before.bindings.push(b@));
        Ok(())
    }
}

/// An optional index seen as a `nat`.
pub open spec fn id_option(r: Option<usize>) -> Option<nat> {
    match r {
        Some(id) => Some(id as nat),
        None => None,
    }
}

} // verus!
