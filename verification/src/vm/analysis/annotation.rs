//! What the analyses learn about a program: its frames (the root and each
//! function), the variables declared in them, how each variable is read,
//! written and bound by closures, and where it will be stored.
//!
//! Frames, variables and uses live in an arena, `Annotations`, and refer to
//! each other by their index there; the syntax tree holds the same indices.

use vstd::prelude::*;
use crate::lang::identifier::Identifier;

verus! {

/// A moment of the analysis: each read or write of a variable in its own frame
/// happens at a time of its own.
pub type Time = usize;

pub struct ReadVariable {
    pub time: Time,
}

pub struct WriteVariable {
    pub time: Time,
}

/// A closure created in the declaring frame at `time` binds the variable;
/// `mutable` when the closure (or one nested in it) assigns to it.
pub struct BindVariable {
    pub time: Time,
    pub mutable: bool,
}

/// Where a variable lives in the frame that declares it.
#[derive(Clone, Copy, Debug, PartialEq, Eq)]
pub enum LocalStorageType {
    Local,
    SharedLocal,
}

/// Where a variable lives in the closures that bind it.
#[derive(Clone, Copy, Debug, PartialEq, Eq)]
pub enum BoundStorageType {
    StaticBound,
    SharedBound,
}

/// A variable of an enclosing frame that a closure uses.
pub struct Binding {
    pub variable: usize,
    pub mutable: bool,
    pub storage_index: usize,
}

/// What a function frame captures from the frames around it.
pub struct Closure {
    pub created_at: Time,
    pub bindings: Vec<Binding>,
    pub n_static_bound_variables: usize,
    pub n_shared_bound_variables: usize,
}

impl Closure {
    pub fn new() -> (closure: Closure)
        ensures
            closure.created_at == 0,
            closure.bindings@.len() == 0,
            closure.n_static_bound_variables == 0,
            closure.n_shared_bound_variables == 0,
    {
        Closure {
            created_at: 0,
            bindings: Vec::new(),
            n_static_bound_variables: 0,
            n_shared_bound_variables: 0,
        }
    }
}

/// The root of a program or the body of a function.
pub struct Frame {
    pub declared_variables: Vec<usize>,
    pub functions: Vec<usize>,
    pub n_local_variables: usize,
    pub n_shared_local_variables: usize,
    pub closure: Option<Closure>,
}

impl Frame {
    /// A frame without a closure: the root of a script or of a line of input.
    pub fn new() -> (frame: Frame)
        ensures
            frame.declared_variables@.len() == 0,
            frame.functions@.len() == 0,
            frame.n_local_variables == 0,
            frame.n_shared_local_variables == 0,
            frame.closure is None,
    {
        Frame {
            declared_variables: Vec::new(),
            functions: Vec::new(),
            n_local_variables: 0,
            n_shared_local_variables: 0,
            closure: None,
        }
    }

    /// The frame of a function, with an empty closure.
    pub fn new_with_closure() -> (frame: Frame)
        ensures
            frame.declared_variables@.len() == 0,
            frame.functions@.len() == 0,
            frame.n_local_variables == 0,
            frame.n_shared_local_variables == 0,
            frame.closure matches Some(c) && c.bindings@.len() == 0 && c.created_at == 0
                && c.n_static_bound_variables == 0 && c.n_shared_bound_variables == 0,
    {
        Frame {
            declared_variables: Vec::new(),
            functions: Vec::new(),
            n_local_variables: 0,
            n_shared_local_variables: 0,
            closure: Some(Closure::new()),
        }
    }
}

/// A declared variable and everything the analyses learn of it.
pub struct Variable {
    pub name: Identifier,
    pub declared_in: usize,
    pub reads: Vec<ReadVariable>,
    pub writes: Vec<WriteVariable>,
    pub root_binds: Vec<BindVariable>,
    pub n_binds: usize,
    pub local_storage_type: LocalStorageType,
    pub local_storage_index: usize,
    pub bound_storage_type: BoundStorageType,
}

impl Variable {
    /// A variable named `name` that nothing reads, writes or binds yet, stored
    /// shared until an analysis learns better.
    pub fn new(name: Identifier, declared_in: usize) -> (variable: Variable)
        ensures
            variable.name == name,
            variable.declared_in == declared_in,
            variable.reads@.len() == 0,
            variable.writes@.len() == 0,
            variable.root_binds@.len() == 0,
            variable.n_binds == 0,
            variable.local_storage_type == LocalStorageType::SharedLocal,
            variable.local_storage_index == 0,
            variable.bound_storage_type == BoundStorageType::SharedBound,
    {
        Variable {
            name,
            declared_in,
            reads: Vec::new(),
            writes: Vec::new(),
            root_binds: Vec::new(),
            n_binds: 0,
            local_storage_type: LocalStorageType::SharedLocal,
            local_storage_index: 0,
            bound_storage_type: BoundStorageType::SharedBound,
        }
    }
}

/// A `use` statement: it makes `name` refer to what it imports.
pub struct Use {
    pub name: Identifier,
}

impl Use {
    pub fn new(name: Identifier) -> (u: Use)
        ensures
            u.name == name,
    {
        Use { name }
    }
}

/// What a bare name refers to.
#[derive(Clone, Copy, Debug, PartialEq, Eq)]
pub enum NameResolution {
    /// Nothing in scope: the name is looked up among the implicit names.
    Implicit,
    /// The `use` statement with this index.
    Use(usize),
}

#[derive(Clone, Copy, Debug, PartialEq, Eq)]
pub struct Name {
    pub resolution: NameResolution,
}

impl Name {
    pub fn new() -> (name: Name)
        ensures
            name.resolution == NameResolution::Implicit,
    {
        Name { resolution: NameResolution::Implicit }
    }
}

/// The arena of frames, variables and uses of one program.
pub struct Annotations {
    pub frames: Vec<Frame>,
    pub variables: Vec<Variable>,
    pub uses: Vec<Use>,
}

impl Annotations {
    pub fn new() -> (ann: Annotations)
        ensures
            ann.frames@.len() == 0,
            ann.variables@.len() == 0,
            ann.uses@.len() == 0,
    {
        Annotations { frames: Vec::new(), variables: Vec::new(), uses: Vec::new() }
    }

    /// Every index in the arena points into it; a frame's functions come after
    /// it; and a frame lists each of its variables once, and only variables
    /// that it declares.
    pub open spec fn wf(&self) -> bool {
        &&& forall|f: int, k: int|
            0 <= f < self.frames@.len() && 0 <= k < self.frames@[f].declared_variables@.len()
                ==> #[trigger] self.frames@[f].declared_variables@[k] < self.variables@.len()
        &&& forall|f: int, k: int|
            0 <= f < self.frames@.len() && 0 <= k < self.frames@[f].functions@.len() ==> f
                < #[trigger] self.frames@[f].functions@[k] < self.frames@.len()
        &&& forall|f: int, k: int|
            0 <= f < self.frames@.len() && self.frames@[f].closure is Some && 0 <= k
                < self.frames@[f].closure->Some_0.bindings@.len()
                ==> #[trigger] self.frames@[f].closure->Some_0.bindings@[k].variable
                < self.variables@.len()
        &&& forall|v: int|
            0 <= v < self.variables@.len() ==> #[trigger] self.variables@[v].declared_in
                < self.frames@.len()
        &&& forall|f: int, k: int|
            0 <= f < self.frames@.len() && 0 <= k < self.frames@[f].declared_variables@.len()
                ==> self.variables@[#[trigger] self.frames@[f].declared_variables@[k] as int].declared_in
                == f
        &&& forall|f: int, i: int, j: int|
            0 <= f < self.frames@.len() && 0 <= i < j < self.frames@[f].declared_variables@.len()
                ==> #[trigger] self.frames@[f].declared_variables@[i]
                != #[trigger] self.frames@[f].declared_variables@[j]
    }

    /// Adding variable `v` to the arena, declared in frame `frame` and listed
    /// last among that frame's variables, keeps the arena well formed.
    pub proof fn lemma_declare_keeps_wf(&self, after: &Annotations, frame: usize, v: usize)
        requires
            self.wf(),
            frame < self.frames@.len(),
            v == self.variables@.len(),
            after.variables@.len() == v + 1,
            forall|w: int| 0 <= w < v ==> after.variables@[w] == #[trigger] self.variables@[w],
            after.variables@[v as int].declared_in == frame,
            after.frames@.len() == self.frames@.len(),
            forall|f: int| 0 <= f < self.frames@.len() && f != frame ==> #[trigger] after.frames@[f] == self.frames@[f],
            after.frames@[frame as int].declared_variables@ == self.frames@[frame as int].declared_variables@.push(v),
            after.frames@[frame as int].functions@ == self.frames@[frame as int].functions@,
            after.frames@[frame as int].closure == self.frames@[frame as int].closure,
        ensures
            after.wf(),
    {
        assert forall|f: int, k: int|
            0 <= f < after.frames@.len() && 0 <= k < after.frames@[f].declared_variables@.len() implies {
                let w = #[trigger] after.frames@[f].declared_variables@[k];
                &&& w < after.variables@.len()
                &&& after.variables@[w as int].declared_in == f
            } by {
            if f == frame && k == after.frames@[f].declared_variables@.len() - 1 {
            } else {
                let w = self.frames@[f].declared_variables@[k];
                assert(after.frames@[f].declared_variables@[k] == w);
                assert(self.variables@[w as int].declared_in == f);
                assert(after.variables@[w as int] == self.variables@[w as int]);
            }
        }
        assert forall|f: int, k: int|
            0 <= f < after.frames@.len() && 0 <= k < after.frames@[f].functions@.len() implies f
                < #[trigger] after.frames@[f].functions@[k] < after.frames@.len() by {
            assert(after.frames@[f].functions@ == self.frames@[f].functions@);
        }
        assert forall|f: int, k: int|
            0 <= f < after.frames@.len() && after.frames@[f].closure is Some && 0 <= k
                < after.frames@[f].closure->Some_0.bindings@.len() implies
                #[trigger] after.frames@[f].closure->Some_0.bindings@[k].variable < after.variables@.len() by {
            assert(after.frames@[f].closure == self.frames@[f].closure);
        }
        assert forall|w: int| 0 <= w < after.variables@.len() implies #[trigger] after.variables@[w].declared_in
            < after.frames@.len() by {
            if w < v {
                assert(after.variables@[w] == self.variables@[w]);
            }
        }
        assert forall|f: int, i: int, j: int|
            0 <= f < after.frames@.len() && 0 <= i < j < after.frames@[f].declared_variables@.len()
                implies #[trigger] after.frames@[f].declared_variables@[i]
                != #[trigger] after.frames@[f].declared_variables@[j] by {
            if f == frame {
                let n = self.frames@[f].declared_variables@.len();
                if j == n {
                    assert(self.frames@[f].declared_variables@[i] < v);
                }
            }
        }
    }

    /// Adding a frame that declares nothing, has no functions and binds
    /// nothing keeps the arena well formed.
    pub proof fn lemma_add_frame_keeps_wf(&self, after: &Annotations, frame: Frame)
        requires
            self.wf(),
            frame.declared_variables@.len() == 0,
            frame.functions@.len() == 0,
            frame.closure is Some ==> frame.closure->Some_0.bindings@.len() == 0,
            after.frames@ == self.frames@.push(frame),
            after.variables@ == self.variables@,
            after.uses@ == self.uses@,
        ensures
            after.wf(),
    {
        let n = self.frames@.len();
        assert forall|f: int| 0 <= f < n implies #[trigger] after.frames@[f] == self.frames@[f] by {}
        assert forall|f: int, k: int|
            0 <= f < after.frames@.len() && 0 <= k < after.frames@[f].functions@.len() implies f
                < #[trigger] after.frames@[f].functions@[k] < after.frames@.len() by {
            assert(after.frames@[f] == self.frames@[f]);
        }
        assert forall|f: int, k: int|
            0 <= f < after.frames@.len() && after.frames@[f].closure is Some && 0 <= k
                < after.frames@[f].closure->Some_0.bindings@.len() implies
                #[trigger] after.frames@[f].closure->Some_0.bindings@[k].variable < after.variables@.len() by {
            assert(after.frames@[f] == self.frames@[f]);
        }
        assert forall|w: int| 0 <= w < after.variables@.len() implies #[trigger] after.variables@[w].declared_in
            < after.frames@.len() by {
            assert(after.variables@[w] == self.variables@[w]);
        }
    }
}

} // verus!
