//! Storage allocation: decides, from what name resolution recorded, whether
//! each variable can live in a plain local slot or must be shared with the
//! closures that bind it, and numbers the slots of each frame and closure.

use vstd::prelude::*;
use crate::vm::analysis::annotation::{
    Annotations,
    Frame,
    Variable,
    Binding,
    Closure,
    LocalStorageType,
    BoundStorageType,
};
use crate::vm::error::AnalysisError;
use crate::parse::node::Root;
use crate::vm::repl::State;
use crate::vm::analysis::linkage::same_links;

verus! {

// WHERE A VARIABLE LIVES //////////////////////////////////////////////////////////////////////////

/// The variable is written in its own frame after time `t`.
pub open spec fn written_after(v: Variable, t: usize) -> bool {
    exists|k: int| 0 <= k < v.writes@.len() && #[trigger] v.writes@[k].time > t
}

/// The variable is read in its own frame after time `t`.
pub open spec fn read_after(v: Variable, t: usize) -> bool {
    exists|k: int| 0 <= k < v.reads@.len() && #[trigger] v.reads@[k].time > t
}

/// Where a variable declared in the program itself (not carried over from
/// earlier interactive input) is stored, in its frame and in its closures:
/// - no closure binds it: a local slot (its bound storage is left as it was);
/// - its frame writes it after the first closure that binds it was created:
///   shared;
/// - several closures bind it and one of them assigns to it: shared, so that
///   they all see one cell;
/// - a single closure binds it and assigns to it: shared if its frame reads it
///   after that closure was created, else a local slot in its frame and a
///   shared slot in the closure;
/// - otherwise nothing can change it after it is bound: a local slot, and a
///   static copy in each closure.
pub open spec fn storage_types(v: Variable) -> (LocalStorageType, BoundStorageType) {
    if v.root_binds@.len() == 0 {
        (LocalStorageType::Local, v.bound_storage_type)
    } else {
        let t = v.root_binds@[0].time;
        if written_after(v, t) {
            (LocalStorageType::SharedLocal, BoundStorageType::SharedBound)
        } else if v.root_binds@.len() >= 2 && exists|k: int| 0 <= k < v.root_binds@.len() && #[trigger] v.root_binds@[k].mutable {
            (LocalStorageType::SharedLocal, BoundStorageType::SharedBound)
        } else if v.root_binds@.len() == 1 && v.root_binds@[0].mutable {
            if read_after(v, t) {
                (LocalStorageType::SharedLocal, BoundStorageType::SharedBound)
            } else {
                (LocalStorageType::Local, BoundStorageType::SharedBound)
            }
        } else {
            (LocalStorageType::Local, BoundStorageType::StaticBound)
        }
    }
}

/// `new` is `old` with only its storage types and index changed.
pub open spec fn same_but_storage(old: Variable, new: Variable) -> bool {
    &&& new.name == old.name
    &&& new.declared_in == old.declared_in
    &&& new.reads@ == old.reads@
    &&& new.writes@ == old.writes@
    &&& new.root_binds@ == old.root_binds@
    &&& new.n_binds == old.n_binds
}

fn written_after_exec(variable: &Variable, t: usize) -> (r: bool)
    ensures
        r == written_after(*variable, t),
{
    let mut k: usize = 0;
    while k < variable.writes.len()
        invariant
            k <= variable.writes@.len(),
            forall|j: int| 0 <= j < k ==> variable.writes@[j].time <= t,
        decreases variable.writes@.len() - k,
    {
        if variable.writes[k].time > t {
            return true;
        }
        k += 1;
    }
    false
}

fn read_after_exec(variable: &Variable, t: usize) -> (r: bool)
    ensures
        r == read_after(*variable, t),
{
    let mut k: usize = 0;
    while k < variable.reads.len()
        invariant
            k <= variable.reads@.len(),
            forall|j: int| 0 <= j < k ==> variable.reads@[j].time <= t,
        decreases variable.reads@.len() - k,
    {
        if variable.reads[k].time > t {
            return true;
        }
        k += 1;
    }
    false
}

/// Decides where `variable` is stored (see `storage_types`).
fn determine_variable_storage_types(variable: &mut Variable)
    ensures
        same_but_storage(*old(variable), *final(variable)),
        final(variable).local_storage_index == old(variable).local_storage_index,
        (final(variable).local_storage_type, final(variable).bound_storage_type) == storage_types(*old(variable)),
{
    let n = variable.root_binds.len();
    if n == 0 {
        variable.local_storage_type = LocalStorageType::Local;
    } else if n == 1 {
        let only_bind_time = variable.root_binds[0].time;
        let only_bind_mutable = variable.root_binds[0].mutable;
        if written_after_exec(variable, only_bind_time) {
            // The variable is assigned to after binding.
            variable.local_storage_type = LocalStorageType::SharedLocal;
            variable.bound_storage_type = BoundStorageType::SharedBound;
            return;
        }
        if !only_bind_mutable {
            // The variable is never assigned to after binding: it is
            // effectively immutable.
            variable.local_storage_type = LocalStorageType::Local;
            variable.bound_storage_type = BoundStorageType::StaticBound;
            return;
        }
        if read_after_exec(variable, only_bind_time) {
            // The binding function assigns to the variable, and the declaring
            // frame reads it after binding.
            variable.local_storage_type = LocalStorageType::SharedLocal;
            variable.bound_storage_type = BoundStorageType::SharedBound;
            return;
        }
        // In the declaring frame the variable is dead after binding, so it can
        // be local; the binding functions share it, since they assign to it.
        variable.local_storage_type = LocalStorageType::Local;
        variable.bound_storage_type = BoundStorageType::SharedBound;
    } else {
        let mut r: usize = 0;
        while r < variable.root_binds.len()
            invariant
                r <= variable.root_binds@.len(),
                *variable == *old(variable),
                variable.root_binds@.len() >= 2,
                forall|j: int| 0 <= j < r ==> !variable.root_binds@[j].mutable,
            decreases variable.root_binds@.len() - r,
        {
            if variable.root_binds[r].mutable {
                // Several bindings, and at least one of them assigns: they
                // all share one cell.
                assert(old(variable).root_binds@[r as int].mutable);
                variable.local_storage_type = LocalStorageType::SharedLocal;
                variable.bound_storage_type = BoundStorageType::SharedBound;
                return;
            }
            r += 1;
        }
        let first_bind_time = variable.root_binds[0].time;
        if written_after_exec(variable, first_bind_time) {
            // The variable is assigned to after a binding.
            variable.local_storage_type = LocalStorageType::SharedLocal;
            variable.bound_storage_type = BoundStorageType::SharedBound;
            return;
        }
        // The variable is never assigned to after binding: it is effectively
        // immutable.
        variable.local_storage_type = LocalStorageType::Local;
        variable.bound_storage_type = BoundStorageType::StaticBound;
    }
}

} // verus!

verus! {

// THE TARGETS OF ALLOCATION ///////////////////////////////////////////////////////////////////////

/// Variable `v` was carried over from earlier interactive input: it is one of
/// the first `n_repl` variables of the root frame `root`.
pub open spec fn carried_over(ann: &Annotations, root: int, n_repl: int, v: usize) -> bool {
    exists|i: int|
        0 <= i < n_repl && 0 <= i < ann.frames@[root].declared_variables@.len()
            && #[trigger] ann.frames@[root].declared_variables@[i] == v
}

/// Where allocation stores variable `v` of the arena `ann`, as it was before
/// allocation: carried-over variables are shared, the others follow
/// `storage_types`.
pub open spec fn target_types(ann: &Annotations, root: int, n_repl: int, v: usize) -> (
    LocalStorageType,
    BoundStorageType,
) {
    if carried_over(ann, root, n_repl, v) {
        (LocalStorageType::SharedLocal, BoundStorageType::SharedBound)
    } else {
        storage_types(ann.variables@[v as int])
    }
}

/// How many of the first `i` variables of `list` allocation stores with local
/// storage type `t`: the slot number of the next one.
pub open spec fn local_rank(ann: &Annotations, root: int, n_repl: int, list: Seq<usize>, i: int, t: LocalStorageType) -> nat
    decreases i,
{
    if i <= 0 {
        0
    } else {
        local_rank(ann, root, n_repl, list, i - 1, t) + if target_types(ann, root, n_repl, list[i - 1]).0 == t {
            1nat
        } else {
            0nat
        }
    }
}

/// In `now`, frame `g` is allocated as planned from `before`: each of its
/// variables has its planned storage types and, among the variables of its
/// storage type, the slot given by its position; and the frame counts the
/// slots of each kind.
pub open spec fn frame_allocated(before: &Annotations, root: int, n_repl: int, now: &Annotations, g: int) -> bool {
    let list = before.frames@[g].declared_variables@;
    &&& forall|i: int| 0 <= i < list.len() ==> #[trigger] variable_allocated(before, root, n_repl, now, g, i)
    &&& now.frames@[g].n_local_variables == local_rank(before, root, n_repl, list, list.len() as int, LocalStorageType::Local)
    &&& now.frames@[g].n_shared_local_variables == local_rank(
        before,
        root,
        n_repl,
        list,
        list.len() as int,
        LocalStorageType::SharedLocal,
    )
}

/// The slot numbers of the first `i` variables of `list` never exceed `i`.
proof fn lemma_local_rank_bound(ann: &Annotations, root: int, n_repl: int, list: Seq<usize>, i: int, t: LocalStorageType)
    requires
        0 <= i,
    ensures
        local_rank(ann, root, n_repl, list, i, t) <= i,
    decreases i,
{
    if i > 0 {
        lemma_local_rank_bound(ann, root, n_repl, list, i - 1, t);
    }
}

} // verus!

verus! {

/// `path` leads from frame `path[0]` down through nested functions: each of
/// its frames is a function of the one before.
pub open spec fn function_path(ann: &Annotations, path: Seq<usize>) -> bool {
    &&& path.len() >= 1
    &&& path[0] < ann.frames@.len()
    &&& forall|i: int|
        1 <= i < path.len() ==> ann.frames@[path[i - 1] as int].functions@.contains(#[trigger] path[i])
            && path[i] < ann.frames@.len()
}

/// Frame `g` is frame `f` or a function nested (at any depth) in it.
pub open spec fn nested_in(ann: &Annotations, f: usize, g: usize) -> bool {
    exists|path: Seq<usize>| function_path(ann, path) && path[0] == f && path.last() == g
}

/// Every frame is nested in itself.
pub proof fn lemma_nested_self(ann: &Annotations, f: usize)
    requires
        f < ann.frames@.len(),
    ensures
        nested_in(ann, f, f),
{
    let path = seq![f];
    assert(function_path(ann, path) && path[0] == f && path.last() == f);
}

} // verus!

verus! {

// THE ANALYSIS ////////////////////////////////////////////////////////////////////////////////////

/// Variable `list[i]` of frame `g` holds, in `now`, its planned storage and
/// slot.
pub open spec fn variable_allocated(before: &Annotations, root: int, n_repl: int, now: &Annotations, g: int, i: int) -> bool {
    let v = before.frames@[g].declared_variables@[i];
    let t = target_types(before, root, n_repl, v);
    &&& now.variables@[v as int].local_storage_type == t.0
    &&& now.variables@[v as int].bound_storage_type == t.1
    &&& index_planned(before, root, n_repl, now, g, i)
}

/// Variable `list[i]` of frame `g` holds, in `now`, its planned slot.
pub open spec fn index_planned(before: &Annotations, root: int, n_repl: int, now: &Annotations, g: int, i: int) -> bool {
    let list = before.frames@[g].declared_variables@;
    let v = list[i];
    now.variables@[v as int].local_storage_index == local_rank(before, root, n_repl, list, i,
        target_types(before, root, n_repl, v).0)
}

/// From `entry` to `now`, allocation only moved storage towards its plan:
/// everything but storage is as in `before`, and each variable and frame
/// either kept its storage or got the planned one.
#[verifier::opaque]
pub open spec fn toward_plan(before: &Annotations, root: int, n_repl: int, entry: &Annotations, now: &Annotations) -> bool {
    &&& now.variables@.len() == before.variables@.len()
    &&& now.frames@.len() == before.frames@.len()
    &&& now.uses@ == before.uses@
    &&& forall|w: int| 0 <= w < before.variables@.len() ==> same_but_storage(before.variables@[w], #[trigger] now.variables@[w])
    &&& forall|g: int| 0 <= g < before.frames@.len() ==> {
        &&& (#[trigger] now.frames@[g]).declared_variables@ == before.frames@[g].declared_variables@
        &&& now.frames@[g].functions@ == before.frames@[g].functions@
        &&& (now.frames@[g].closure is Some <==> before.frames@[g].closure is Some)
        &&& (now.frames@[g].closure matches Some(c) ==> c.bindings@.len() == before.frames@[g].closure->Some_0.bindings@.len()
            && forall|b: int| 0 <= b < c.bindings@.len() ==> #[trigger] c.bindings@[b].variable == before.frames@[g].closure->Some_0.bindings@[b].variable)
    }
    &&& forall|w: int| 0 <= w < before.variables@.len() ==> {
        ||| (#[trigger] now.variables@[w]).local_storage_type == entry.variables@[w].local_storage_type
            && now.variables@[w].bound_storage_type == entry.variables@[w].bound_storage_type
        ||| now.variables@[w].local_storage_type == target_types(before, root, n_repl, w as usize).0
            && now.variables@[w].bound_storage_type == target_types(before, root, n_repl, w as usize).1
    }
    &&& forall|w: int| 0 <= w < before.variables@.len() ==> {
        ||| (#[trigger] now.variables@[w]).local_storage_index == entry.variables@[w].local_storage_index
        ||| exists|g: int, i: int| 0 <= g < before.frames@.len() && 0 <= i < before.frames@[g].declared_variables@.len()
            && before.frames@[g].declared_variables@[i] == w && #[trigger] index_planned(before, root, n_repl, now, g, i)
    }
    &&& forall|g: int| 0 <= g < before.frames@.len() ==> {
        ||| (#[trigger] now.frames@[g]).n_local_variables == entry.frames@[g].n_local_variables
            && now.frames@[g].n_shared_local_variables == entry.frames@[g].n_shared_local_variables
        ||| now.frames@[g].n_local_variables == local_rank(before, root, n_repl, before.frames@[g].declared_variables@,
                before.frames@[g].declared_variables@.len() as int, LocalStorageType::Local)
            && now.frames@[g].n_shared_local_variables == local_rank(before, root, n_repl, before.frames@[g].declared_variables@,
                before.frames@[g].declared_variables@.len() as int, LocalStorageType::SharedLocal)
    }
}

struct FrameCounts {
    n_local_variables: usize,
    n_shared_local_variables: usize,
}

/// The state of storage allocation while it walks the frames of a program:
/// the slot counters of the frames it is in.
pub struct AnalyzeAllocation {
    frames: Vec<FrameCounts>,
    pub errors: Vec<AnalysisError>,
}

impl AnalyzeAllocation {
    pub fn new() -> (r: AnalyzeAllocation)
        ensures
            r.is_idle(),
    {
        AnalyzeAllocation { frames: Vec::new(), errors: Vec::new() }
    }

    /// The analysis is in no frame.
    pub closed spec fn is_idle(&self) -> bool {
        self.frames@.len() == 0
    }

    fn push_frame(&mut self)
        ensures
            final(self).frames@ == old(self).frames@.push(FrameCounts {
                n_local_variables: 0,
                n_shared_local_variables: 0,
            }),
    {
        self.frames.push(FrameCounts { n_local_variables: 0, n_shared_local_variables: 0 });
    }

    fn pop_frame(&mut self)
        requires
            old(self).frames@.len() >= 1,
        ensures
            final(self).frames@ == old(self).frames@.drop_last(),
    {
        self.frames.pop();
    }
}

} // verus!

verus! {

/// Moving towards the plan twice is moving towards it.
proof fn lemma_toward_plan_trans(before: &Annotations, root: int, n_repl: int, a: &Annotations, b: &Annotations, c: &Annotations)
    requires
        toward_plan(before, root, n_repl, a, b),
        toward_plan(before, root, n_repl, b, c),
    ensures
        toward_plan(before, root, n_repl, a, c),
{
    reveal(toward_plan);
    assert forall|w: int| 0 <= w < before.variables@.len() implies {
        ||| (#[trigger] c.variables@[w]).local_storage_index == a.variables@[w].local_storage_index
        ||| exists|g: int, i: int| 0 <= g < before.frames@.len() && 0 <= i < before.frames@[g].declared_variables@.len()
            && before.frames@[g].declared_variables@[i] == w && #[trigger] index_planned(before, root, n_repl, c, g, i)
    } by {
        if c.variables@[w].local_storage_index == b.variables@[w].local_storage_index
            && b.variables@[w].local_storage_index != a.variables@[w].local_storage_index {
            let (g, i) = choose|g: int, i: int| 0 <= g < before.frames@.len() && 0 <= i < before.frames@[g].declared_variables@.len()
                && before.frames@[g].declared_variables@[i] == w && #[trigger] index_planned(before, root, n_repl, b, g, i);
            assert(index_planned(before, root, n_repl, c, g, i));
        }
    }
    assert forall|w: int| 0 <= w < before.variables@.len() implies {
        ||| (#[trigger] c.variables@[w]).local_storage_type == a.variables@[w].local_storage_type
            && c.variables@[w].bound_storage_type == a.variables@[w].bound_storage_type
        ||| c.variables@[w].local_storage_type == target_types(before, root, n_repl, w as usize).0
            && c.variables@[w].bound_storage_type == target_types(before, root, n_repl, w as usize).1
    } by {
        assert(b.variables@[w] == b.variables@[w]);
    }
    assert forall|g: int| 0 <= g < before.frames@.len() implies {
        ||| (#[trigger] c.frames@[g]).n_local_variables == a.frames@[g].n_local_variables
            && c.frames@[g].n_shared_local_variables == a.frames@[g].n_shared_local_variables
        ||| c.frames@[g].n_local_variables == local_rank(before, root, n_repl, before.frames@[g].declared_variables@,
                before.frames@[g].declared_variables@.len() as int, LocalStorageType::Local)
            && c.frames@[g].n_shared_local_variables == local_rank(before, root, n_repl, before.frames@[g].declared_variables@,
                before.frames@[g].declared_variables@.len() as int, LocalStorageType::SharedLocal)
    } by {
        assert(b.frames@[g] == b.frames@[g]);
    }
}

/// A variable that holds its planned storage keeps it while allocation goes on.
proof fn lemma_variable_allocated_stays(before: &Annotations, root: int, n_repl: int, a: &Annotations, b: &Annotations, g: int, i: int)
    requires
        before.wf(),
        0 <= g < before.frames@.len(),
        0 <= i < before.frames@[g].declared_variables@.len(),
        variable_allocated(before, root, n_repl, a, g, i),
        toward_plan(before, root, n_repl, a, b),
    ensures
        variable_allocated(before, root, n_repl, b, g, i),
{
    reveal(toward_plan);
    let list = before.frames@[g].declared_variables@;
    let v = list[i];
    assert(v < before.variables@.len());
    assert(b.variables@[v as int] == b.variables@[v as int]);
    if b.variables@[v as int].local_storage_index != a.variables@[v as int].local_storage_index {
        let (g2, i2) = choose|g2: int, i2: int| 0 <= g2 < before.frames@.len() && 0 <= i2 < before.frames@[g2].declared_variables@.len()
            && before.frames@[g2].declared_variables@[i2] == v && #[trigger] index_planned(before, root, n_repl, b, g2, i2);
        assert(before.variables@[v as int].declared_in == g2);
        assert(before.variables@[v as int].declared_in == g);
        if i2 < i {
            assert(list[i2] != list[i]);
        } else if i < i2 {
            assert(list[i] != list[i2]);
        }
    }
}

/// What allocation plans for a frame stays so while allocation goes on.
proof fn lemma_allocated_stays(before: &Annotations, root: int, n_repl: int, a: &Annotations, b: &Annotations, g: int)
    requires
        before.wf(),
        0 <= g < before.frames@.len(),
        frame_allocated(before, root, n_repl, a, g),
        toward_plan(before, root, n_repl, a, b),
    ensures
        frame_allocated(before, root, n_repl, b, g),
{
    let list = before.frames@[g].declared_variables@;
    assert forall|i: int| 0 <= i < list.len() implies variable_allocated(before, root, n_repl, b, g, i) by {
        assert(variable_allocated(before, root, n_repl, a, g, i));
        lemma_variable_allocated_stays(before, root, n_repl, a, b, g, i);
    }
    reveal(toward_plan);
    assert(b.frames@[g] == b.frames@[g]);
}

/// A frame nested in `f`, other than `f`, is nested in one of its functions.
proof fn lemma_nested_step(ann: &Annotations, f: usize, g: usize)
    requires
        nested_in(ann, f, g),
        f != g,
    ensures
        exists|k: int| 0 <= k < ann.frames@[f as int].functions@.len() && #[trigger] nested_in(ann, ann.frames@[f as int].functions@[k], g),
{
    let path = choose|path: Seq<usize>| function_path(ann, path) && path[0] == f && path.last() == g;
    assert(path.len() >= 2);
    let p1 = path[1];
    assert(ann.frames@[path[0] as int].functions@.contains(p1));
    let k = choose|k: int| 0 <= k < ann.frames@[f as int].functions@.len() && ann.frames@[f as int].functions@[k] == p1;
    let rest = path.skip(1);
    assert(function_path(ann, rest)) by {
        assert forall|i: int| 1 <= i < rest.len() implies ann.frames@[rest[i - 1] as int].functions@.contains(#[trigger] rest[i])
            && rest[i] < ann.frames@.len() by {
            assert(rest[i] == path[i + 1]);
            assert(rest[i - 1] == path[i]);
            let x = path[i + 1];
        }
        assert(rest[0] == p1);
    }
    assert(rest.last() == g);
    assert(nested_in(ann, ann.frames@[f as int].functions@[k], g));
}

} // verus!

verus! {

/// How many of the first `b` bindings of `bindings` bind a variable (of
/// `vars`) with bound storage type `t`: the slot number of the next one.
pub open spec fn bound_rank(vars: Seq<Variable>, bindings: Seq<Binding>, b: int, t: BoundStorageType) -> nat
    decreases b,
{
    if b <= 0 {
        0
    } else {
        bound_rank(vars, bindings, b - 1, t) + if vars[bindings[b - 1].variable as int].bound_storage_type == t {
            1nat
        } else {
            0nat
        }
    }
}

proof fn lemma_bound_rank_bound(vars: Seq<Variable>, bindings: Seq<Binding>, b: int, t: BoundStorageType)
    requires
        0 <= b,
    ensures
        bound_rank(vars, bindings, b, t) <= b,
    decreases b,
{
    if b > 0 {
        lemma_bound_rank_bound(vars, bindings, b - 1, t);
    }
}

/// `bound_rank` reads of the bindings only which variable each binds.
proof fn lemma_bound_rank_same_variables(vars: Seq<Variable>, a: Seq<Binding>, b: Seq<Binding>, n: int, t: BoundStorageType)
    requires
        0 <= n <= a.len(),
        n <= b.len(),
        forall|k: int| 0 <= k < n ==> #[trigger] a[k].variable == b[k].variable,
    ensures
        bound_rank(vars, a, n, t) == bound_rank(vars, b, n, t),
    decreases n,
{
    if n > 0 {
        lemma_bound_rank_same_variables(vars, a, b, n - 1, t);
    }
}

/// In `now`, the closure of frame `g`, if it has one, has its bound slots
/// numbered: each binding has, among the bindings of variables with its bound
/// storage type, the slot given by its position, from 0; and the closure
/// counts the static and the shared bound slots.
pub open spec fn closure_allocated(now: &Annotations, g: int) -> bool {
    now.frames@[g].closure matches Some(c) ==> {
        &&& forall|b: int| 0 <= b < c.bindings@.len() ==> (#[trigger] c.bindings@[b]).storage_index == bound_rank(
            now.variables@, c.bindings@, b, now.variables@[c.bindings@[b].variable as int].bound_storage_type)
        &&& c.n_static_bound_variables == bound_rank(now.variables@, c.bindings@, c.bindings@.len() as int,
            BoundStorageType::StaticBound)
        &&& c.n_shared_bound_variables == bound_rank(now.variables@, c.bindings@, c.bindings@.len() as int,
            BoundStorageType::SharedBound)
    }
}

/// Numbers the bound slots of a closure: among its bindings of variables
/// stored statically (or shared) in closures, in order, from 0; and records
/// how many of each there are.
fn analyze_closure(variables: &Vec<Variable>, closure: &mut Closure)
    requires
        forall|b: int| 0 <= b < old(closure).bindings@.len() ==> (#[trigger] old(closure).bindings@[b]).variable < variables@.len(),
    ensures
        final(closure).created_at == old(closure).created_at,
        final(closure).bindings@.len() == old(closure).bindings@.len(),
        forall|b: int| 0 <= b < final(closure).bindings@.len() ==> {
            let bi = #[trigger] final(closure).bindings@[b];
            &&& bi.variable == old(closure).bindings@[b].variable
            &&& bi.mutable == old(closure).bindings@[b].mutable
            &&& bi.storage_index == bound_rank(variables@, old(closure).bindings@, b,
                variables@[bi.variable as int].bound_storage_type)
        },
        final(closure).n_static_bound_variables == bound_rank(variables@, old(closure).bindings@,
            old(closure).bindings@.len() as int, BoundStorageType::StaticBound),
        final(closure).n_shared_bound_variables == bound_rank(variables@, old(closure).bindings@,
            old(closure).bindings@.len() as int, BoundStorageType::SharedBound),
{
    let ghost bindings = closure.bindings@;
    let mut n_static: usize = 0;
    let mut n_shared: usize = 0;
    let mut b: usize = 0;
    while b < closure.bindings.len()
        invariant
            b <= closure.bindings@.len(),
            closure.bindings@.len() == bindings.len(),
            bindings == old(closure).bindings@,
            closure.created_at == old(closure).created_at,
            forall|j: int| 0 <= j < bindings.len() ==> (#[trigger] bindings[j]).variable < variables@.len(),
            forall|j: int| 0 <= j < closure.bindings@.len() ==> (#[trigger] closure.bindings@[j]).variable == bindings[j].variable
                && closure.bindings@[j].mutable == bindings[j].mutable,
            forall|j: int| 0 <= j < b ==> (#[trigger] closure.bindings@[j]).storage_index == bound_rank(variables@, bindings, j,
                variables@[bindings[j].variable as int].bound_storage_type),
            n_static == bound_rank(variables@, bindings, b as int, BoundStorageType::StaticBound),
            n_shared == bound_rank(variables@, bindings, b as int, BoundStorageType::SharedBound),
        decreases closure.bindings@.len() - b,
    {
        proof {
            lemma_bound_rank_bound(variables@, bindings, b as int, BoundStorageType::StaticBound);
            lemma_bound_rank_bound(variables@, bindings, b as int, BoundStorageType::SharedBound);
        }
        let v = closure.bindings[b].variable;
        match variables[v].bound_storage_type {
            BoundStorageType::StaticBound => {
                closure.bindings[b].storage_index = n_static;
                n_static += 1;
            },
            BoundStorageType::SharedBound => {
                closure.bindings[b].storage_index = n_shared;
                n_shared += 1;
            },
        }
        b += 1;
    }
    closure.n_static_bound_variables = n_static;
    closure.n_shared_bound_variables = n_shared;
}

} // verus!

verus! {

/// The storage of nothing but variable `v` changed from `a` to `b`.
pub open spec fn only_variable_changed(a: &Annotations, b: &Annotations, v: usize) -> bool {
    &&& b.variables@.len() == a.variables@.len()
    &&& forall|w: int| 0 <= w < a.variables@.len() && w != v ==> #[trigger] b.variables@[w] == a.variables@[w]
    &&& same_but_storage(a.variables@[v as int], b.variables@[v as int])
    &&& b.frames@ == a.frames@
    &&& b.uses@ == a.uses@
}

/// Giving variable `v` its planned storage types moves towards the plan.
proof fn lemma_toward_types(before: &Annotations, root: int, n_repl: int, a: &Annotations, b: &Annotations, v: usize)
    requires
        toward_plan(before, root, n_repl, before, a),
        v < a.variables@.len(),
        only_variable_changed(a, b, v),
        b.variables@[v as int].local_storage_index == a.variables@[v as int].local_storage_index,
        b.variables@[v as int].local_storage_type == target_types(before, root, n_repl, v).0,
        b.variables@[v as int].bound_storage_type == target_types(before, root, n_repl, v).1,
    ensures
        toward_plan(before, root, n_repl, a, b),
        toward_plan(before, root, n_repl, before, b),
{
    reveal(toward_plan);
    assert forall|w: int| 0 <= w < before.variables@.len() implies same_but_storage(before.variables@[w], #[trigger] b.variables@[w]) by {
        assert(same_but_storage(before.variables@[w], a.variables@[w]));
    }
    assert forall|w: int| 0 <= w < before.variables@.len() implies {
        ||| (#[trigger] b.variables@[w]).local_storage_index == before.variables@[w].local_storage_index
        ||| exists|g: int, i: int| 0 <= g < before.frames@.len() && 0 <= i < before.frames@[g].declared_variables@.len()
            && before.frames@[g].declared_variables@[i] == w && #[trigger] index_planned(before, root, n_repl, b, g, i)
    } by {
        if a.variables@[w].local_storage_index != before.variables@[w].local_storage_index {
            let (g, i) = choose|g: int, i: int| 0 <= g < before.frames@.len() && 0 <= i < before.frames@[g].declared_variables@.len()
                && before.frames@[g].declared_variables@[i] == w && #[trigger] index_planned(before, root, n_repl, a, g, i);
            assert(index_planned(before, root, n_repl, b, g, i));
        }
    }
    assert forall|w: int| 0 <= w < before.variables@.len() implies {
        ||| (#[trigger] b.variables@[w]).local_storage_type == before.variables@[w].local_storage_type
            && b.variables@[w].bound_storage_type == before.variables@[w].bound_storage_type
        ||| b.variables@[w].local_storage_type == target_types(before, root, n_repl, w as usize).0
            && b.variables@[w].bound_storage_type == target_types(before, root, n_repl, w as usize).1
    } by {
        assert(a.variables@[w] == a.variables@[w]);
    }
}

/// Giving variable `list[i]` of frame `g` its planned slot moves towards the
/// plan.
proof fn lemma_toward_index(before: &Annotations, root: int, n_repl: int, a: &Annotations, b: &Annotations, g: int, i: int)
    requires
        toward_plan(before, root, n_repl, before, a),
        0 <= g < before.frames@.len(),
        0 <= i < before.frames@[g].declared_variables@.len(),
        before.wf(),
        only_variable_changed(a, b, before.frames@[g].declared_variables@[i]),
        b.variables@[before.frames@[g].declared_variables@[i] as int].local_storage_type
            == a.variables@[before.frames@[g].declared_variables@[i] as int].local_storage_type,
        b.variables@[before.frames@[g].declared_variables@[i] as int].bound_storage_type
            == a.variables@[before.frames@[g].declared_variables@[i] as int].bound_storage_type,
        index_planned(before, root, n_repl, b, g, i),
    ensures
        toward_plan(before, root, n_repl, a, b),
        toward_plan(before, root, n_repl, before, b),
{
    reveal(toward_plan);
    let v = before.frames@[g].declared_variables@[i];
    assert(v < before.variables@.len());
    assert forall|w: int| 0 <= w < before.variables@.len() implies same_but_storage(before.variables@[w], #[trigger] b.variables@[w]) by {
        assert(same_but_storage(before.variables@[w], a.variables@[w]));
    }
    assert forall|w: int| 0 <= w < before.variables@.len() implies {
        ||| (#[trigger] b.variables@[w]).local_storage_index == before.variables@[w].local_storage_index
        ||| exists|g2: int, i2: int| 0 <= g2 < before.frames@.len() && 0 <= i2 < before.frames@[g2].declared_variables@.len()
            && before.frames@[g2].declared_variables@[i2] == w && #[trigger] index_planned(before, root, n_repl, b, g2, i2)
    } by {
        if w == v {
            assert(index_planned(before, root, n_repl, b, g, i));
        } else if a.variables@[w].local_storage_index != before.variables@[w].local_storage_index {
            let (g2, i2) = choose|g2: int, i2: int| 0 <= g2 < before.frames@.len() && 0 <= i2 < before.frames@[g2].declared_variables@.len()
                && before.frames@[g2].declared_variables@[i2] == w && #[trigger] index_planned(before, root, n_repl, a, g2, i2);
            assert(index_planned(before, root, n_repl, b, g2, i2));
        }
    }
    assert forall|w: int| 0 <= w < before.variables@.len() implies {
        ||| (#[trigger] b.variables@[w]).local_storage_index == a.variables@[w].local_storage_index
        ||| exists|g2: int, i2: int| 0 <= g2 < before.frames@.len() && 0 <= i2 < before.frames@[g2].declared_variables@.len()
            && before.frames@[g2].declared_variables@[i2] == w && #[trigger] index_planned(before, root, n_repl, b, g2, i2)
    } by {
        if w == v {
            assert(index_planned(before, root, n_repl, b, g, i));
        }
    }
    assert forall|w: int| 0 <= w < before.variables@.len() implies {
        ||| (#[trigger] b.variables@[w]).local_storage_type == before.variables@[w].local_storage_type
            && b.variables@[w].bound_storage_type == before.variables@[w].bound_storage_type
        ||| b.variables@[w].local_storage_type == target_types(before, root, n_repl, w as usize).0
            && b.variables@[w].bound_storage_type == target_types(before, root, n_repl, w as usize).1
    } by {
        assert(a.variables@[w] == a.variables@[w]);
    }
}

/// Changing only the storage counts of frame `g`, to the planned ones, or the
/// slots of its closure, moves towards the plan.
proof fn lemma_toward_frame(before: &Annotations, root: int, n_repl: int, a: &Annotations, b: &Annotations, g: int)
    requires
        toward_plan(before, root, n_repl, before, a),
        0 <= g < before.frames@.len(),
        b.variables@ == a.variables@,
        b.uses@ == a.uses@,
        b.frames@.len() == a.frames@.len(),
        forall|h: int| 0 <= h < a.frames@.len() && h != g ==> #[trigger] b.frames@[h] == a.frames@[h],
        b.frames@[g].declared_variables@ == a.frames@[g].declared_variables@,
        b.frames@[g].functions@ == a.frames@[g].functions@,
        (b.frames@[g].closure is Some <==> a.frames@[g].closure is Some),
        b.frames@[g].closure matches Some(c) ==> c.bindings@.len() == a.frames@[g].closure->Some_0.bindings@.len()
            && forall|k: int| 0 <= k < c.bindings@.len() ==> #[trigger] c.bindings@[k].variable == a.frames@[g].closure->Some_0.bindings@[k].variable,
        (b.frames@[g].n_local_variables == a.frames@[g].n_local_variables
            && b.frames@[g].n_shared_local_variables == a.frames@[g].n_shared_local_variables)
        || (b.frames@[g].n_local_variables == local_rank(before, root, n_repl, before.frames@[g].declared_variables@,
                before.frames@[g].declared_variables@.len() as int, LocalStorageType::Local)
            && b.frames@[g].n_shared_local_variables == local_rank(before, root, n_repl, before.frames@[g].declared_variables@,
                before.frames@[g].declared_variables@.len() as int, LocalStorageType::SharedLocal)),
    ensures
        toward_plan(before, root, n_repl, a, b),
        toward_plan(before, root, n_repl, before, b),
{
    reveal(toward_plan);
    assert forall|w: int| 0 <= w < before.variables@.len() implies {
        ||| (#[trigger] b.variables@[w]).local_storage_index == a.variables@[w].local_storage_index
        ||| exists|g2: int, i2: int| 0 <= g2 < before.frames@.len() && 0 <= i2 < before.frames@[g2].declared_variables@.len()
            && before.frames@[g2].declared_variables@[i2] == w && #[trigger] index_planned(before, root, n_repl, b, g2, i2)
    } by {
    }
    assert forall|w: int| 0 <= w < before.variables@.len() implies {
        ||| (#[trigger] b.variables@[w]).local_storage_index == before.variables@[w].local_storage_index
        ||| exists|g2: int, i2: int| 0 <= g2 < before.frames@.len() && 0 <= i2 < before.frames@[g2].declared_variables@.len()
            && before.frames@[g2].declared_variables@[i2] == w && #[trigger] index_planned(before, root, n_repl, b, g2, i2)
    } by {
        if a.variables@[w].local_storage_index != before.variables@[w].local_storage_index {
            let (g2, i2) = choose|g2: int, i2: int| 0 <= g2 < before.frames@.len() && 0 <= i2 < before.frames@[g2].declared_variables@.len()
                && before.frames@[g2].declared_variables@[i2] == w && #[trigger] index_planned(before, root, n_repl, a, g2, i2);
            assert(index_planned(before, root, n_repl, b, g2, i2));
        }
    }
    assert forall|h: int| 0 <= h < before.frames@.len() implies {
        &&& (#[trigger] b.frames@[h]).declared_variables@ == before.frames@[h].declared_variables@
        &&& b.frames@[h].functions@ == before.frames@[h].functions@
        &&& (b.frames@[h].closure is Some <==> before.frames@[h].closure is Some)
        &&& (b.frames@[h].closure matches Some(c) ==> c.bindings@.len() == before.frames@[h].closure->Some_0.bindings@.len()
            && forall|k: int| 0 <= k < c.bindings@.len() ==> #[trigger] c.bindings@[k].variable == before.frames@[h].closure->Some_0.bindings@[k].variable)
    } by {
        assert(a.frames@[h] == a.frames@[h]);
        if h == g {
            if b.frames@[h].closure is Some {
                assert forall|k: int| 0 <= k < b.frames@[h].closure->Some_0.bindings@.len() implies
                    #[trigger] b.frames@[h].closure->Some_0.bindings@[k].variable == before.frames@[h].closure->Some_0.bindings@[k].variable by {
                    assert(b.frames@[h].closure->Some_0.bindings@[k].variable == a.frames@[h].closure->Some_0.bindings@[k].variable);
                }
            }
        }
    }
    assert forall|h: int| 0 <= h < before.frames@.len() implies {
        ||| (#[trigger] b.frames@[h]).n_local_variables == before.frames@[h].n_local_variables
            && b.frames@[h].n_shared_local_variables == before.frames@[h].n_shared_local_variables
        ||| b.frames@[h].n_local_variables == local_rank(before, root, n_repl, before.frames@[h].declared_variables@,
                before.frames@[h].declared_variables@.len() as int, LocalStorageType::Local)
            && b.frames@[h].n_shared_local_variables == local_rank(before, root, n_repl, before.frames@[h].declared_variables@,
                before.frames@[h].declared_variables@.len() as int, LocalStorageType::SharedLocal)
    } by {
        assert(a.frames@[h] == a.frames@[h]);
    }
    assert forall|h: int| 0 <= h < before.frames@.len() implies {
        ||| (#[trigger] b.frames@[h]).n_local_variables == a.frames@[h].n_local_variables
            && b.frames@[h].n_shared_local_variables == a.frames@[h].n_shared_local_variables
        ||| b.frames@[h].n_local_variables == local_rank(before, root, n_repl, before.frames@[h].declared_variables@,
                before.frames@[h].declared_variables@.len() as int, LocalStorageType::Local)
            && b.frames@[h].n_shared_local_variables == local_rank(before, root, n_repl, before.frames@[h].declared_variables@,
                before.frames@[h].declared_variables@.len() as int, LocalStorageType::SharedLocal)
    } by {
    }
}

/// Moving towards the plan from where one is, is allowed.
proof fn lemma_toward_refl(before: &Annotations, root: int, n_repl: int, a: &Annotations)
    requires
        toward_plan(before, root, n_repl, before, a),
    ensures
        toward_plan(before, root, n_repl, a, a),
{
    reveal(toward_plan);
}

} // verus!

verus! {

/// Gives variable `v` the storage types `(lt, bt)`, which are its planned ones.
fn set_types(
    ann: &mut Annotations,
    v: usize,
    lt: LocalStorageType,
    bt: BoundStorageType,
    Ghost(before): Ghost<Annotations>,
    Ghost(root): Ghost<int>,
    Ghost(n_repl): Ghost<int>,
)
    requires
        toward_plan(&before, root, n_repl, &before, old(ann)),
        v < old(ann).variables@.len(),
        (lt, bt) == target_types(&before, root, n_repl, v),
    ensures
        toward_plan(&before, root, n_repl, old(ann), final(ann)),
        toward_plan(&before, root, n_repl, &before, final(ann)),
        only_variable_changed(old(ann), final(ann), v),
        final(ann).variables@[v as int].local_storage_type == lt,
        final(ann).variables@[v as int].bound_storage_type == bt,
        final(ann).variables@[v as int].local_storage_index == old(ann).variables@[v as int].local_storage_index,
{
    ann.variables[v].local_storage_type = lt;
    ann.variables[v].bound_storage_type = bt;
    proof {
        lemma_toward_types(&before, root, n_repl, old(ann), ann, v);
    }
}

/// Decides where variable `v`, which was not carried over, is stored.
fn determine_types(
    ann: &mut Annotations,
    v: usize,
    Ghost(before): Ghost<Annotations>,
    Ghost(root): Ghost<int>,
    Ghost(n_repl): Ghost<int>,
)
    requires
        toward_plan(&before, root, n_repl, &before, old(ann)),
        v < old(ann).variables@.len(),
        !carried_over(&before, root, n_repl, v),
    ensures
        toward_plan(&before, root, n_repl, old(ann), final(ann)),
        toward_plan(&before, root, n_repl, &before, final(ann)),
        only_variable_changed(old(ann), final(ann), v),
        final(ann).variables@[v as int].local_storage_type == target_types(&before, root, n_repl, v).0,
        final(ann).variables@[v as int].bound_storage_type == target_types(&before, root, n_repl, v).1,
        final(ann).variables@[v as int].local_storage_index == old(ann).variables@[v as int].local_storage_index,
{
    proof {
        reveal(toward_plan);
        assert(old(ann).variables@[v as int] == old(ann).variables@[v as int]);
        assert(storage_types(old(ann).variables@[v as int]) == storage_types(before.variables@[v as int]));
    }
    determine_variable_storage_types(&mut ann.variables[v]);
    proof {
        lemma_toward_types(&before, root, n_repl, old(ann), ann, v);
    }
}

/// Gives variable `list[i]` of frame `frame` its planned slot `index`.
fn set_index(
    ann: &mut Annotations,
    frame: usize,
    i: usize,
    index: usize,
    Ghost(before): Ghost<Annotations>,
    Ghost(root): Ghost<int>,
    Ghost(n_repl): Ghost<int>,
)
    requires
        before.wf(),
        toward_plan(&before, root, n_repl, &before, old(ann)),
        frame < before.frames@.len(),
        i < before.frames@[frame as int].declared_variables@.len(),
        index == local_rank(&before, root, n_repl, before.frames@[frame as int].declared_variables@, i as int,
            target_types(&before, root, n_repl, before.frames@[frame as int].declared_variables@[i as int]).0),
    ensures
        toward_plan(&before, root, n_repl, old(ann), final(ann)),
        toward_plan(&before, root, n_repl, &before, final(ann)),
        only_variable_changed(old(ann), final(ann), before.frames@[frame as int].declared_variables@[i as int]),
        index_planned(&before, root, n_repl, final(ann), frame as int, i as int),
        final(ann).variables@[before.frames@[frame as int].declared_variables@[i as int] as int].local_storage_type
            == old(ann).variables@[before.frames@[frame as int].declared_variables@[i as int] as int].local_storage_type,
        final(ann).variables@[before.frames@[frame as int].declared_variables@[i as int] as int].bound_storage_type
            == old(ann).variables@[before.frames@[frame as int].declared_variables@[i as int] as int].bound_storage_type,
{
    proof {
        reveal(toward_plan);
        assert(ann.frames@[frame as int].declared_variables@ == before.frames@[frame as int].declared_variables@);
        assert(before.frames@[frame as int].declared_variables@[i as int] < before.variables@.len());
    }
    let v = ann.frames[frame].declared_variables[i];
    ann.variables[v].local_storage_index = index;
    proof {
        lemma_toward_index(&before, root, n_repl, old(ann), ann, frame as int, i as int);
    }
}

/// Records the planned slot counts of frame `frame`.
fn set_counts(
    ann: &mut Annotations,
    frame: usize,
    n_local: usize,
    n_shared_local: usize,
    Ghost(before): Ghost<Annotations>,
    Ghost(root): Ghost<int>,
    Ghost(n_repl): Ghost<int>,
)
    requires
        toward_plan(&before, root, n_repl, &before, old(ann)),
        frame < before.frames@.len(),
        n_local == local_rank(&before, root, n_repl, before.frames@[frame as int].declared_variables@,
            before.frames@[frame as int].declared_variables@.len() as int, LocalStorageType::Local),
        n_shared_local == local_rank(&before, root, n_repl, before.frames@[frame as int].declared_variables@,
            before.frames@[frame as int].declared_variables@.len() as int, LocalStorageType::SharedLocal),
    ensures
        toward_plan(&before, root, n_repl, old(ann), final(ann)),
        toward_plan(&before, root, n_repl, &before, final(ann)),
        final(ann).variables@ == old(ann).variables@,
        final(ann).frames@[frame as int].n_local_variables == n_local,
        final(ann).frames@[frame as int].n_shared_local_variables == n_shared_local,
{
    proof {
        reveal(toward_plan);
    }
    ann.frames[frame].n_local_variables = n_local;
    ann.frames[frame].n_shared_local_variables = n_shared_local;
    proof {
        lemma_toward_frame(&before, root, n_repl, old(ann), ann, frame as int);
    }
}

/// Numbers the bound slots of the closure of frame `frame`, if it has one.
fn number_closure(
    ann: &mut Annotations,
    frame: usize,
    Ghost(before): Ghost<Annotations>,
    Ghost(root): Ghost<int>,
    Ghost(n_repl): Ghost<int>,
)
    requires
        before.wf(),
        toward_plan(&before, root, n_repl, &before, old(ann)),
        frame < before.frames@.len(),
    ensures
        toward_plan(&before, root, n_repl, old(ann), final(ann)),
        toward_plan(&before, root, n_repl, &before, final(ann)),
        final(ann).variables@ == old(ann).variables@,
        final(ann).frames@[frame as int].n_local_variables == old(ann).frames@[frame as int].n_local_variables,
        final(ann).frames@[frame as int].n_shared_local_variables == old(ann).frames@[frame as int].n_shared_local_variables,
        final(ann).frames@.len() == old(ann).frames@.len(),
        forall|h: int| 0 <= h < old(ann).frames@.len() && h != frame ==> #[trigger] final(ann).frames@[h] == old(ann).frames@[h],
        closure_allocated(final(ann), frame as int),
{
    proof {
        reveal(toward_plan);
        assert(ann.frames@[frame as int] == ann.frames@[frame as int]);
        if ann.frames@[frame as int].closure is Some {
            assert forall|b: int| 0 <= b < ann.frames@[frame as int].closure->Some_0.bindings@.len() implies
                (#[trigger] ann.frames@[frame as int].closure->Some_0.bindings@[b]).variable < ann.variables@.len() by {
                assert(ann.frames@[frame as int].closure->Some_0.bindings@[b].variable
                    == before.frames@[frame as int].closure->Some_0.bindings@[b].variable);
            }
        }
    }
    let ghost old_closure = ann.frames@[frame as int].closure;
    let variables = &ann.variables;
    match &mut ann.frames[frame].closure {
        Some(closure) => {
            analyze_closure(variables, closure);
        },
        None => {},
    }
    proof {
        lemma_toward_frame(&before, root, n_repl, old(ann), ann, frame as int);
        if let Some(c) = ann.frames@[frame as int].closure {
            let bindings = old_closure->Some_0.bindings@;
            assert forall|k: int| 0 <= k < c.bindings@.len() implies #[trigger] bindings[k].variable == c.bindings@[k].variable by {
                assert(c.bindings@[k].variable == bindings[k].variable);
            }
            assert forall|b: int| 0 <= b < c.bindings@.len() implies (#[trigger] c.bindings@[b]).storage_index == bound_rank(
                ann.variables@, c.bindings@, b, ann.variables@[c.bindings@[b].variable as int].bound_storage_type) by {
                lemma_bound_rank_same_variables(ann.variables@, bindings, c.bindings@, b,
                    ann.variables@[c.bindings@[b].variable as int].bound_storage_type);
            }
            lemma_bound_rank_same_variables(ann.variables@, bindings, c.bindings@, bindings.len() as int, BoundStorageType::StaticBound);
            lemma_bound_rank_same_variables(ann.variables@, bindings, c.bindings@, bindings.len() as int, BoundStorageType::SharedBound);
        }
    }
}

} // verus!

verus! {

/// Gives each variable of frame `frame` its planned storage types: the first
/// `n_repl_vars`, carried over from earlier input, are shared; the others go
/// by what resolution learned of them.
fn assign_types(
    ann: &mut Annotations,
    frame: usize,
    n_repl_vars: usize,
    Ghost(before): Ghost<Annotations>,
    Ghost(root): Ghost<usize>,
    Ghost(n_repl): Ghost<int>,
)
    requires
        before.wf(),
        root <= frame < before.frames@.len(),
        0 <= n_repl,
        frame == root ==> n_repl_vars == n_repl,
        frame != root ==> n_repl_vars == 0,
        toward_plan(&before, root as int, n_repl, &before, old(ann)),
    ensures
        toward_plan(&before, root as int, n_repl, old(ann), final(ann)),
        toward_plan(&before, root as int, n_repl, &before, final(ann)),
        final(ann).frames@ == old(ann).frames@,
        forall|w: int| 0 <= w < before.variables@.len() && before.variables@[w].declared_in != frame
            ==> #[trigger] final(ann).variables@[w] == old(ann).variables@[w],
        forall|j: int| 0 <= j < before.frames@[frame as int].declared_variables@.len() ==> {
            let v = #[trigger] before.frames@[frame as int].declared_variables@[j];
            let t = target_types(&before, root as int, n_repl, v);
            final(ann).variables@[v as int].local_storage_type == t.0 && final(ann).variables@[v as int].bound_storage_type == t.1
        },
{
    let ghost entry = *ann;
    let ghost list = before.frames@[frame as int].declared_variables@;
    let ghost r = root as int;
    proof {
        reveal(toward_plan);
        assert(ann.frames@[frame as int].declared_variables@ == list);
        lemma_toward_refl(&before, r, n_repl, ann);
    }
    let n = ann.frames[frame].declared_variables.len();
    let mut i: usize = 0;
    while i < n
        invariant
            i <= n,
            n == list.len(),
            r == root as int,
            0 <= n_repl,
            before.wf(),
            root <= frame < before.frames@.len(),
            frame == root ==> n_repl_vars == n_repl,
            frame != root ==> n_repl_vars == 0,
            list == before.frames@[frame as int].declared_variables@,
            ann.frames@ == entry.frames@,
            entry.frames@.len() == before.frames@.len(),
            entry.frames@[frame as int].declared_variables@ == list,
            ann.variables@.len() == before.variables@.len(),
            toward_plan(&before, r, n_repl, &entry, ann),
            toward_plan(&before, r, n_repl, &before, ann),
            forall|w: int| 0 <= w < before.variables@.len() && before.variables@[w].declared_in != frame
                ==> #[trigger] ann.variables@[w] == entry.variables@[w],
            forall|j: int| 0 <= j < i ==> {
                let v = #[trigger] list[j];
                let t = target_types(&before, r, n_repl, v);
                ann.variables@[v as int].local_storage_type == t.0 && ann.variables@[v as int].bound_storage_type == t.1
            },
        decreases n - i,
    {
        let v = ann.frames[frame].declared_variables[i];
        proof {
            assert(v < before.variables@.len());
            assert(before.variables@[v as int].declared_in == frame);
        }
        let ghost a0 = *ann;
        if i < n_repl_vars {
            proof {
                assert(before.frames@[r].declared_variables@[i as int] == v);
                assert(carried_over(&before, r, n_repl, v));
            }
            set_types(ann, v, LocalStorageType::SharedLocal, BoundStorageType::SharedBound, Ghost(before), Ghost(r), Ghost(n_repl));
        } else {
            proof {
                if carried_over(&before, r, n_repl, v) {
                    let k = choose|k: int| 0 <= k < n_repl && 0 <= k < before.frames@[r].declared_variables@.len()
                        && #[trigger] before.frames@[r].declared_variables@[k] == v;
                    assert(before.variables@[v as int].declared_in == r);
                    assert(list[k] == list[i as int]);
                    if k < i {
                        assert(list[k] != list[i as int]);
                    } else if i < k {
                        assert(list[i as int] != list[k]);
                    }
                }
            }
            determine_types(ann, v, Ghost(before), Ghost(r), Ghost(n_repl));
        }
        proof {
            lemma_toward_plan_trans(&before, r, n_repl, &entry, &a0, ann);
            assert forall|j: int| 0 <= j <= i implies {
                let w = #[trigger] list[j];
                let t = target_types(&before, r, n_repl, w);
                ann.variables@[w as int].local_storage_type == t.0 && ann.variables@[w as int].bound_storage_type == t.1
            } by {
                if j < i {
                    assert(list[j] != list[i as int]);
                }
            }
        }
        i += 1;
    }
}

} // verus!

verus! {

impl AnalyzeAllocation {
    /// The slot counters of the current frame.
    closed spec fn counts(&self) -> (usize, usize) {
        (self.frames@.last().n_local_variables, self.frames@.last().n_shared_local_variables)
    }

    /// Numbers the slots of the variables of frame `frame`, whose storage types
    /// are decided: in order, from 0, separately for local and shared slots.
    fn assign_indices(
        &mut self,
        ann: &mut Annotations,
        frame: usize,
        Ghost(before): Ghost<Annotations>,
        Ghost(root): Ghost<usize>,
        Ghost(n_repl): Ghost<int>,
    )
        requires
            before.wf(),
            frame < before.frames@.len(),
            toward_plan(&before, root as int, n_repl, &before, old(ann)),
            old(self).frames@.len() >= 1,
            old(self).counts() == (0usize, 0usize),
            forall|j: int| 0 <= j < before.frames@[frame as int].declared_variables@.len() ==> {
                let v = #[trigger] before.frames@[frame as int].declared_variables@[j];
                let t = target_types(&before, root as int, n_repl, v);
                old(ann).variables@[v as int].local_storage_type == t.0 && old(ann).variables@[v as int].bound_storage_type == t.1
            },
        ensures
            toward_plan(&before, root as int, n_repl, old(ann), final(ann)),
            toward_plan(&before, root as int, n_repl, &before, final(ann)),
            final(ann).frames@ == old(ann).frames@,
            forall|w: int| 0 <= w < before.variables@.len() && before.variables@[w].declared_in != frame
                ==> #[trigger] final(ann).variables@[w] == old(ann).variables@[w],
            forall|j: int| 0 <= j < before.frames@[frame as int].declared_variables@.len()
                ==> #[trigger] variable_allocated(&before, root as int, n_repl, final(ann), frame as int, j),
            final(self).frames@.len() == old(self).frames@.len(),
            forall|i: int| 0 <= i < old(self).frames@.len() - 1 ==> #[trigger] final(self).frames@[i] == old(self).frames@[i],
            final(self).counts() == (
                local_rank(&before, root as int, n_repl, before.frames@[frame as int].declared_variables@,
                    before.frames@[frame as int].declared_variables@.len() as int, LocalStorageType::Local) as usize,
                local_rank(&before, root as int, n_repl, before.frames@[frame as int].declared_variables@,
                    before.frames@[frame as int].declared_variables@.len() as int, LocalStorageType::SharedLocal) as usize,
            ),
    {
        let ghost entry = *ann;
        let ghost list = before.frames@[frame as int].declared_variables@;
        let ghost r = root as int;
        proof {
            reveal(toward_plan);
            assert(ann.frames@[frame as int].declared_variables@ == list);
            lemma_toward_refl(&before, r, n_repl, ann);
        }
        let last = self.frames.len() - 1;
        let n = ann.frames[frame].declared_variables.len();
        let mut i: usize = 0;
        while i < n
            invariant
                i <= n,
                n == list.len(),
                r == root as int,
                before.wf(),
                frame < before.frames@.len(),
                list == before.frames@[frame as int].declared_variables@,
                ann.frames@ == entry.frames@,
                entry.frames@.len() == before.frames@.len(),
                entry.frames@[frame as int].declared_variables@ == list,
                ann.variables@.len() == before.variables@.len(),
                toward_plan(&before, r, n_repl, &entry, ann),
                toward_plan(&before, r, n_repl, &before, ann),
                forall|w: int| 0 <= w < before.variables@.len() && before.variables@[w].declared_in != frame
                    ==> #[trigger] ann.variables@[w] == entry.variables@[w],
                forall|j: int| 0 <= j < n ==> {
                    let v = #[trigger] list[j];
                    let t = target_types(&before, r, n_repl, v);
                    ann.variables@[v as int].local_storage_type == t.0 && ann.variables@[v as int].bound_storage_type == t.1
                },
                forall|j: int| 0 <= j < i ==> #[trigger] variable_allocated(&before, r, n_repl, ann, frame as int, j),
                last == self.frames@.len() - 1,
                self.frames@.len() == old(self).frames@.len(),
                forall|i: int| 0 <= i < old(self).frames@.len() - 1 ==> #[trigger] self.frames@[i] == old(self).frames@[i],
                self.counts() == (local_rank(&before, r, n_repl, list, i as int, LocalStorageType::Local) as usize,
                    local_rank(&before, r, n_repl, list, i as int, LocalStorageType::SharedLocal) as usize),
            decreases n - i,
        {
            let v = ann.frames[frame].declared_variables[i];
            proof {
                assert(v < before.variables@.len());
                assert(before.variables@[v as int].declared_in == frame);
                lemma_local_rank_bound(&before, r, n_repl, list, i as int, LocalStorageType::Local);
                lemma_local_rank_bound(&before, r, n_repl, list, i as int, LocalStorageType::SharedLocal);
                assert(list[i as int] == v);
            }
            let ghost a0 = *ann;
            match ann.variables[v].local_storage_type {
                LocalStorageType::Local => {
                    let index = self.frames[last].n_local_variables;
                    set_index(ann, frame, i, index, Ghost(before), Ghost(r), Ghost(n_repl));
                    self.frames[last].n_local_variables = index + 1;
                },
                LocalStorageType::SharedLocal => {
                    let index = self.frames[last].n_shared_local_variables;
                    set_index(ann, frame, i, index, Ghost(before), Ghost(r), Ghost(n_repl));
                    self.frames[last].n_shared_local_variables = index + 1;
                },
            }
            proof {
                lemma_toward_plan_trans(&before, r, n_repl, &entry, &a0, ann);
                assert forall|j: int| 0 <= j < n implies {
                    let w = #[trigger] list[j];
                    let t = target_types(&before, r, n_repl, w);
                    ann.variables@[w as int].local_storage_type == t.0 && ann.variables@[w as int].bound_storage_type == t.1
                } by {
                    if j != i {
                        assert(list[j] != list[i as int]);
                    }
                }
                assert forall|j: int| 0 <= j <= i implies #[trigger] variable_allocated(&before, r, n_repl, ann, frame as int, j) by {
                    if j < i {
                        assert(list[j] != list[i as int]);
                        assert(variable_allocated(&before, r, n_repl, &a0, frame as int, j));
                    }
                }
            }
            i += 1;
        }
    }
}

} // verus!

verus! {

impl AnalyzeAllocation {
    /// Stores the variables of frame `frame` and of every function nested in
    /// it, and numbers their local slots; the first `n_repl_vars` variables of
    /// the frame are carried over from earlier input and stay shared.
    fn analyze_frame(
        &mut self,
        ann: &mut Annotations,
        frame: usize,
        n_repl_vars: usize,
        Ghost(before): Ghost<Annotations>,
        Ghost(root): Ghost<usize>,
        Ghost(n_repl): Ghost<int>,
    )
        requires
            before.wf(),
            root <= frame < before.frames@.len(),
            0 <= n_repl,
            frame == root ==> n_repl_vars == n_repl,
            frame != root ==> n_repl_vars == 0,
            toward_plan(&before, root as int, n_repl, &before, old(ann)),
        ensures
            toward_plan(&before, root as int, n_repl, old(ann), final(ann)),
            toward_plan(&before, root as int, n_repl, &before, final(ann)),
            forall|g: usize| #[trigger] nested_in(&before, frame, g) ==> frame_allocated(&before, root as int, n_repl, final(ann), g as int),
            final(self).frames@ == old(self).frames@,
        decreases before.frames@.len() - frame,
    {
        let ghost entry = *ann;
        let ghost list = before.frames@[frame as int].declared_variables@;
        let ghost functions = before.frames@[frame as int].functions@;
        let ghost r = root as int;
        proof {
            reveal(toward_plan);
            assert(ann.frames@[frame as int].functions@ == functions);
            lemma_toward_refl(&before, r, n_repl, ann);
        }
        self.push_frame();
        let ghost a1 = *ann;
        assign_types(ann, frame, n_repl_vars, Ghost(before), Ghost(root), Ghost(n_repl));
        let ghost a2 = *ann;
        self.assign_indices(ann, frame, Ghost(before), Ghost(root), Ghost(n_repl));
        proof {
            lemma_toward_plan_trans(&before, r, n_repl, &entry, &a2, ann);
        }
        let ghost counts = self.counts();
        assert(counts == (local_rank(&before, r, n_repl, list, list.len() as int, LocalStorageType::Local) as usize,
            local_rank(&before, r, n_repl, list, list.len() as int, LocalStorageType::SharedLocal) as usize));
        let n_functions = ann.frames[frame].functions.len();
        let mut k: usize = 0;
        while k < n_functions
            invariant
                k <= n_functions,
                n_functions == functions.len(),
                r == root as int,
                0 <= n_repl,
                before.wf(),
                root <= frame < before.frames@.len(),
                list == before.frames@[frame as int].declared_variables@,
                functions == before.frames@[frame as int].functions@,
                ann.frames@.len() == before.frames@.len(),
                ann.frames@[frame as int].functions@ == functions,
                toward_plan(&before, r, n_repl, &entry, ann),
                toward_plan(&before, r, n_repl, &before, ann),
                forall|j: int| 0 <= j < list.len() ==> #[trigger] variable_allocated(&before, r, n_repl, ann, frame as int, j),
                forall|j: int, g: usize| 0 <= j < k && #[trigger] nested_in(&before, functions[j], g)
                    ==> frame_allocated(&before, r, n_repl, ann, g as int),
                self.frames@.len() == old(self).frames@.len() + 1,
                self.counts() == counts,
                forall|i: int| 0 <= i < old(self).frames@.len() ==> self.frames@[i] == old(self).frames@[i],
            decreases n_functions - k,
        {
            let child = ann.frames[frame].functions[k];
            proof {
                assert(frame < child < before.frames@.len());
            }
            let ghost a3 = *ann;
            let ghost s3 = *self;
            self.analyze_frame(ann, child, 0, Ghost(before), Ghost(root), Ghost(n_repl));
            proof {
                lemma_toward_plan_trans(&before, r, n_repl, &entry, &a3, ann);
                reveal(toward_plan);
                assert(ann.frames@[frame as int] == ann.frames@[frame as int]);
                assert forall|j: int| 0 <= j < list.len() implies #[trigger] variable_allocated(&before, r, n_repl, ann, frame as int, j) by {
                    assert(variable_allocated(&before, r, n_repl, &a3, frame as int, j));
                    lemma_variable_allocated_stays(&before, r, n_repl, &a3, ann, frame as int, j);
                }
                assert forall|j: int, g: usize| 0 <= j <= k && #[trigger] nested_in(&before, functions[j], g)
                    implies frame_allocated(&before, r, n_repl, ann, g as int) by {
                    if j < k {
                        assert(frame_allocated(&before, r, n_repl, &a3, g as int));
                        reveal(toward_plan);
                        assert(g < before.frames@.len()) by {
                            let path = choose|path: Seq<usize>| function_path(&before, path) && path[0] == functions[j] && path.last() == g;
                            if path.len() > 1 {
                                assert(path[path.len() - 1] < before.frames@.len());
                            }
                        }
                        lemma_allocated_stays(&before, r, n_repl, &a3, ann, g as int);
                    }
                }
            }
            k += 1;
        }
        let last = self.frames.len() - 1;
        let n_local = self.frames[last].n_local_variables;
        let n_shared_local = self.frames[last].n_shared_local_variables;
        let n_variables = ann.frames[frame].declared_variables.len();
        proof {
            lemma_local_rank_bound(&before, r, n_repl, list, list.len() as int, LocalStorageType::Local);
            lemma_local_rank_bound(&before, r, n_repl, list, list.len() as int, LocalStorageType::SharedLocal);
            reveal(toward_plan);
            assert(ann.frames@[frame as int] == ann.frames@[frame as int]);
            assert(list.len() == ann.frames@[frame as int].declared_variables@.len());
            assert(n_local == counts.0);
            assert(n_shared_local == counts.1);
        }
        let ghost a4 = *ann;
        set_counts(ann, frame, n_local, n_shared_local, Ghost(before), Ghost(r), Ghost(n_repl));
        self.pop_frame();
        proof {
            lemma_toward_plan_trans(&before, r, n_repl, &entry, &a4, ann);
            assert(self.frames@ =~= old(self).frames@);
            assert forall|j: int| 0 <= j < list.len() implies #[trigger] variable_allocated(&before, r, n_repl, ann, frame as int, j) by {
                assert(variable_allocated(&before, r, n_repl, &a4, frame as int, j));
            }
            assert(frame_allocated(&before, r, n_repl, ann, frame as int));
            assert forall|g: usize| #[trigger] nested_in(&before, frame, g) implies frame_allocated(&before, r, n_repl, ann, g as int) by {
                if g != frame {
                    lemma_nested_step(&before, frame, g);
                    let j = choose|j: int| 0 <= j < functions.len() && #[trigger] nested_in(&before, functions[j], g);
                    assert(frame_allocated(&before, r, n_repl, &a4, g as int));
                    reveal(toward_plan);
                    assert(g < before.frames@.len()) by {
                        let path = choose|path: Seq<usize>| function_path(&before, path) && path[0] == functions[j] && path.last() == g;
                        if path.len() > 1 {
                            assert(path[path.len() - 1] < before.frames@.len());
                        }
                    }
                    lemma_allocated_stays(&before, r, n_repl, &a4, ann, g as int);
                }
            }
        }
    }
}

} // verus!

verus! {

/// Numbers the bound slots of the closures of frame `frame` and of every
/// function nested in it, once their variables' storage is decided.
fn number_closures(
    ann: &mut Annotations,
    frame: usize,
    Ghost(before): Ghost<Annotations>,
    Ghost(root): Ghost<int>,
    Ghost(n_repl): Ghost<int>,
)
    requires
        before.wf(),
        frame < before.frames@.len(),
        toward_plan(&before, root, n_repl, &before, old(ann)),
    ensures
        toward_plan(&before, root, n_repl, old(ann), final(ann)),
        toward_plan(&before, root, n_repl, &before, final(ann)),
        final(ann).variables@ == old(ann).variables@,
        forall|h: int| 0 <= h < before.frames@.len() ==> (#[trigger] final(ann).frames@[h]).n_local_variables
            == old(ann).frames@[h].n_local_variables
            && final(ann).frames@[h].n_shared_local_variables == old(ann).frames@[h].n_shared_local_variables,
        forall|h: int| 0 <= h < before.frames@.len() && closure_allocated(old(ann), h) ==> #[trigger] closure_allocated(final(ann), h),
        forall|g: usize| #[trigger] nested_in(&before, frame, g) ==> closure_allocated(final(ann), g as int),
    decreases before.frames@.len() - frame,
{
    let ghost entry = *ann;
    let ghost functions = before.frames@[frame as int].functions@;
    proof {
        reveal(toward_plan);
        assert(ann.frames@[frame as int].functions@ == functions);
        lemma_toward_refl(&before, root, n_repl, ann);
    }
    let n_functions = ann.frames[frame].functions.len();
    let mut k: usize = 0;
    while k < n_functions
        invariant
            k <= n_functions,
            n_functions == functions.len(),
            before.wf(),
            frame < before.frames@.len(),
            functions == before.frames@[frame as int].functions@,
            ann.frames@.len() == before.frames@.len(),
            ann.frames@[frame as int].functions@ == functions,
            toward_plan(&before, root, n_repl, &entry, ann),
            toward_plan(&before, root, n_repl, &before, ann),
            ann.variables@ == entry.variables@,
            forall|h: int| 0 <= h < before.frames@.len() ==> (#[trigger] ann.frames@[h]).n_local_variables
                == entry.frames@[h].n_local_variables
                && ann.frames@[h].n_shared_local_variables == entry.frames@[h].n_shared_local_variables,
            forall|h: int| 0 <= h < before.frames@.len() && closure_allocated(&entry, h) ==> #[trigger] closure_allocated(ann, h),
            forall|j: int, g: usize| 0 <= j < k && #[trigger] nested_in(&before, functions[j], g)
                ==> closure_allocated(ann, g as int),
        decreases n_functions - k,
    {
        let child = ann.frames[frame].functions[k];
        proof {
            assert(frame < child < before.frames@.len());
        }
        let ghost a3 = *ann;
        number_closures(ann, child, Ghost(before), Ghost(root), Ghost(n_repl));
        proof {
            lemma_toward_plan_trans(&before, root, n_repl, &entry, &a3, ann);
            reveal(toward_plan);
            assert(ann.frames@[frame as int] == ann.frames@[frame as int]);
            assert forall|j: int, g: usize| 0 <= j <= k && #[trigger] nested_in(&before, functions[j], g)
                implies closure_allocated(ann, g as int) by {
                if j < k {
                    assert(closure_allocated(&a3, g as int));
                    assert(g < before.frames@.len()) by {
                        let path = choose|path: Seq<usize>| function_path(&before, path) && path[0] == functions[j] && path.last() == g;
                        if path.len() > 1 {
                            assert(path[path.len() - 1] < before.frames@.len());
                        }
                    }
                }
            }
        }
        k += 1;
    }
    let ghost a4 = *ann;
    number_closure(ann, frame, Ghost(before), Ghost(root), Ghost(n_repl));
    proof {
        lemma_toward_plan_trans(&before, root, n_repl, &entry, &a4, ann);
        reveal(toward_plan);
        assert forall|h: int| 0 <= h < before.frames@.len() && closure_allocated(&a4, h) implies #[trigger] closure_allocated(ann, h) by {
            if h != frame {
                assert(ann.frames@[h] == a4.frames@[h]);
            }
        }
        assert forall|g: usize| #[trigger] nested_in(&before, frame, g) implies closure_allocated(ann, g as int) by {
            if g != frame {
                lemma_nested_step(&before, frame, g);
                let j = choose|j: int| 0 <= j < functions.len() && #[trigger] nested_in(&before, functions[j], g);
                assert(g < before.frames@.len()) by {
                    let path = choose|path: Seq<usize>| function_path(&before, path) && path[0] == functions[j] && path.last() == g;
                    if path.len() > 1 {
                        assert(path[path.len() - 1] < before.frames@.len());
                    }
                }
                assert(closure_allocated(&a4, g as int));
            }
        }
        assert forall|h: int| 0 <= h < before.frames@.len() implies (#[trigger] ann.frames@[h]).n_local_variables
            == entry.frames@[h].n_local_variables
            && ann.frames@[h].n_shared_local_variables == entry.frames@[h].n_shared_local_variables by {
            assert(a4.frames@[h].n_local_variables == entry.frames@[h].n_local_variables);
            if h != frame {
                assert(ann.frames@[h] == a4.frames@[h]);
            }
        }
    }
}

/// Frame `g` stays allocated when only the closures of frames change.
proof fn lemma_allocated_closures_changed(before: &Annotations, root: int, n_repl: int, a: &Annotations, b: &Annotations, g: int)
    requires
        frame_allocated(before, root, n_repl, a, g),
        b.variables@ == a.variables@,
        b.frames@[g].n_local_variables == a.frames@[g].n_local_variables,
        b.frames@[g].n_shared_local_variables == a.frames@[g].n_shared_local_variables,
    ensures
        frame_allocated(before, root, n_repl, b, g),
{
    let list = before.frames@[g].declared_variables@;
    assert forall|i: int| 0 <= i < list.len() implies #[trigger] variable_allocated(before, root, n_repl, b, g, i) by {
        assert(variable_allocated(before, root, n_repl, a, g, i));
    }
}

proof fn lemma_toward_start(before: &Annotations, root: int, n_repl: int)
    ensures
        toward_plan(before, root, n_repl, before, before),
{
    reveal(toward_plan);
}

/// Allocation changes nothing but where variables are stored, so the arena
/// stays well formed.
proof fn lemma_toward_keeps_wf(before: &Annotations, root: int, n_repl: int, now: &Annotations)
    requires
        before.wf(),
        toward_plan(before, root, n_repl, before, now),
    ensures
        now.wf(),
        same_links(*before, *now),
        forall|g: int| 0 <= g < before.frames@.len() ==> (#[trigger] now.frames@[g]).declared_variables@ == before.frames@[g].declared_variables@,
{
    reveal(toward_plan);
    assert forall|w: int| 0 <= w < before.variables@.len() implies (#[trigger] now.variables@[w]).declared_in == before.variables@[w].declared_in by {
        assert(same_but_storage(before.variables@[w], now.variables@[w]));
    }
    assert forall|g: int| 0 <= g < before.frames@.len() && before.frames@[g].closure is Some implies {
        &&& (#[trigger] now.frames@[g]).closure->Some_0.bindings@.len() == before.frames@[g].closure->Some_0.bindings@.len()
        &&& forall|k: int| 0 <= k < before.frames@[g].closure->Some_0.bindings@.len()
            ==> #[trigger] now.frames@[g].closure->Some_0.bindings@[k].variable == before.frames@[g].closure->Some_0.bindings@[k].variable
    } by {
        assert(now.frames@[g].closure is Some);
    }
    assert forall|f: int, k: int|
        0 <= f < now.frames@.len() && 0 <= k < now.frames@[f].declared_variables@.len() implies
            #[trigger] now.frames@[f].declared_variables@[k] < now.variables@.len() by {
        assert(now.frames@[f].declared_variables@ == before.frames@[f].declared_variables@);
    }
    assert forall|f: int, k: int|
        0 <= f < now.frames@.len() && 0 <= k < now.frames@[f].functions@.len() implies f
            < #[trigger] now.frames@[f].functions@[k] < now.frames@.len() by {
        assert(now.frames@[f].functions@ == before.frames@[f].functions@);
    }
    assert forall|f: int, k: int|
        0 <= f < now.frames@.len() && now.frames@[f].closure is Some && 0 <= k
            < now.frames@[f].closure->Some_0.bindings@.len() implies
            #[trigger] now.frames@[f].closure->Some_0.bindings@[k].variable < now.variables@.len() by {
        assert(now.frames@[f].closure->Some_0.bindings@[k].variable == before.frames@[f].closure->Some_0.bindings@[k].variable);
    }
    assert forall|v: int| 0 <= v < now.variables@.len() implies #[trigger] now.variables@[v].declared_in
        < now.frames@.len() by {
        assert(same_but_storage(before.variables@[v], now.variables@[v]));
    }
    assert forall|f: int, k: int|
        0 <= f < now.frames@.len() && 0 <= k < now.frames@[f].declared_variables@.len()
            implies now.variables@[#[trigger] now.frames@[f].declared_variables@[k] as int].declared_in == f by {
        assert(now.frames@[f].declared_variables@ == before.frames@[f].declared_variables@);
        let v = now.frames@[f].declared_variables@[k] as int;
        assert(same_but_storage(before.variables@[v], now.variables@[v]));
    }
    assert forall|f: int, i: int, j: int|
        0 <= f < now.frames@.len() && 0 <= i < j < now.frames@[f].declared_variables@.len()
            implies #[trigger] now.frames@[f].declared_variables@[i] != #[trigger] now.frames@[f].declared_variables@[j] by {
        assert(now.frames@[f].declared_variables@ == before.frames@[f].declared_variables@);
    }
}

impl AnalyzeAllocation {
    /// Decides where every variable of a script is stored and numbers the
    /// slots of each frame and of its closure: for every frame nested in the
    /// root frame (the root included), `frame_allocated` holds of the arena as
    /// it was before, and `closure_allocated` of the arena after.
    pub fn analyze_root(&mut self, ann: &mut Annotations, root: &Root)
        requires
            old(self).is_idle(),
            old(ann).wf(),
            root.frame < old(ann).frames@.len(),
        ensures
            final(self).is_idle(),
            final(ann).wf(),
            forall|g: usize| #[trigger] nested_in(old(ann), root.frame, g)
                ==> frame_allocated(old(ann), root.frame as int, 0, final(ann), g as int)
                && closure_allocated(final(ann), g as int),
            same_links(*old(ann), *final(ann)),
            forall|g: int| 0 <= g < old(ann).frames@.len() ==> (#[trigger] final(ann).frames@[g]).declared_variables@ == old(ann).frames@[g].declared_variables@,
    {
        proof {
            lemma_toward_start(ann, root.frame as int, 0);
        }
        self.analyze_frame(ann, root.frame, 0, Ghost(*old(ann)), Ghost(root.frame), Ghost(0));
        let ghost a1 = *ann;
        number_closures(ann, root.frame, Ghost(*old(ann)), Ghost(root.frame as int), Ghost(0));
        proof {
            lemma_toward_plan_trans(old(ann), root.frame as int, 0, old(ann), &a1, ann);
            lemma_toward_keeps_wf(old(ann), root.frame as int, 0, ann);
            assert forall|g: usize| #[trigger] nested_in(old(ann), root.frame, g)
                implies frame_allocated(old(ann), root.frame as int, 0, ann, g as int) by {
                assert(frame_allocated(old(ann), root.frame as int, 0, &a1, g as int));
                assert(g < old(ann).frames@.len()) by {
                    let path = choose|path: Seq<usize>| function_path(old(ann), path) && path[0] == root.frame && path.last() == g;
                    if path.len() > 1 {
                        assert(path[path.len() - 1] < old(ann).frames@.len());
                    }
                }
                lemma_allocated_closures_changed(old(ann), root.frame as int, 0, &a1, ann, g as int);
            }
        }
    }

    /// As `analyze_root`, for a line of interactive input whose root frame
    /// starts with the variables carried over from earlier lines (those of
    /// `repl_state`), which stay shared.
    pub fn analyze_repl_root(&mut self, ann: &mut Annotations, root: &Root, repl_state: &State)
        requires
            old(self).is_idle(),
            old(ann).wf(),
            root.frame < old(ann).frames@.len(),
        ensures
            final(self).is_idle(),
            final(ann).wf(),
            forall|g: usize| #[trigger] nested_in(old(ann), root.frame, g)
                ==> frame_allocated(old(ann), root.frame as int, repl_state.names().len() as int, final(ann), g as int)
                && closure_allocated(final(ann), g as int),
            same_links(*old(ann), *final(ann)),
            forall|g: int| 0 <= g < old(ann).frames@.len() ==> (#[trigger] final(ann).frames@[g]).declared_variables@ == old(ann).frames@[g].declared_variables@,
    {
        let n_repl_vars = repl_state.len();
        proof {
            lemma_toward_start(ann, root.frame as int, n_repl_vars as int);
        }
        self.analyze_frame(ann, root.frame, n_repl_vars, Ghost(*old(ann)), Ghost(root.frame), Ghost(n_repl_vars as int));
        let ghost a1 = *ann;
        let ghost n = n_repl_vars as int;
        number_closures(ann, root.frame, Ghost(*old(ann)), Ghost(root.frame as int), Ghost(n));
        proof {
            lemma_toward_plan_trans(old(ann), root.frame as int, n, old(ann), &a1, ann);
            lemma_toward_keeps_wf(old(ann), root.frame as int, n, ann);
            assert forall|g: usize| #[trigger] nested_in(old(ann), root.frame, g)
                implies frame_allocated(old(ann), root.frame as int, n, ann, g as int) by {
                assert(frame_allocated(old(ann), root.frame as int, n, &a1, g as int));
                assert(g < old(ann).frames@.len()) by {
                    let path = choose|path: Seq<usize>| function_path(old(ann), path) && path[0] == root.frame && path.last() == g;
                    if path.len() > 1 {
                        assert(path[path.len() - 1] < old(ann).frames@.len());
                    }
                }
                lemma_allocated_closures_changed(old(ann), root.frame as int, n, &a1, ann, g as int);
            }
        }
    }
}

} // verus!

verus! {

proof fn lemma_rank_step(ann: &Annotations, root: int, n_repl: int, list: Seq<usize>, i: int, j: int, t: LocalStorageType)
    requires
        0 <= i < j,
        target_types(ann, root, n_repl, list[i]).0 == t,
    ensures
        local_rank(ann, root, n_repl, list, i, t) < local_rank(ann, root, n_repl, list, j, t),
    decreases j - i,
{
    if j > i + 1 {
        lemma_rank_step(ann, root, n_repl, list, i, j - 1, t);
    }
}

proof fn lemma_rank_onto(ann: &Annotations, root: int, n_repl: int, list: Seq<usize>, n: int, k: nat, t: LocalStorageType)
    requires
        0 <= n,
        k < local_rank(ann, root, n_repl, list, n, t),
    ensures
        exists|i: int| 0 <= i < n && target_types(ann, root, n_repl, list[i]).0 == t
            && #[trigger] local_rank(ann, root, n_repl, list, i, t) == k,
    decreases n,
{
    if k < local_rank(ann, root, n_repl, list, n - 1, t) {
        lemma_rank_onto(ann, root, n_repl, list, n - 1, k, t);
        let i = choose|i: int| 0 <= i < n - 1 && target_types(ann, root, n_repl, list[i]).0 == t
            && #[trigger] local_rank(ann, root, n_repl, list, i, t) == k;
        assert(local_rank(ann, root, n_repl, list, i, t) == k);
    } else {
        assert(local_rank(ann, root, n_repl, list, n - 1, t) == k);
    }
}

/// The slot count of frame `g` for local storage type `t`.
pub open spec fn slot_count(frame: Frame, t: LocalStorageType) -> usize {
    match t {
        LocalStorageType::Local => frame.n_local_variables,
        LocalStorageType::SharedLocal => frame.n_shared_local_variables,
    }
}

/// Each variable of an allocated frame has a slot among those of the frame.
pub proof fn lemma_slot_in_frame(before: &Annotations, root: int, n_repl: int, now: &Annotations, g: int, i: int)
    requires
        0 <= g < before.frames@.len(),
        frame_allocated(before, root, n_repl, now, g),
        0 <= i < before.frames@[g].declared_variables@.len(),
    ensures
        now.variables@[before.frames@[g].declared_variables@[i] as int].local_storage_index < slot_count(
            now.frames@[g],
            now.variables@[before.frames@[g].declared_variables@[i] as int].local_storage_type,
        ),
{
    let list = before.frames@[g].declared_variables@;
    assert(variable_allocated(before, root, n_repl, now, g, i));
    let t = now.variables@[list[i] as int].local_storage_type;
    if i + 1 < list.len() {
        lemma_rank_step(before, root, n_repl, list, i, list.len() as int, t);
    } else {
        assert(local_rank(before, root, n_repl, list, i + 1, t) == local_rank(before, root, n_repl, list, i, t) + 1);
    }
}

/// No two variables of an allocated frame share a slot: two different
/// variables stored the same way have different slot numbers.
pub proof fn lemma_slots_distinct(before: &Annotations, root: int, n_repl: int, now: &Annotations, g: int, i: int, j: int)
    requires
        0 <= g < before.frames@.len(),
        frame_allocated(before, root, n_repl, now, g),
        0 <= i < j < before.frames@[g].declared_variables@.len(),
        now.variables@[before.frames@[g].declared_variables@[i] as int].local_storage_type
            == now.variables@[before.frames@[g].declared_variables@[j] as int].local_storage_type,
    ensures
        now.variables@[before.frames@[g].declared_variables@[i] as int].local_storage_index
            != now.variables@[before.frames@[g].declared_variables@[j] as int].local_storage_index,
{
    let list = before.frames@[g].declared_variables@;
    assert(variable_allocated(before, root, n_repl, now, g, i));
    assert(variable_allocated(before, root, n_repl, now, g, j));
    let t = now.variables@[list[i] as int].local_storage_type;
    lemma_rank_step(before, root, n_repl, list, i, j, t);
}

/// The slots of an allocated frame are used without gaps: each slot number
/// below the frame's count for a storage type is the slot of one of its
/// variables stored that way.
pub proof fn lemma_slots_dense(before: &Annotations, root: int, n_repl: int, now: &Annotations, g: int, t: LocalStorageType, k: usize)
    requires
        0 <= g < before.frames@.len(),
        frame_allocated(before, root, n_repl, now, g),
        k < slot_count(now.frames@[g], t),
    ensures
        exists|i: int| 0 <= i < before.frames@[g].declared_variables@.len()
            && now.variables@[before.frames@[g].declared_variables@[i] as int].local_storage_type == t
            && #[trigger] now.variables@[before.frames@[g].declared_variables@[i] as int].local_storage_index == k,
{
    let list = before.frames@[g].declared_variables@;
    lemma_rank_onto(before, root, n_repl, list, list.len() as int, k as nat, t);
    let i = choose|i: int| 0 <= i < list.len() && target_types(before, root, n_repl, list[i]).0 == t
        && #[trigger] local_rank(before, root, n_repl, list, i, t) == k;
    assert(variable_allocated(before, root, n_repl, now, g, i));
    assert(now.variables@[list[i] as int].local_storage_index == k);
}


/// Where a variable is stored follows from how closures use it: a variable
/// that a closure binds and that its own frame assigns after the first
/// binding lives in a shared cell, however many closures bind it; one that
/// closures bind, that none of them assigns and that is not assigned after
/// the first binding is a local slot with a static copy in each closure; and
/// one that no closure binds is a local slot.
pub proof fn lemma_storage_follows_use(v: Variable)
    ensures
        v.root_binds@.len() > 0 && written_after(v, v.root_binds@[0].time)
            ==> storage_types(v) == (LocalStorageType::SharedLocal, BoundStorageType::SharedBound),
        v.root_binds@.len() > 0 && !written_after(v, v.root_binds@[0].time)
            && (forall|k: int| 0 <= k < v.root_binds@.len() ==> !(#[trigger] v.root_binds@[k]).mutable)
            ==> storage_types(v) == (LocalStorageType::Local, BoundStorageType::StaticBound),
        v.root_binds@.len() == 0 ==> storage_types(v).0 == LocalStorageType::Local,
{
}

} // verus!
