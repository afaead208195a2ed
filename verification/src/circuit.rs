//! The circuit: a store of wires, the signals resolved so far, and the
//! passes that resolve them.

use vstd::prelude::*;
use vstd::string::StringExecFns;
use crate::error::Error;
use crate::error::ErrorView;
use crate::gate::Gate;
use crate::gate::GateView;
use crate::gate::checked_inputs;
use crate::gate::checked_shift;
use crate::pass::PassView;
use crate::pass::StepView;
use crate::pass::ends;
use crate::pass::first_pass;
use crate::pass::has_unresolved_loop;
use crate::pass::keeps_resolved;
use crate::pass::passed;
use crate::pass::plan;
use crate::pass::poisoned;
use crate::pass::present;
use crate::pass::status;
use crate::pass::step_of;
use crate::pass::touches_needed_only;
use crate::pass::unmarked;
use crate::pass::unresolved;
use crate::pass::waiting_in;
use crate::pass_proof::lemma_all_seeded;
use crate::pass_proof::lemma_pass_done;
use crate::pass_proof::lemma_pass_emit;
use crate::pass_proof::lemma_pass_end;
use crate::pass_proof::lemma_pass_poison;
use crate::pass_proof::lemma_pass_root;
use crate::pass_proof::lemma_pass_start;
use crate::pass_proof::lemma_pass_visit;
use crate::pass_proof::lemma_reaches_end;
use crate::pass_proof::lemma_reaches_start;
use crate::pass_proof::lemma_reaches_step;
use crate::pass_proof::lemma_remark_step;
use crate::pass_proof::lemma_remarked;
use crate::pass_proof::lemma_subrange_contains;
use crate::pass_proof::listed_from;
use crate::pass_proof::pass_inv;
use crate::pass_proof::poisoned_from;
use crate::pass_proof::reaches;
use crate::pass_proof::remarked;
use crate::semantics::dangling;
use crate::semantics::has_value;
use crate::semantics::inputs_of;
use crate::semantics::lemma_value_extends;
use crate::semantics::settled;
use crate::semantics::value_within;
use crate::signal::Signal;
use crate::store::WireStore;
use crate::store::clone_ids;
use crate::store::lemma_names_add;
use crate::store::lemma_names_push;
use crate::store::lemma_names_subrange;
use crate::store::names;
use crate::store::order_without;
use crate::store::sort_dedup;
use crate::store::wire_views;
use crate::store::wires_in_order;
use crate::text::split;
use crate::text::split_at;
use crate::text::texts;
use crate::text::trim_end;
use crate::text::trimmed_end;
use crate::wire::InputView;
use crate::wire::Wire;
use crate::wire::WireInput;
use crate::wire::WireView;
use crate::wire::gate_wire;
use crate::wire::named_wire;
use crate::wire::passing_wire;
use crate::wire::wire_of_text;
use crate::wire::wire_result_view;
use crate::wire::wire_text;
use crate::wire_id::WireId;
use crate::wire_id::strictly_sorted;
use crate::wire_id::valid_id;

verus! {

/// A set of wires, with the signals resolved so far and the lists of wires
/// that the next pass has to look at.
pub struct Circuit {
    store: WireStore,
    uncomputed: Vec<WireId>,
    uncomputable: Vec<WireId>,
}

/// A [`Circuit`] as plain values.
pub struct CircuitView {
    /// The wires by name.
    pub wires: Map<Seq<char>, WireView>,
    /// The names of the wires in the order in which the circuit keeps them.
    pub order: Seq<Seq<char>>,
    /// The wires waiting to be resolved.
    pub uncomputed: Seq<Seq<char>>,
    /// The wires found to depend on a missing wire.
    pub uncomputable: Seq<Seq<char>>,
}

impl CircuitView {
    /// What feeds each wire.
    pub open spec fn inputs(self) -> Map<Seq<char>, InputView> {
        inputs_of(self.wires)
    }

    /// Each wire is kept under its own name and is well formed.
    pub open spec fn keyed(self) -> bool {
        forall|k: Seq<char>| #[trigger]
            self.wires.contains_key(k) ==> self.wires[k].id == k && self.wires[k].well_formed()
    }

    /// Every value that a wire carries derives from the constants of the
    /// circuit.
    pub open spec fn sound(self) -> bool {
        forall|k: Seq<char>| #[trigger]
            self.wires.contains_key(k) ==> match self.wires[k].signal {
                Signal::Value(v) => has_value(self.inputs(), k, v),
                _ => true,
            }
    }

    /// Every unresolved wire waits to be resolved.
    pub open spec fn pending_listed(self) -> bool {
        forall|k: Seq<char>| #[trigger]
            self.wires.contains_key(k) && self.wires[k].signal == Signal::Uncomputed
                ==> self.uncomputed.contains(k)
    }

    /// The list of uncomputable wires holds the wires marked so, and no
    /// other name.
    pub open spec fn poisoned_listed(self) -> bool {
        &&& forall|k: Seq<char>| #[trigger]
            self.wires.contains_key(k) && self.wires[k].signal == Signal::Uncomputable
                ==> self.uncomputable.contains(k)
        &&& forall|i: int|
            0 <= i < self.uncomputable.len() ==> self.wires.contains_key(
                #[trigger] self.uncomputable[i],
            ) && self.wires[self.uncomputable[i]].signal == Signal::Uncomputable
    }

    /// Every wire marked uncomputable depends on a wire that the circuit
    /// lacks.
    pub open spec fn justified(self) -> bool {
        forall|k: Seq<char>| #[trigger]
            self.wires.contains_key(k) && self.wires[k].signal == Signal::Uncomputable
                ==> dangling(self.inputs(), k)
    }

    /// The circuit keeps the name of each wire once, and no other name.
    pub open spec fn ordered(self) -> bool {
        &&& self.order.no_duplicates()
        &&& forall|k: Seq<char>| self.order.contains(k) <==> self.wires.contains_key(k)
    }

    /// The wires in the order in which the circuit keeps them.
    pub open spec fn wires_in_order(self) -> Seq<WireView> {
        wires_in_order(self.wires, self.order)
    }

    /// What holds of a circuit between any two operations.
    pub open spec fn consistent(self) -> bool {
        &&& self.wires.dom().finite()
        &&& self.ordered()
        &&& self.keyed()
        &&& self.sound()
        &&& self.pending_listed()
        &&& self.poisoned_listed()
    }

    /// The same wires with the same inputs as `other`, whatever the signals.
    pub open spec fn same_wiring(self, other: CircuitView) -> bool {
        &&& self.order == other.order
        &&& self.wires.dom() == other.wires.dom()
        &&& forall|k: Seq<char>| #[trigger]
            self.wires.contains_key(k) ==> self.wires[k] == (WireView {
                signal: self.wires[k].signal,
                ..other.wires[k]
            })
    }
}

impl View for Circuit {
    type V = CircuitView;

    closed spec fn view(&self) -> CircuitView {
        CircuitView {
            wires: self.store@,
            order: self.store.order(),
            uncomputed: names(self.uncomputed@),
            uncomputable: names(self.uncomputable@),
        }
    }
}

impl Clone for Circuit {
    /// A circuit of copies of the same wires, with the same signals and the
    /// same lists.
    fn clone(&self) -> (copy: Circuit)
        ensures
            self.wf() ==> copy.wf() && copy@ == self@,
    {
        Circuit {
            store: self.store.clone(),
            uncomputed: clone_ids(&self.uncomputed),
            uncomputable: clone_ids(&self.uncomputable),
        }
    }
}

impl Default for Circuit {
    fn default() -> (circuit: Circuit)
        ensures
            circuit.wf(),
            circuit@.wires == Map::<Seq<char>, WireView>::empty(),
            circuit@.order == Seq::<Seq<char>>::empty(),
            circuit@.uncomputed == Seq::<Seq<char>>::empty(),
            circuit@.uncomputable == Seq::<Seq<char>>::empty(),
    {
        Circuit::new()
    }
}

impl Circuit {
    /// The store is in order and the circuit is consistent.
    pub closed spec fn wf(&self) -> bool {
        self.store.wf() && self@.consistent()
    }

    /// What a well-formed circuit offers to its users.
    pub proof fn lemma_wf(&self)
        requires
            self.wf(),
        ensures
            self@.consistent(),
    {
    }

    /// Creates an empty circuit.
    pub fn new() -> (circuit: Circuit)
        ensures
            circuit.wf(),
            circuit@.wires == Map::<Seq<char>, WireView>::empty(),
            circuit@.order == Seq::<Seq<char>>::empty(),
            circuit@.uncomputed == Seq::<Seq<char>>::empty(),
            circuit@.uncomputable == Seq::<Seq<char>>::empty(),
    {
        let circuit = Circuit {
            store: WireStore::new(),
            uncomputed: Vec::new(),
            uncomputable: Vec::new(),
        };
        assert(circuit@.uncomputed =~= Seq::<Seq<char>>::empty());
        assert(circuit@.uncomputable =~= Seq::<Seq<char>>::empty());
        circuit
    }

    /// Adds `wire`, unresolved, and lists it for the next pass; refuses a
    /// name that the circuit already holds.
    pub fn add(&mut self, wire: Wire) -> (r: Result<(), Error>)
        requires
            old(self).wf(),
        ensures
            final(self).wf(),
            old(self)@.wires.contains_key(wire@.id) ==> r is Err && r->Err_0@
                == ErrorView::WireIdAlreadyExists(wire@.id) && final(self)@ == old(self)@,
            !old(self)@.wires.contains_key(wire@.id) ==> r is Ok && final(self)@ == (CircuitView {
                wires: old(self)@.wires.insert(
                    wire@.id,
                    WireView { signal: Signal::Uncomputed, ..wire@ },
                ),
                order: old(self)@.order.push(wire@.id),
                uncomputed: old(self)@.uncomputed.push(wire@.id),
                uncomputable: old(self)@.uncomputable,
            }),
    {
        if self.store.contains(wire.id()) {
            return Err(Error::WireIdAlreadyExists(wire.id().to_string()));
        }
        let ghost before = *self;
        let mut fresh = wire;
        fresh.set_signal(Signal::Uncomputed);
        let id = fresh.id().clone();
        proof {
            lemma_names_push(self.uncomputed@, id);
        }
        self.uncomputed.push(id);
        self.store.insert(fresh);
        proof {
            let name = wire@.id;
            let old_inputs = before@.inputs();
            let new_inputs = self@.inputs();
            self.store.lemma_wf();
            assert(self@.wires.dom() =~= before@.wires.dom().insert(name));
            assert forall|k: Seq<char>| #[trigger] self@.wires.contains_key(k) implies match self@.wires[k].signal {
                Signal::Value(v) => has_value(new_inputs, k, v),
                _ => true,
            } by {
                if k != name {
                    assert(before@.wires.contains_key(k));
                    if let Signal::Value(v) = before@.wires[k].signal {
                        let d = choose|depth: nat| value_within(old_inputs, k, depth) == Some(v);
                        lemma_value_extends(old_inputs, new_inputs, k, d);
                    }
                }
            }
            assert forall|k: Seq<char>| #[trigger]
                self@.wires.contains_key(k) && self@.wires[k].signal
                    == Signal::Uncomputed implies self@.uncomputed.contains(k) by {
                if k != name {
                    assert(before@.wires.contains_key(k));
                    let i = choose|i: int|
                        0 <= i < before@.uncomputed.len() && before@.uncomputed[i] == k;
                    assert(self@.uncomputed[i] == k);
                } else {
                    assert(self@.uncomputed[before@.uncomputed.len() as int] == k);
                }
            }
            assert forall|k: Seq<char>| #[trigger]
                self@.wires.contains_key(k) && self@.wires[k].signal
                    == Signal::Uncomputable implies self@.uncomputable.contains(k) by {
                assert(before@.wires.contains_key(k));
            }
        }
        Ok(())
    }

    /// The wires in the order in which the circuit keeps them.
    pub fn get_wires(&self) -> (wires: &Vec<Wire>)
        requires
            self.wf(),
        ensures
            wire_views(wires@) == self@.wires_in_order(),
            wires@.len() == self@.wires.dom().len(),
            forall|i: int|
                0 <= i < wires@.len() ==> self@.wires.contains_key(#[trigger] wires@[i]@.id)
                    && self@.wires[wires@[i]@.id] == wires@[i]@,
            forall|k: Seq<char>| #[trigger]
                self@.wires.contains_key(k) ==> exists|i: int|
                    0 <= i < wires@.len() && #[trigger] wires@[i]@.id == k,
    {
        self.store.wires()
    }

    /// The wire named by the text `id`.
    pub fn get_wire(&self, id: &str) -> (r: Result<&Wire, Error>)
        requires
            self.wf(),
        ensures
            match r {
                Ok(wire) => self@.wires.contains_key(id@) && wire@ == self@.wires[id@],
                Err(e) => e@ == if valid_id(id@) {
                    ErrorView::UnknownWireId(id@)
                } else {
                    ErrorView::InvalidWireId(id@)
                } && (!valid_id(id@) || !self@.wires.contains_key(id@)),
            },
    {
        match WireId::new(id) {
            Ok(id) => self.get_wire_of(&id),
            Err(e) => {
                proof {
                    self.store.lemma_wf();
                }
                Err(e)
            },
        }
    }

    /// The wire named `id`.
    pub fn get_wire_of(&self, id: &WireId) -> (r: Result<&Wire, Error>)
        requires
            self.wf(),
        ensures
            match r {
                Ok(wire) => self@.wires.contains_key(id@) && wire@ == self@.wires[id@],
                Err(e) => !self@.wires.contains_key(id@) && e@ == ErrorView::UnknownWireId(id@),
            },
    {
        match self.store.get(id) {
            Some(wire) => Ok(wire),
            None => Err(Error::UnknownWireId(id.to_string())),
        }
    }

    /// The wire named `id`, which the circuit must hold.
    pub fn wire_of(&self, id: &WireId) -> (wire: &Wire)
        requires
            self.wf(),
            self@.wires.contains_key(id@),
        ensures
            wire@ == self@.wires[id@],
    {
        match self.store.get(id) {
            Some(wire) => wire,
            None => unreached(),
        }
    }

    /// The signal of the wire named by the text `id`, as it is now: nothing
    /// is resolved on the way.
    pub fn get_signal(&self, id: &str) -> (r: Result<Signal, Error>)
        requires
            self.wf(),
        ensures
            match r {
                Ok(signal) => self@.wires.contains_key(id@) && signal == self@.wires[id@].signal,
                Err(e) => e@ == if valid_id(id@) {
                    ErrorView::UnknownWireId(id@)
                } else {
                    ErrorView::InvalidWireId(id@)
                } && (!valid_id(id@) || !self@.wires.contains_key(id@)),
            },
    {
        match self.get_wire(id) {
            Ok(wire) => Ok(*wire.signal()),
            Err(e) => Err(e),
        }
    }

    /// The signal of the wire named by the text `id`, which the circuit must
    /// hold.
    pub fn signal(&self, id: &str) -> (signal: Signal)
        requires
            self.wf(),
            self@.wires.contains_key(id@),
        ensures
            signal == self@.wires[id@].signal,
    {
        match self.get_signal(id) {
            Ok(signal) => signal,
            Err(_) => unreached(),
        }
    }

    /// The signal of the wire named `id`, as it is now.
    pub fn get_signal_of(&self, id: &WireId) -> (r: Result<Signal, Error>)
        requires
            self.wf(),
        ensures
            match r {
                Ok(signal) => self@.wires.contains_key(id@) && signal == self@.wires[id@].signal,
                Err(e) => !self@.wires.contains_key(id@) && e@ == ErrorView::UnknownWireId(id@),
            },
    {
        match self.get_wire_of(id) {
            Ok(wire) => Ok(*wire.signal()),
            Err(e) => Err(e),
        }
    }

    /// The signal of the wire named `id`, which the circuit must hold.
    pub fn signal_of(&self, id: &WireId) -> (signal: Signal)
        requires
            self.wf(),
            self@.wires.contains_key(id@),
        ensures
            signal == self@.wires[id@].signal,
    {
        *self.wire_of(id).signal()
    }

    /// The names waiting to be resolved.
    pub fn uncomputed(&self) -> (ids: &Vec<WireId>)
        ensures
            names(ids@) == self@.uncomputed,
    {
        &self.uncomputed
    }

    /// The names of the wires found to depend on a missing wire.
    pub fn uncomputable(&self) -> (ids: &Vec<WireId>)
        ensures
            names(ids@) == self@.uncomputable,
    {
        &self.uncomputable
    }
}

/// What a pass does next with a wire.
#[derive(Debug, PartialEq, Eq)]
pub enum Step {
    /// The wire has its value: leave it.
    Done,
    /// Every wire that it reads has a value: the wire gets this one.
    Emit(u16),
    /// The wire is missing or marked uncomputable, or reads such a wire:
    /// whatever waits for it is uncomputable.
    Poison,
    /// The wire reads this unresolved wire, which has to be resolved first.
    Visit(WireId),
}

impl View for Step {
    type V = StepView;

    open spec fn view(&self) -> StepView {
        match self {
            Step::Done => StepView::Done,
            Step::Emit(v) => StepView::Emit(*v),
            Step::Poison => StepView::Poison,
            Step::Visit(id) => StepView::Visit(id@),
        }
    }
}

impl Circuit {
    /// The signal of the wire `id` as another wire sees it.
    fn status_of(&self, id: &WireId) -> (signal: Signal)
        requires
            self.store.wf(),
        ensures
            signal == status(self@.wires, id@),
    {
        match self.store.get(id) {
            Some(wire) => *wire.signal(),
            None => Signal::Uncomputable,
        }
    }

    /// The step for a wire that reads the single wire `input`, through
    /// `gate` if there is one.
    fn plan_single(&self, input: &WireId, gate: Option<&Gate>) -> (step: Step)
        requires
            self.store.wf(),
            match gate {
                Some(gate) => gate@.second() is None && gate@.first() == input@
                    && gate@.shift_in_range(),
                None => true,
            },
        ensures
            step@ == plan(
                self@.wires,
                match gate {
                    Some(gate) => InputView::Gate(gate@),
                    None => InputView::Wire(input@),
                },
            ),
    {
        match self.status_of(input) {
            Signal::Value(a) => match gate {
                Some(gate) => match gate.signal(a, None) {
                    Signal::Value(v) => Step::Emit(v),
                    _ => unreached(),
                },
                None => Step::Emit(a),
            },
            Signal::Uncomputable => Step::Poison,
            Signal::Uncomputed => Step::Visit(input.clone()),
        }
    }

    /// The step for a wire fed by `gate`, which reads `input1` and `input2`.
    fn plan_pair(&self, gate: &Gate, input1: &WireId, input2: &WireId) -> (step: Step)
        requires
            self.store.wf(),
            gate@.first() == input1@,
            gate@.second() == Some(input2@),
        ensures
            step@ == plan(self@.wires, InputView::Gate(gate@)),
    {
        let first = self.status_of(input1);
        let second = self.status_of(input2);
        match (first, second) {
            (Signal::Value(a), Signal::Value(b)) => match gate.signal(a, Some(b)) {
                Signal::Value(v) => Step::Emit(v),
                _ => unreached(),
            },
            (Signal::Uncomputable, _) => Step::Poison,
            (_, Signal::Uncomputable) => Step::Poison,
            (Signal::Uncomputed, _) => Step::Visit(input1.clone()),
            (_, Signal::Uncomputed) => Step::Visit(input2.clone()),
        }
    }

    /// What a pass does next with the wire `id`.
    fn step(&self, id: &WireId) -> (step: Step)
        requires
            self.store.wf(),
        ensures
            step@ == step_of(self@.wires, id@),
    {
        let wire = match self.store.get(id) {
            Some(wire) => wire,
            None => { return Step::Poison; },
        };
        match wire.signal() {
            Signal::Value(_) => Step::Done,
            Signal::Uncomputable => Step::Poison,
            Signal::Uncomputed => match wire.input() {
                WireInput::Value(value) => Step::Emit(*value),
                WireInput::Wire(input) => self.plan_single(input, None),
                WireInput::Gate(gate) => match gate {
                    Gate::And { input1, input2 } => self.plan_pair(gate, input1, input2),
                    Gate::Or { input1, input2 } => self.plan_pair(gate, input1, input2),
                    Gate::AndValue { input, .. } => self.plan_single(input, Some(gate)),
                    Gate::OrValue { input, .. } => self.plan_single(input, Some(gate)),
                    Gate::LShift { input, .. } => self.plan_single(input, Some(gate)),
                    Gate::RShift { input, .. } => self.plan_single(input, Some(gate)),
                    Gate::Not { input } => self.plan_single(input, Some(gate)),
                },
            },
        }
    }

    /// What a pass does next with the wire `id`: nothing if it has its value;
    /// give it a value if all that it reads have theirs; give up on it if it
    /// is missing or uncomputable or reads such a wire; else resolve first
    /// the leftmost unresolved wire that it reads.
    pub fn next_step(&self, id: &WireId) -> (step: Step)
        requires
            self.wf(),
        ensures
            step@ == step_of(self@.wires, id@),
    {
        self.step(id)
    }
}

impl Circuit {
    /// Whether `id` stands in `ids` at or after the place `from`.
    fn in_chain(ids: &Vec<WireId>, from: usize, id: &WireId) -> (found: bool)
        requires
            from <= ids@.len(),
        ensures
            found == exists|j: int| from <= j < ids@.len() && names(ids@)[j] == id@,
    {
        let mut j = from;
        while j < ids.len()
            invariant
                from <= j <= ids@.len(),
                forall|i: int| from <= i < j ==> names(ids@)[i] != id@,
            decreases ids@.len() - j,
        {
            if ids[j].same_as(id) {
                assert(names(ids@)[j as int] == id@);
                return true;
            }
            j = j + 1;
        }
        false
    }

    /// Marks as uncomputable the wires named in `ids` from the place
    /// `root_index` on, lists them as such, and hands back what stood before
    /// that place. A name without a wire is dropped.
    fn set_uncomputable_from_index(&mut self, ids: Vec<WireId>, root_index: usize) -> (rest: Vec<
        WireId,
    >)
        requires
            old(self).store.wf(),
            root_index <= ids@.len(),
        ensures
            final(self).store.wf(),
            rest@ == ids@.subrange(0, root_index as int),
            poisoned_from(
                old(self)@.wires,
                final(self)@.wires,
                names(ids@).subrange(root_index as int, ids@.len() as int),
            ),
            final(self)@.uncomputed == old(self)@.uncomputed,
            final(self)@.order == old(self)@.order,
            listed_from(
                old(self)@.uncomputable,
                final(self)@.uncomputable,
                names(ids@).subrange(root_index as int, ids@.len() as int),
                old(self)@.wires,
            ),
            final(self)@.wires == poisoned(
                old(self)@.wires,
                names(ids@).subrange(root_index as int, ids@.len() as int),
            ),
            final(self)@.uncomputable == old(self)@.uncomputable + present(
                old(self)@.wires,
                names(ids@).subrange(root_index as int, ids@.len() as int),
            ),
    {
        let mut pile = ids;
        let ghost before = *self;
        let ghost stack = names(pile@);
        let n = pile.len();
        let mut i = root_index;
        assert(stack.subrange(root_index as int, i as int) =~= Seq::<Seq<char>>::empty());
        assert(self@.uncomputable =~= before@.uncomputable + present(
            before@.wires,
            stack.subrange(root_index as int, i as int),
        ));
        while i < n
            invariant
                root_index <= i <= n,
                n == pile@.len(),
                stack == names(pile@),
                self.store.wf(),
                poisoned_from(
                    before@.wires,
                    self@.wires,
                    stack.subrange(root_index as int, i as int),
                ),
                self@.uncomputed == before@.uncomputed,
                self@.order == before@.order,
                listed_from(
                    before@.uncomputable,
                    self@.uncomputable,
                    stack.subrange(root_index as int, i as int),
                    before@.wires,
                ),
                self@.uncomputable == before@.uncomputable + present(
                    before@.wires,
                    stack.subrange(root_index as int, i as int),
                ),
            decreases n - i,
        {
            let ghost prev = *self;
            let ghost done = stack.subrange(root_index as int, i as int);
            let ghost next = stack.subrange(root_index as int, i + 1);
            let ghost name = stack[i as int];
            let found = self.store.set_signal(&pile[i], Signal::Uncomputable);
            if found {
                let id = pile[i].clone();
                proof {
                    lemma_names_push(self.uncomputable@, id);
                }
                self.uncomputable.push(id);
            }
            proof {
                assert(pile@[i as int]@ == name);
                assert(found == prev@.wires.contains_key(name));
                assert(prev@.wires.dom() == before@.wires.dom());
                assert(next =~= done.push(name));
                assert forall|k: Seq<char>| next.contains(k) <==> done.contains(k) || k == name by {
                    if next.contains(k) {
                        let j = choose|j: int| 0 <= j < next.len() && next[j] == k;
                        if j < done.len() {
                            assert(done[j] == k);
                        }
                    }
                    if done.contains(k) {
                        let j = choose|j: int| 0 <= j < done.len() && done[j] == k;
                        assert(next[j] == k);
                    }
                    if k == name {
                        assert(next[done.len() as int] == k);
                    }
                }
                assert forall|k: Seq<char>| #[trigger]
                    self@.uncomputable.contains(k) <==> before@.uncomputable.contains(k) || (
                    next.contains(k) && before@.wires.contains_key(k)) by {
                    let was = prev@.uncomputable;
                    let now = self@.uncomputable;
                    assert(was.contains(k) <==> before@.uncomputable.contains(k) || (done.contains(k)
                        && before@.wires.contains_key(k)));
                    assert(next.contains(k) <==> done.contains(k) || k == name);
                    if found {
                        assert(now == was.push(name));
                        if now.contains(k) {
                            let j = choose|j: int| 0 <= j < now.len() && now[j] == k;
                            if j < was.len() {
                                assert(was[j] == k);
                            }
                        }
                        if was.contains(k) {
                            let j = choose|j: int| 0 <= j < was.len() && was[j] == k;
                            assert(now[j] == k);
                        }
                        if k == name {
                            assert(now[was.len() as int] == k);
                        }
                    } else {
                        assert(now == was);
                        assert(!before@.wires.contains_key(name));
                    }
                }
                assert forall|k: Seq<char>| #[trigger] self@.wires.contains_key(k) implies self@.wires[k]
                    == if next.contains(k) {
                    WireView { signal: Signal::Uncomputable, ..before@.wires[k] }
                } else {
                    before@.wires[k]
                } by {
                    assert(prev@.wires.contains_key(k));
                    assert(next.contains(k) <==> done.contains(k) || k == name);
                    assert(prev@.wires[k] == if done.contains(k) {
                        WireView { signal: Signal::Uncomputable, ..before@.wires[k] }
                    } else {
                        before@.wires[k]
                    });
                }
                assert(self@.wires.dom() =~= before@.wires.dom());
                assert(poisoned_from(before@.wires, self@.wires, next));
                assert(next.drop_last() =~= done);
                assert(next.last() == name);
                assert(self@.uncomputable =~= before@.uncomputable + present(before@.wires, next));
                assert(listed_from(before@.uncomputable, self@.uncomputable, next, before@.wires));
            }
            i = i + 1;
        }
        proof {
            lemma_names_subrange(pile@, 0, root_index as int);
            assert(self@.wires =~= poisoned(
                before@.wires,
                stack.subrange(root_index as int, n as int),
            ));
        }
        pile.truncate(root_index);
        pile
    }
}

impl Circuit {
    /// Resolves the wires named in `ids` and what they depend on. Where it
    /// finds a loop it stops and puts what is left of its stack on the list
    /// of waiting wires.
    fn resolve(&mut self, ids: Vec<WireId>) -> (r: Result<(), Error>)
        requires
            old(self).store.wf(),
            old(self)@.sound(),
            old(self)@.poisoned_listed(),
        ensures
            final(self).store.wf(),
            final(self)@.same_wiring(old(self)@),
            final(self)@.sound(),
            final(self)@.poisoned_listed(),
            keeps_resolved(old(self)@.wires, final(self)@.wires),
            touches_needed_only(old(self)@.wires, final(self)@.wires, names(ids@)),
            old(self)@.justified() ==> final(self)@.justified(),
            old(self)@.uncomputable.is_prefix_of(final(self)@.uncomputable),
            old(self)@.uncomputed.is_prefix_of(final(self)@.uncomputed),
            passed(old(self)@, names(ids@), final(self)@, r is Ok),
            r is Ok ==> final(self)@.uncomputed == old(self)@.uncomputed && waiting_in(
                final(self)@.wires,
                names(ids@),
                Seq::empty(),
            ),
            r is Err ==> r->Err_0@ == ErrorView::CircuitLoop && has_unresolved_loop(
                final(self)@.wires,
            )
                && waiting_in(final(self)@.wires, names(ids@), final(self)@.uncomputed),
    {
        let mut pile = ids;
        let ghost start = *self;
        let ghost seeds = names(pile@);
        let ghost mut unvisited = self@.wires.dom();
        let mut root_index: usize = if pile.len() == 0 {
            0
        } else {
            pile.len() - 1
        };
        let ghost first = first_pass(start@.wires, start@.uncomputable, seeds);
        let ghost mut steps: nat = 0;
        proof {
            self.store.lemma_wf();
            lemma_pass_start(start@, seeds, root_index as int);
            lemma_reaches_start(first);
        }
        while pile.len() > 0
            invariant
                self.store.wf(),
                start@ == old(self)@,
                seeds == names(ids@),
                root_index <= pile@.len(),
                pass_inv(start@, self@, names(pile@), root_index as int, unvisited, seeds),
                first == first_pass(start@.wires, start@.uncomputable, seeds),
                reaches(
                    first,
                    steps,
                    PassView {
                        wires: self@.wires,
                        uncomputable: self@.uncomputable,
                        stack: names(pile@),
                        root: root_index as int,
                    },
                ),
            decreases unvisited.len(), pile@.len(),
        {
            let n = pile.len();
            let ghost stack = names(pile@);
            let ghost held = pile@;
            let ghost before = *self;
            let ghost now = PassView {
                wires: self@.wires,
                uncomputable: self@.uncomputable,
                stack: stack,
                root: root_index as int,
            };
            if root_index > n - 1 {
                proof {
                    lemma_pass_root(start@, self@, stack, root_index as int, unvisited, seeds);
                }
                root_index = n - 1;
            }
            let ghost root = root_index as int;
            assert(held[n - 1]@ == stack.last());
            let step = self.step(&pile[n - 1]);
            match step {
                Step::Done => {
                    pile.pop();
                    proof {
                        lemma_names_subrange(held, 0, n - 1);
                        assert(names(pile@) == stack.drop_last());
                        lemma_pass_done(start@, self@, stack, root, unvisited, seeds);
                        let next = PassView { stack: stack.drop_last(), root, ..now };
                        lemma_reaches_step(first, steps, now, next);
                        steps = steps + 1;
                    }
                },
                Step::Emit(v) => {
                    self.store.set_signal(&pile[n - 1], Signal::Value(v));
                    pile.pop();
                    proof {
                        lemma_names_subrange(held, 0, n - 1);
                        assert(names(pile@) == stack.drop_last());
                        lemma_pass_emit(start@, before@, self@, stack, root, unvisited, seeds, v);
                        let next = PassView {
                            wires: self@.wires,
                            stack: stack.drop_last(),
                            root,
                            ..now
                        };
                        lemma_reaches_step(first, steps, now, next);
                        steps = steps + 1;
                    }
                },
                Step::Poison => {
                    pile = self.set_uncomputable_from_index(pile, root_index);
                    proof {
                        lemma_names_subrange(held, 0, root);
                        assert(names(pile@) == stack.subrange(0, root));
                        lemma_pass_poison(start@, before@, self@, stack, root, unvisited, seeds);
                        let next = PassView {
                            wires: self@.wires,
                            uncomputable: self@.uncomputable,
                            stack: stack.subrange(0, root),
                            root,
                        };
                        lemma_reaches_step(first, steps, now, next);
                        steps = steps + 1;
                    }
                },
                Step::Visit(input) => {
                    proof {
                        lemma_pass_visit(start@, self@, stack, root, unvisited, seeds, input@);
                        assert(stack.len() == held.len());
                        lemma_subrange_contains(stack, root, input@);
                    }
                    if Circuit::in_chain(&pile, root_index, &input) {
                        proof {
                            let at = choose|j: int| root <= j < held.len() && stack[j] == input@;
                            assert(root <= at < stack.len() && stack[at] == input@);
                            lemma_pass_end(start@, self@, stack, root, unvisited, seeds);
                            lemma_names_add(self.uncomputed@, pile@);
                            lemma_reaches_end(first, steps, now, false);
                            assert(ends(first, steps, now, false));
                        }
                        self.uncomputed.append(&mut pile);
                        assert(self@.wires == before@.wires);
                        assert(self@.uncomputable == before@.uncomputable);
                        assert(self@.uncomputed == before@.uncomputed + stack);
                        return Err(Error::CircuitLoop);
                    }
                    proof {
                        lemma_names_push(pile@, input);
                        unvisited = unvisited.remove(input@);
                        let next = PassView { stack: stack.push(input@), root, ..now };
                        lemma_reaches_step(first, steps, now, next);
                        steps = steps + 1;
                    }
                    pile.push(input);
                },
            }
        }
        proof {
            assert(names(pile@) =~= Seq::<Seq<char>>::empty());
            lemma_pass_end(start@, self@, names(pile@), root_index as int, unvisited, seeds);
            let end = PassView {
                wires: self@.wires,
                uncomputable: self@.uncomputable,
                stack: names(pile@),
                root: root_index as int,
            };
            lemma_reaches_end(first, steps, end, true);
            assert(ends(first, steps, end, true));
            assert(self@.uncomputed =~= start@.uncomputed + end.stack);
        }
        Ok(())
    }
}

impl Circuit {
    /// Resolves the wires named in `ids` and every wire that they depend on.
    ///
    /// Wires that have a signal keep it. A wire gets the value that derives
    /// from the constants of the circuit; a wire that is missing, or reads a
    /// missing or uncomputable wire, makes uncomputable the whole chain of
    /// wires that waited for it. The pass fails where an unresolved wire
    /// depends on itself; what it had not settled by then is put on the list
    /// of waiting wires.
    pub fn compute_signals_of(&mut self, ids: Vec<WireId>) -> (r: Result<(), Error>)
        requires
            old(self).wf(),
        ensures
            final(self).wf(),
            passed(old(self)@, names(ids@), final(self)@, r is Ok),
            final(self)@.same_wiring(old(self)@),
            keeps_resolved(old(self)@.wires, final(self)@.wires),
            touches_needed_only(old(self)@.wires, final(self)@.wires, names(ids@)),
            old(self)@.justified() ==> final(self)@.justified(),
            old(self)@.uncomputable.is_prefix_of(final(self)@.uncomputable),
            old(self)@.uncomputed.is_prefix_of(final(self)@.uncomputed),
            r is Ok ==> final(self)@.uncomputed == old(self)@.uncomputed && forall|i: int|
                0 <= i < ids@.len() ==> !unresolved(final(self)@.wires, #[trigger] names(ids@)[i]),
            r is Err ==> r->Err_0@ == ErrorView::CircuitLoop && has_unresolved_loop(
                final(self)@.wires,
            ),
    {
        let ghost before = *self;
        let r = self.resolve(ids);
        proof {
            self.store.lemma_wf();
            assert forall|k: Seq<char>| #[trigger]
                self@.wires.contains_key(k) && self@.wires[k].signal
                    == Signal::Uncomputed implies self@.uncomputed.contains(k) by {
                assert(before@.wires.contains_key(k));
                assert(before@.uncomputed.contains(k));
                let i = choose|i: int|
                    0 <= i < before@.uncomputed.len() && before@.uncomputed[i] == k;
                assert(self@.uncomputed[i] == k);
            }
            if r is Ok {
                assert forall|i: int| 0 <= i < ids@.len() implies !unresolved(
                    self@.wires,
                    #[trigger] names(ids@)[i],
                ) by {
                    if unresolved(self@.wires, names(ids@)[i]) {
                        assert(Seq::<Seq<char>>::empty().contains(names(ids@)[i]));
                    }
                }
            }
        }
        r
    }

    /// Resolves every wire: first the wires found uncomputable before, which
    /// are tried again, then the wires that wait.
    ///
    /// On success every wire carries its right signal: its value, or the
    /// mark of a wire that depends on a missing one; no wire waits, and the
    /// uncomputable wires are listed in order, each once. The pass fails
    /// where an unresolved wire depends on itself; the wires that it left
    /// unresolved wait for the next pass.
    pub fn compute_signals(&mut self) -> (r: Result<(), Error>)
        requires
            old(self).wf(),
        ensures
            final(self).wf(),
            passed_over_all(old(self)@, final(self)@, r is Ok),
            computed(old(self)@, final(self)@, r is Ok),
            r is Err ==> r->Err_0@ == ErrorView::CircuitLoop,
    {
        let ghost before = *self;
        let mut to_be_computed: Vec<WireId> = Vec::new();
        std::mem::swap(&mut self.uncomputable, &mut to_be_computed);
        let ghost list = names(to_be_computed@);
        let n = to_be_computed.len();
        let mut i: usize = 0;
        assert(list.subrange(0, 0) =~= Seq::<Seq<char>>::empty());
        while i < n
            invariant
                i <= n,
                n == to_be_computed@.len(),
                list == names(to_be_computed@),
                list == before@.uncomputable,
                self.store.wf(),
                self.uncomputed == before.uncomputed,
                self.uncomputable@.len() == 0,
                self@.order == before@.order,
                remarked(before@.wires, self@.wires, list.subrange(0, i as int)),
            decreases n - i,
        {
            let ghost prev = *self;
            self.store.set_signal(&to_be_computed[i], Signal::Uncomputed);
            proof {
                lemma_remark_step(before@.wires, prev@.wires, self@.wires, list, i as int);
            }
            i = i + 1;
        }
        proof {
            assert(list.subrange(0, n as int) =~= list);
            lemma_names_add(to_be_computed@, self.uncomputed@);
        }
        to_be_computed.append(&mut self.uncomputed);
        let ghost mid = *self;
        let ghost seeds = names(to_be_computed@);
        proof {
            assert(mid@.uncomputed =~= Seq::<Seq<char>>::empty());
            assert(mid@.uncomputable =~= Seq::<Seq<char>>::empty());
            lemma_remarked(before@, mid@);
            assert(mid@.wires =~= unmarked(before@.wires, before@.uncomputable));
        }
        let r = self.resolve(to_be_computed);
        let ghost after = *self;
        let ghost first = first_pass(
            unmarked(before@.wires, before@.uncomputable),
            Seq::empty(),
            before@.uncomputable + before@.uncomputed,
        );
        let ghost (steps, end) = choose|steps: nat, end: PassView|
            {
                &&& #[trigger] ends(first, steps, end, r is Ok)
                &&& after@.wires == end.wires
                &&& after@.uncomputable == end.uncomputable
                &&& after@.uncomputed == mid@.uncomputed + end.stack
            };
        proof {
            assert(ends(first, steps, end, r is Ok));
            assert(after@.uncomputed =~= end.stack);
            self.store.lemma_wf();
            assert forall|k: Seq<char>| #[trigger]
                after@.wires.contains_key(k) implies after@.wires[k] == (WireView {
                signal: after@.wires[k].signal,
                ..before@.wires[k]
            }) by {
                assert(mid@.wires.contains_key(k));
            }
            assert forall|k: Seq<char>| #[trigger]
                before@.wires.contains_key(k) && before@.wires[k].signal is Value implies after@.wires[k].signal
                == before@.wires[k].signal by {
                assert(mid@.wires.contains_key(k));
            }
        }
        match r {
            Err(e) => {
                proof {
                    assert(seeds == before@.uncomputable + before@.uncomputed);
                    lemma_all_seeded(mid@, after@, seeds, after@.uncomputed);
                    assert forall|k: Seq<char>| #[trigger]
                        self@.wires.contains_key(k) && self@.wires[k].signal
                            == Signal::Uncomputed implies self@.uncomputed.contains(k) by {
                        assert(unresolved(after@.wires, k));
                    }
                    assert(ends(first, steps, end, false));
                }
                Err(e)
            },
            Ok(()) => {
                let mut found: Vec<WireId> = Vec::new();
                std::mem::swap(&mut self.uncomputable, &mut found);
                self.uncomputable = sort_dedup(found);
                proof {
                    lemma_all_seeded(mid@, after@, seeds, Seq::empty());
                    assert forall|k: Seq<char>| #[trigger]
                        self@.wires.contains_key(k) implies self@.wires[k].signal
                        != Signal::Uncomputed by {
                        if unresolved(after@.wires, k) {
                            assert(Seq::<Seq<char>>::empty().contains(k));
                        }
                    }
                    assert forall|i: int|
                        0 <= i < self@.uncomputable.len() implies self@.wires.contains_key(
                        #[trigger] self@.uncomputable[i],
                    ) && self@.wires[self@.uncomputable[i]].signal == Signal::Uncomputable by {
                        let k = self@.uncomputable[i];
                        assert(self@.uncomputable.contains(k));
                        assert(after@.uncomputable.contains(k));
                        let j = choose|j: int|
                            0 <= j < after@.uncomputable.len() && after@.uncomputable[j] == k;
                        assert(after@.wires.contains_key(after@.uncomputable[j]));
                    }
                    assert forall|k: Seq<char>| #[trigger]
                        self@.wires.contains_key(k) && self@.wires[k].signal
                            == Signal::Uncomputable implies self@.uncomputable.contains(k) by {
                        assert(after@.uncomputable.contains(k));
                    }
                    assert(ends(first, steps, end, true));
                    assert(self@.uncomputed =~= Seq::<Seq<char>>::empty());
                }
                Ok(())
            },
        }
    }

    /// Resolves the wire named by the text `id` and gives its signal.
    ///
    /// Wires that have a signal keep it; uncomputable wires are not tried
    /// again.
    pub fn compute_signal(&mut self, id: &str) -> (r: Result<Signal, Error>)
        requires
            old(self).wf(),
        ensures
            final(self).wf(),
            final(self)@.same_wiring(old(self)@),
            keeps_resolved(old(self)@.wires, final(self)@.wires),
            touches_needed_only(old(self)@.wires, final(self)@.wires, seq![id@]),
            old(self)@.justified() ==> final(self)@.justified(),
            !valid_id(id@) ==> r is Err && r->Err_0@ == ErrorView::InvalidWireId(id@) && final(self)@ == old(self)@,
            valid_id(id@) && !old(self)@.wires.contains_key(id@) ==> r is Err && r->Err_0@
                == ErrorView::UnknownWireId(id@) && final(self)@ == old(self)@,
            valid_id(id@) && old(self)@.wires.contains_key(id@) ==> passed(
                old(self)@,
                seq![id@],
                final(self)@,
                r is Ok,
            ),
            valid_id(id@) && old(self)@.wires.contains_key(id@) ==> match r {
                Ok(signal) => signal == final(self)@.wires[id@].signal && signal
                    != Signal::Uncomputed,
                Err(e) => e@ == ErrorView::CircuitLoop && has_unresolved_loop(final(self)@.wires),
            },
    {
        let id = match WireId::new(id) {
            Ok(id) => id,
            Err(e) => {
                proof {
                    self.lemma_unchanged();
                }
                return Err(e);
            },
        };
        if !self.store.contains(&id) {
            proof {
                self.lemma_unchanged();
            }
            return Err(Error::UnknownWireId(id.to_string()));
        }
        let mut ids: Vec<WireId> = Vec::new();
        ids.push(id.clone());
        assert(names(ids@) =~= seq![id@]);
        match self.compute_signals_of(ids) {
            Err(e) => Err(e),
            Ok(()) => {
                assert(!unresolved(self@.wires, names(ids@)[0]));
                self.get_signal_of(&id)
            },
        }
    }

    /// A circuit is wired like itself and keeps what it has.
    proof fn lemma_unchanged(&self)
        ensures
            self@.same_wiring(self@),
            keeps_resolved(self@.wires, self@.wires),
            forall|seeds: Seq<Seq<char>>| touches_needed_only(self@.wires, self@.wires, seeds),
    {
    }
}

/// The circuit `after` is what a pass over all wires makes of the circuit
/// `before`, the pass ending well or badly as `ok` says.
///
/// The wires listed as uncomputable are made unresolved again. They are the
/// first names to resolve, and the names that wait follow them; the pass
/// takes the last name first. After a pass that ended well no name waits,
/// and the wires found uncomputable are listed in order, each once. After
/// a pass that met a loop the names left on its stack wait, and the wires
/// found uncomputable are listed as the pass found them.
pub open spec fn passed_over_all(before: CircuitView, after: CircuitView, ok: bool) -> bool {
    exists|steps: nat, end: PassView|
        {
            &&& #[trigger] ends(
                first_pass(
                    unmarked(before.wires, before.uncomputable),
                    Seq::empty(),
                    before.uncomputable + before.uncomputed,
                ),
                steps,
                end,
                ok,
            )
            &&& after.wires == end.wires
            &&& after.order == before.order
            &&& if ok {
                &&& after.uncomputed == Seq::<Seq<char>>::empty()
                &&& strictly_sorted(after.uncomputable)
                &&& forall|k: Seq<char>|
                    after.uncomputable.contains(k) <==> end.uncomputable.contains(k)
            } else {
                &&& after.uncomputed == end.stack
                &&& after.uncomputable == end.uncomputable
            }
        }
}

/// Every wire of the circuit carries its right signal.
pub open spec fn all_settled(circuit: CircuitView) -> bool {
    forall|k: Seq<char>| #[trigger]
        circuit.wires.contains_key(k) ==> settled(circuit.inputs(), k, circuit.wires[k].signal)
}

/// No wire that carried a value lost or changed it.
pub open spec fn keeps_values(before: CircuitView, after: CircuitView) -> bool {
    forall|k: Seq<char>| #[trigger]
        before.wires.contains_key(k) && before.wires[k].signal is Value ==> after.wires[k].signal
            == before.wires[k].signal
}

/// What a pass over all wires makes of the circuit `before`; `ok` tells
/// whether the pass succeeded.
///
/// The wiring is as it was and the values found before are kept. Every wire
/// marked uncomputable depends on a missing wire. After a pass that
/// succeeded every wire carries its right signal, no wire waits, and the
/// uncomputable wires are listed in order, each once. A pass fails only
/// where wires that it leaves unresolved form a loop.
pub open spec fn computed(before: CircuitView, after: CircuitView, ok: bool) -> bool {
    &&& after.consistent()
    &&& after.same_wiring(before)
    &&& keeps_values(before, after)
    &&& after.justified()
    &&& ok ==> {
        &&& all_settled(after)
        &&& after.uncomputed == Seq::<Seq<char>>::empty()
        &&& strictly_sorted(after.uncomputable)
    }
    &&& !ok ==> has_unresolved_loop(after.wires)
}

/// The circuit `after` holds the wires `wires` in the order `order`, all
/// unresolved and waiting in that order.
pub open spec fn reset_of(
    wires: Map<Seq<char>, WireView>,
    order: Seq<Seq<char>>,
    after: CircuitView,
) -> bool {
    &&& after.wires.dom() == wires.dom()
    &&& forall|k: Seq<char>| #[trigger]
        after.wires.contains_key(k) ==> after.wires[k] == (WireView {
            signal: Signal::Uncomputed,
            ..wires[k]
        })
    &&& after.order == order
    &&& after.uncomputable == Seq::<Seq<char>>::empty()
    &&& after.uncomputed == order
}

impl Circuit {
    /// Makes every wire unresolved again and lists them all for the next
    /// pass.
    fn reset_signals(&mut self)
        requires
            old(self).store.wf(),
        ensures
            final(self).wf(),
            reset_of(old(self)@.wires, old(self)@.order, final(self)@),
    {
        self.store.reset_signals();
        self.uncomputable = Vec::new();
        self.uncomputed = self.store.ids();
        proof {
            self.store.lemma_wf();
            assert(self@.uncomputable =~= Seq::<Seq<char>>::empty());
            assert forall|k: Seq<char>| #[trigger]
                self@.wires.contains_key(k) && self@.wires[k].signal
                    == Signal::Uncomputed implies self@.uncomputed.contains(k) by {}
        }
    }

    /// A circuit of the wires in `store`, all unresolved.
    pub fn from_store(store: WireStore) -> (circuit: Circuit)
        requires
            store.wf(),
        ensures
            circuit.wf(),
            reset_of(store@, store.order(), circuit@),
    {
        let mut circuit = Circuit { store, uncomputed: Vec::new(), uncomputable: Vec::new() };
        circuit.reset_signals();
        circuit
    }

    /// Takes the wire named `id` out of the circuit and hands it back; every
    /// wire left is unresolved again.
    pub fn remove(&mut self, id: &WireId) -> (r: Result<Wire, Error>)
        requires
            old(self).wf(),
        ensures
            final(self).wf(),
            match r {
                Ok(wire) => old(self)@.wires.contains_key(id@) && wire@ == old(self)@.wires[id@]
                    && reset_of(
                    old(self)@.wires.remove(id@),
                    order_without(old(self)@.order, id@),
                    final(self)@,
                ),
                Err(e) => !old(self)@.wires.contains_key(id@) && e@ == ErrorView::UnknownWireId(
                    id@,
                ) && final(self)@ == old(self)@,
            },
    {
        match self.store.remove(id) {
            Some(wire) => {
                self.reset_signals();
                Ok(wire)
            },
            None => {
                assert(self.store@ =~= old(self).store@);
                Err(Error::UnknownWireId(id.to_string()))
            },
        }
    }

    /// Removes the wire named by the text `id`; every wire left is
    /// unresolved again. Nothing changes where it fails.
    pub fn remove_wire_then_reset_signals(&mut self, id: &str) -> (r: Result<(), Error>)
        requires
            old(self).wf(),
        ensures
            final(self).wf(),
            !valid_id(id@) ==> r is Err && r->Err_0@ == ErrorView::InvalidWireId(id@) && final(self)@
                == old(self)@,
            valid_id(id@) && !old(self)@.wires.contains_key(id@) ==> r is Err && r->Err_0@
                == ErrorView::UnknownWireId(id@) && final(self)@ == old(self)@,
            valid_id(id@) && old(self)@.wires.contains_key(id@) ==> r is Ok && reset_of(
                old(self)@.wires.remove(id@),
                order_without(old(self)@.order, id@),
                final(self)@,
            ),
    {
        let id = match WireId::new(id) {
            Ok(id) => id,
            Err(e) => { return Err(e); },
        };
        match self.remove(&id) {
            Ok(_) => Ok(()),
            Err(e) => Err(e),
        }
    }

    /// Puts `wire` in the place of the wire of the same name; every wire is
    /// unresolved again. Nothing changes where the circuit has no such wire.
    pub fn set_wire_then_reset_signals(&mut self, wire: Wire) -> (r: Result<(), Error>)
        requires
            old(self).wf(),
        ensures
            final(self).wf(),
            old(self)@.wires.contains_key(wire@.id) ==> r is Ok && reset_of(
                old(self)@.wires.insert(wire@.id, wire@),
                order_without(old(self)@.order, wire@.id).push(wire@.id),
                final(self)@,
            ),
            !old(self)@.wires.contains_key(wire@.id) ==> r is Err && r->Err_0@
                == ErrorView::UnknownWireId(wire@.id) && final(self)@ == old(self)@,
    {
        if !self.store.contains(wire.id()) {
            return Err(Error::UnknownWireId(wire.id().to_string()));
        }
        self.store.remove(wire.id());
        self.store.insert(wire);
        proof {
            let wires = old(self)@.wires;
            assert(wires.remove(wire@.id).insert(wire@.id, wire@) =~= wires.insert(
                wire@.id,
                wire@,
            ));
        }
        self.reset_signals();
        Ok(())
    }
}

/// What adding a wire that was built first leaves of a circuit, and what
/// it answers: a failure to build the wire is passed on, a name that the
/// circuit holds is refused, and else the wire is added and waits.
pub open spec fn add_outcome(before: CircuitView, wire: Result<WireView, ErrorView>) -> (
    Result<(), ErrorView>,
    CircuitView,
) {
    match wire {
        Err(e) => (Err(e), before),
        Ok(wire) => if before.wires.contains_key(wire.id) {
            (Err(ErrorView::WireIdAlreadyExists(wire.id)), before)
        } else {
            (
                Ok(()),
                CircuitView {
                    wires: before.wires.insert(
                        wire.id,
                        WireView { signal: Signal::Uncomputed, ..wire },
                    ),
                    order: before.order.push(wire.id),
                    uncomputed: before.uncomputed.push(wire.id),
                    uncomputable: before.uncomputable,
                },
            )
        },
    }
}

/// An answer without a value, seen through the view of its error.
pub open spec fn unit_result_view(r: Result<(), Error>) -> Result<(), ErrorView> {
    match r {
        Ok(()) => Ok(()),
        Err(e) => Err(e@),
    }
}

impl Circuit {
    /// Adds the wire that `built` holds, or passes on the failure to build
    /// it.
    pub fn add_built(&mut self, built: Result<Wire, Error>) -> (r: Result<(), Error>)
        requires
            old(self).wf(),
        ensures
            final(self).wf(),
            (unit_result_view(r), final(self)@) == add_outcome(old(self)@, wire_result_view(built)),
    {
        match built {
            Ok(wire) => self.add(wire),
            Err(e) => Err(e),
        }
    }

    /// Adds a wire `id` carrying the constant `value`.
    pub fn add_wire_with_value(&mut self, id: &str, value: u16) -> (r: Result<(), Error>)
        requires
            old(self).wf(),
        ensures
            final(self).wf(),
            (unit_result_view(r), final(self)@) == add_outcome(
                old(self)@,
                named_wire(id@, InputView::Value(value)),
            ),
    {
        self.add_built(Wire::with_value(id, value))
    }

    /// Adds a wire `id` passing on the signal of the wire `input_id`.
    pub fn add_wire_from_wire(&mut self, id: &str, input_id: &str) -> (r: Result<(), Error>)
        requires
            old(self).wf(),
        ensures
            final(self).wf(),
            (unit_result_view(r), final(self)@) == add_outcome(
                old(self)@,
                passing_wire(id@, input_id@),
            ),
    {
        self.add_built(Wire::from_wire(id, input_id))
    }

    /// Adds a wire `output` fed by `input1 AND input2`.
    pub fn add_gate_and(&mut self, output: &str, input1: &str, input2: &str) -> (r: Result<
        (),
        Error,
    >)
        requires
            old(self).wf(),
        ensures
            final(self).wf(),
            (unit_result_view(r), final(self)@) == add_outcome(
                old(self)@,
                gate_wire(
                    output@,
                    checked_inputs(
                        input1@,
                        Some(input2@),
                        GateView::And { input1: input1@, input2: input2@ },
                    ),
                ),
            ),
    {
        self.add_built(Wire::from_gate_and(output, input1, input2))
    }

    /// Adds a wire `output` fed by `input AND value`.
    pub fn add_gate_and_value(&mut self, output: &str, input: &str, value: u16) -> (r: Result<
        (),
        Error,
    >)
        requires
            old(self).wf(),
        ensures
            final(self).wf(),
            (unit_result_view(r), final(self)@) == add_outcome(
                old(self)@,
                gate_wire(
                    output@,
                    checked_inputs(input@, None, GateView::AndValue { input: input@, value }),
                ),
            ),
    {
        self.add_built(Wire::from_gate_and_value(output, input, value))
    }

    /// Adds a wire `output` fed by `input1 OR input2`.
    pub fn add_gate_or(&mut self, output: &str, input1: &str, input2: &str) -> (r: Result<
        (),
        Error,
    >)
        requires
            old(self).wf(),
        ensures
            final(self).wf(),
            (unit_result_view(r), final(self)@) == add_outcome(
                old(self)@,
                gate_wire(
                    output@,
                    checked_inputs(
                        input1@,
                        Some(input2@),
                        GateView::Or { input1: input1@, input2: input2@ },
                    ),
                ),
            ),
    {
        self.add_built(Wire::from_gate_or(output, input1, input2))
    }

    /// Adds a wire `output` fed by `input OR value`.
    pub fn add_gate_or_value(&mut self, output: &str, input: &str, value: u16) -> (r: Result<
        (),
        Error,
    >)
        requires
            old(self).wf(),
        ensures
            final(self).wf(),
            (unit_result_view(r), final(self)@) == add_outcome(
                old(self)@,
                gate_wire(
                    output@,
                    checked_inputs(input@, None, GateView::OrValue { input: input@, value }),
                ),
            ),
    {
        self.add_built(Wire::from_gate_or_value(output, input, value))
    }

    /// Adds a wire `output` fed by `input LSHIFT shift`.
    pub fn add_gate_lshift(&mut self, output: &str, input: &str, shift: u8) -> (r: Result<
        (),
        Error,
    >)
        requires
            old(self).wf(),
        ensures
            final(self).wf(),
            (unit_result_view(r), final(self)@) == add_outcome(
                old(self)@,
                gate_wire(
                    output@,
                    checked_shift(input@, shift, GateView::LShift { input: input@, shift }),
                ),
            ),
    {
        self.add_built(Wire::from_gate_lshift(output, input, shift))
    }

    /// Adds a wire `output` fed by `input RSHIFT shift`.
    pub fn add_gate_rshift(&mut self, output: &str, input: &str, shift: u8) -> (r: Result<
        (),
        Error,
    >)
        requires
            old(self).wf(),
        ensures
            final(self).wf(),
            (unit_result_view(r), final(self)@) == add_outcome(
                old(self)@,
                gate_wire(
                    output@,
                    checked_shift(input@, shift, GateView::RShift { input: input@, shift }),
                ),
            ),
    {
        self.add_built(Wire::from_gate_rshift(output, input, shift))
    }

    /// Adds a wire `output` fed by `NOT input`.
    pub fn add_gate_not(&mut self, output: &str, input: &str) -> (r: Result<(), Error>)
        requires
            old(self).wf(),
        ensures
            final(self).wf(),
            (unit_result_view(r), final(self)@) == add_outcome(
                old(self)@,
                gate_wire(
                    output@,
                    checked_inputs(input@, None, GateView::Not { input: input@ }),
                ),
            ),
    {
        self.add_built(Wire::from_gate_not(output, input))
    }
}

/// The circuit that adding the wires described by `lines`, one after the
/// other, makes of the circuit `start`, or the first failure on the way.
pub open spec fn add_lines(start: CircuitView, lines: Seq<Seq<char>>) -> Result<
    CircuitView,
    ErrorView,
>
    decreases lines.len(),
{
    if lines.len() == 0 {
        Ok(start)
    } else {
        match add_lines(start, lines.drop_last()) {
            Err(e) => Err(e),
            Ok(circuit) => {
                let (answer, after) = add_outcome(circuit, wire_of_text(lines.last()));
                match answer {
                    Ok(()) => Ok(after),
                    Err(e) => Err(e),
                }
            },
        }
    }
}

/// The circuit that `text` describes, one wire a line; white space at the
/// end of the text does not count.
pub open spec fn circuit_of_text(text: Seq<char>) -> Result<CircuitView, ErrorView> {
    add_lines(
        CircuitView {
            wires: Map::empty(),
            order: Seq::empty(),
            uncomputed: Seq::empty(),
            uncomputable: Seq::empty(),
        },
        split_at(trimmed_end(text), '\n'),
    )
}

/// How a list of wires is written: one wire a line, each line ended.
pub open spec fn wires_text(wires: Seq<WireView>) -> Seq<char>
    decreases wires.len(),
{
    if wires.len() == 0 {
        Seq::<char>::empty()
    } else {
        wires_text(wires.drop_last()) + wire_text(wires.last()) + "\n"@
    }
}

impl Circuit {
    /// Adds the wire that `text` describes.
    pub fn add_wire(&mut self, text: &str) -> (r: Result<(), Error>)
        requires
            old(self).wf(),
        ensures
            final(self).wf(),
            (unit_result_view(r), final(self)@) == add_outcome(old(self)@, wire_of_text(text@)),
    {
        self.add_built(Wire::try_from(text))
    }

    /// Reads a circuit from its text, one wire a line.
    pub fn try_from(text: &str) -> (r: Result<Circuit, Error>)
        ensures
            match r {
                Ok(circuit) => circuit.wf() && circuit_of_text(text@) == Ok::<
                    CircuitView,
                    ErrorView,
                >(circuit@),
                Err(e) => circuit_of_text(text@) == Err::<CircuitView, ErrorView>(e@),
            },
    {
        let mut circuit = Circuit::new();
        let lines = split(trim_end(text), '\n');
        let ghost all = split_at(trimmed_end(text@), '\n');
        let ghost start = circuit@;
        let n = lines.len();
        let mut i: usize = 0;
        proof {
            assert(all.take(0) =~= Seq::<Seq<char>>::empty());
            assert(start == (CircuitView {
                wires: Map::empty(),
                order: Seq::empty(),
                uncomputed: Seq::empty(),
                uncomputable: Seq::empty(),
            }));
        }
        while i < n
            invariant
                i <= n,
                n == lines@.len(),
                all == texts(lines@),
                all == split_at(trimmed_end(text@), '\n'),
                start == (CircuitView {
                    wires: Map::empty(),
                    order: Seq::empty(),
                    uncomputed: Seq::empty(),
                    uncomputable: Seq::empty(),
                }),
                circuit.wf(),
                add_lines(start, all.take(i as int)) == Ok::<CircuitView, ErrorView>(circuit@),
            decreases n - i,
        {
            proof {
                assert(all.take(i + 1).drop_last() =~= all.take(i as int));
                assert(all.take(i + 1).last() == lines@[i as int]@);
            }
            match circuit.add_wire(lines[i]) {
                Ok(()) => {},
                Err(e) => {
                    proof {
                        lemma_add_lines_fails(start, all, i + 1);
                    }
                    return Err(e);
                },
            }
            i = i + 1;
        }
        proof {
            assert(all.take(n as int) =~= all);
        }
        Ok(circuit)
    }

    /// Writes the circuit as text, one wire a line, in the order in which
    /// the circuit keeps its wires.
    pub fn to_string(&self) -> (text: String)
        requires
            self.wf(),
        ensures
            text@ == wires_text(self@.wires_in_order()),
    {
        let wires = self.get_wires();
        let ghost all = wire_views(wires@);
        let mut text = String::new();
        let n = wires.len();
        let mut i: usize = 0;
        proof {
            assert(all.take(0) =~= Seq::<WireView>::empty());
        }
        while i < n
            invariant
                i <= n,
                n == wires@.len(),
                all == wire_views(wires@),
                text@ == wires_text(all.take(i as int)),
            decreases n - i,
        {
            let line = wires[i].to_string();
            proof {
                assert(all.take(i + 1).drop_last() =~= all.take(i as int));
                assert(all.take(i + 1).last() == wires@[i as int]@);
            }
            text.append(line.as_str());
            text.append("\n");
            i = i + 1;
        }
        proof {
            assert(all.take(n as int) =~= all);
        }
        text
    }
}

/// Where the first lines of a text fail to make a circuit, so does the
/// whole text, in the same way.
proof fn lemma_add_lines_fails(start: CircuitView, lines: Seq<Seq<char>>, n: int)
    requires
        0 <= n <= lines.len(),
        add_lines(start, lines.take(n)) is Err,
    ensures
        add_lines(start, lines) == add_lines(start, lines.take(n)),
    decreases lines.len() - n,
{
    if n < lines.len() {
        assert(lines.take(n + 1).drop_last() =~= lines.take(n));
        lemma_add_lines_fails(start, lines, n + 1);
    } else {
        assert(lines.take(n) =~= lines);
    }
}

} // verus!
