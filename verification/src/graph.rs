//! The call graph as a mathematical value, and the operations that extend
//! it. The knowledge base is an executable representation of this value.
use vstd::prelude::*;

verus! {

/// The identity of a function: a symbol with global or weak linkage is
/// known by its name alone, a local symbol by its object and its name.
pub enum Symbol {
    Global(Seq<char>),
    Local(int, Seq<char>),
}

/// How often `x` occurs in `s`.
pub open spec fn occurrences(s: Seq<int>, x: int) -> nat
    decreases s.len(),
{
    if s.len() == 0 {
        0
    } else {
        occurrences(s.drop_last(), x) + if s.last() == x {
            1nat
        } else {
            0nat
        }
    }
}

/// The larger count a counter can hold is `usize::MAX`; sums stop there.
pub open spec fn capped_sum(a: int, b: int) -> int {
    if a + b > usize::MAX {
        usize::MAX as int
    } else {
        a + b
    }
}

/// The call graph over all translation units parsed so far. Objects and
/// functions are numbered in the order in which they were first met; an
/// identifier is an index into the sequences below.
pub struct Graph {
    /// Output path of each object.
    pub objects: Seq<Seq<char>>,
    /// Whether the object's text has been parsed.
    pub parsed: Seq<bool>,
    /// Functions defined in each object.
    pub members: Seq<Seq<int>>,
    /// Identity of each function.
    pub functions: Seq<Symbol>,
    /// Objects that define each function.
    pub defined_in: Seq<Seq<int>>,
    /// Direct callees of each function, one entry per call.
    pub callees: Seq<Seq<int>>,
    /// Direct callers of each function, one entry per call.
    pub callers: Seq<Seq<int>>,
    /// Number of instructions counted for each function.
    pub instructions: Seq<int>,
}

impl Graph {
    pub open spec fn empty() -> Graph {
        Graph {
            objects: Seq::empty(),
            parsed: Seq::empty(),
            members: Seq::empty(),
            functions: Seq::empty(),
            defined_in: Seq::empty(),
            callees: Seq::empty(),
            callers: Seq::empty(),
            instructions: Seq::empty(),
        }
    }

    pub open spec fn has_object(self, o: int) -> bool {
        0 <= o < self.objects.len()
    }

    pub open spec fn has_function(self, f: int) -> bool {
        0 <= f < self.functions.len()
    }

    /// Every list has one entry per object or per function.
    pub open spec fn shaped(self) -> bool {
        &&& self.parsed.len() == self.objects.len()
        &&& self.members.len() == self.objects.len()
        &&& self.defined_in.len() == self.functions.len()
        &&& self.callees.len() == self.functions.len()
        &&& self.callers.len() == self.functions.len()
        &&& self.instructions.len() == self.functions.len()
    }

    /// Every identifier that the graph holds is one of its own.
    pub open spec fn closed_under_ids(self) -> bool {
        &&& forall|f: int|
            self.has_function(f) ==> match #[trigger] self.functions[f] {
                Symbol::Local(o, _) => self.has_object(o),
                Symbol::Global(_) => true,
            }
        &&& forall|f: int, k: int|
            self.has_function(f) && 0 <= k < self.defined_in[f].len() ==> self.has_object(
                #[trigger] self.defined_in[f][k],
            )
        &&& forall|o: int, k: int|
            self.has_object(o) && 0 <= k < self.members[o].len() ==> self.has_function(
                #[trigger] self.members[o][k],
            )
        &&& forall|f: int, k: int|
            self.has_function(f) && 0 <= k < self.callees[f].len() ==> self.has_function(
                #[trigger] self.callees[f][k],
            )
        &&& forall|f: int, k: int|
            self.has_function(f) && 0 <= k < self.callers[f].len() ==> self.has_function(
                #[trigger] self.callers[f][k],
            )
    }

    /// Membership is recorded once, and from both sides alike.
    pub open spec fn membership_mirrored(self) -> bool {
        &&& forall|f: int| self.has_function(f) ==> (#[trigger] self.defined_in[f]).no_duplicates()
        &&& forall|o: int| self.has_object(o) ==> (#[trigger] self.members[o]).no_duplicates()
        &&& forall|f: int, o: int|
            self.has_function(f) && self.has_object(o) ==> (self.defined_in[f].contains(o)
                <==> #[trigger] self.members[o].contains(f))
    }

    /// Every call is recorded once with the caller and once with the callee.
    pub open spec fn edges_mirrored(self) -> bool {
        forall|f: int, c: int|
            self.has_function(f) && self.has_function(c) ==> occurrences(self.callees[f], c)
                == #[trigger] occurrences(self.callers[c], f)
    }

    /// The invariant of the call graph.
    pub open spec fn wf(self) -> bool {
        &&& self.shaped()
        &&& self.objects.no_duplicates()
        &&& self.functions.no_duplicates()
        &&& self.closed_under_ids()
        &&& self.membership_mirrored()
        &&& self.edges_mirrored()
        &&& forall|f: int|
            self.has_function(f) ==> 0 <= #[trigger] self.instructions[f] <= usize::MAX
    }

    /// The identifier of the object with this path, if it is registered.
    pub open spec fn find_object(self, path: Seq<char>) -> Option<int> {
        self.objects.index_of_first(path)
    }

    /// The identifier that the object with this path has once registered.
    pub open spec fn object_id(self, path: Seq<char>) -> int {
        match self.find_object(path) {
            Some(o) => o,
            None => self.objects.len() as int,
        }
    }

    /// The graph with an object of this path: unchanged if one is
    /// registered, else with a new, unparsed object without members.
    pub open spec fn with_object(self, path: Seq<char>) -> Graph {
        if self.objects.contains(path) {
            self
        } else {
            Graph {
                objects: self.objects.push(path),
                parsed: self.parsed.push(false),
                members: self.members.push(Seq::empty()),
                ..self
            }
        }
    }

    /// The identifier of the function with this identity, if interned.
    pub open spec fn find_function(self, symbol: Symbol) -> Option<int> {
        self.functions.index_of_first(symbol)
    }

    /// The identifier that this identity has once interned.
    pub open spec fn function_id(self, symbol: Symbol) -> int {
        match self.find_function(symbol) {
            Some(f) => f,
            None => self.functions.len() as int,
        }
    }

    /// The graph with this identity interned: unchanged if it is known,
    /// else with a new function without definition, calls or instructions.
    pub open spec fn with_function(self, symbol: Symbol) -> Graph {
        if self.functions.contains(symbol) {
            self
        } else {
            Graph {
                functions: self.functions.push(symbol),
                defined_in: self.defined_in.push(Seq::empty()),
                callees: self.callees.push(Seq::empty()),
                callers: self.callers.push(Seq::empty()),
                instructions: self.instructions.push(0),
                ..self
            }
        }
    }

    /// The graph in which function `f` is defined in object `o`.
    pub open spec fn attach(self, f: int, o: int) -> Graph {
        if self.defined_in[f].contains(o) {
            self
        } else {
            Graph {
                defined_in: self.defined_in.update(f, self.defined_in[f].push(o)),
                members: self.members.update(o, self.members[o].push(f)),
                ..self
            }
        }
    }

    /// The graph with one more call from `caller` to `callee`.
    pub open spec fn add_edge(self, caller: int, callee: int) -> Graph {
        let callees = self.callees.update(caller, self.callees[caller].push(callee));
        let callers = self.callers.update(callee, self.callers[callee].push(caller));
        Graph { callees, callers, ..self }
    }

    /// The graph with `n` more instructions counted for `f`.
    pub open spec fn add_instructions(self, f: int, n: int) -> Graph {
        Graph {
            instructions: self.instructions.update(f, capped_sum(self.instructions[f], n)),
            ..self
        }
    }

    /// The graph in which object `o` counts as parsed.
    pub open spec fn mark_parsed(self, o: int) -> Graph {
        Graph { parsed: self.parsed.update(o, true), ..self }
    }
}

/// In a sequence without repeats, an element is found where it stands.
pub proof fn lemma_index_of_first_unique<A>(s: Seq<A>, i: int)
    requires
        s.no_duplicates(),
        0 <= i < s.len(),
    ensures
        s.index_of_first(s[i]) == Some(i),
{
    s.index_of_first_ensures(s[i]);
}

/// Appending an element raises its count by one and keeps the others.
pub proof fn lemma_occurrences_push(s: Seq<int>, x: int, y: int)
    ensures
        occurrences(s.push(x), y) == occurrences(s, y) + if x == y {
            1nat
        } else {
            0nat
        },
{
    assert(s.push(x).drop_last() =~= s);
}

/// An element occurs in a sequence exactly if its count is positive.
pub proof fn lemma_occurrences_contains(s: Seq<int>, x: int)
    ensures
        s.contains(x) <==> occurrences(s, x) > 0,
    decreases s.len(),
{
    if s.len() > 0 {
        lemma_occurrences_contains(s.drop_last(), x);
        if s.contains(x) {
            let k = choose|k: int| 0 <= k < s.len() && s[k] == x;
            if k < s.len() - 1 {
                assert(s.drop_last()[k] == x);
            }
        }
        if s.drop_last().contains(x) {
            let k = choose|k: int| 0 <= k < s.drop_last().len() && s.drop_last()[k] == x;
            assert(s[k] == x);
        }
    }
}

impl Graph {
    /// Registering an object keeps the invariant and yields its identifier.
    pub proof fn lemma_with_object(self, path: Seq<char>)
        requires
            self.wf(),
        ensures
            self.with_object(path).wf(),
            self.with_object(path).find_object(path) == Some(self.object_id(path)),
            self.with_object(path).has_object(self.object_id(path)),
    {
        let g = self.with_object(path);
        self.objects.index_of_first_ensures(path);
        if !self.objects.contains(path) {
            let n = self.objects.len() as int;
            assert(g.objects[n] == path);
            lemma_index_of_first_unique(g.objects, n);
            assert forall|f: int, o: int| g.has_function(f) && g.has_object(o) implies (
            g.defined_in[f].contains(o) <==> #[trigger] g.members[o].contains(f)) by {
                if o == n {
                    if g.defined_in[f].contains(o) {
                        let k = choose|k: int|
                            0 <= k < self.defined_in[f].len() && self.defined_in[f][k] == o;
                        assert(self.has_object(self.defined_in[f][k]));
                    }
                } else {
                    assert(self.has_object(o));
                }
            }
        }
    }

    /// Interning an identity keeps the invariant and yields its identifier.
    pub proof fn lemma_with_function(self, symbol: Symbol)
        requires
            self.wf(),
            match symbol {
                Symbol::Local(o, _) => self.has_object(o),
                Symbol::Global(_) => true,
            },
        ensures
            self.with_function(symbol).wf(),
            self.with_function(symbol).functions.contains(symbol),
            self.with_function(symbol).find_function(symbol) == Some(self.function_id(symbol)),
            self.with_function(symbol).has_function(self.function_id(symbol)),
    {
        let g = self.with_function(symbol);
        self.functions.index_of_first_ensures(symbol);
        if !self.functions.contains(symbol) {
            let n = self.functions.len() as int;
            assert(g.functions[n] == symbol);
            lemma_index_of_first_unique(g.functions, n);
            assert forall|f: int, o: int| g.has_function(f) && g.has_object(o) implies (
            g.defined_in[f].contains(o) <==> #[trigger] g.members[o].contains(f)) by {
                if f == n {
                    if g.members[o].contains(f) {
                        let k = choose|k: int|
                            0 <= k < self.members[o].len() && self.members[o][k] == f;
                        assert(self.has_function(self.members[o][k]));
                    }
                } else {
                    assert(self.has_function(f));
                }
            }
            assert forall|f: int, c: int| g.has_function(f) && g.has_function(c) implies occurrences(
                g.callees[f],
                c,
            ) == #[trigger] occurrences(g.callers[c], f) by {
                if f == n && c == n {
                } else if f == n {
                    lemma_occurrences_contains(self.callers[c], f);
                    if self.callers[c].contains(f) {
                        let k = choose|k: int|
                            0 <= k < self.callers[c].len() && self.callers[c][k] == f;
                        assert(self.has_function(self.callers[c][k]));
                    }
                } else if c == n {
                    lemma_occurrences_contains(self.callees[f], c);
                    if self.callees[f].contains(c) {
                        let k = choose|k: int|
                            0 <= k < self.callees[f].len() && self.callees[f][k] == c;
                        assert(self.has_function(self.callees[f][k]));
                    }
                } else {
                    assert(self.has_function(f) && self.has_function(c));
                }
            }
        }
    }

    /// Recording a definition keeps the invariant.
    pub proof fn lemma_attach(self, f: int, o: int)
        requires
            self.wf(),
            self.has_function(f),
            self.has_object(o),
        ensures
            self.attach(f, o).wf(),
    {
        let g = self.attach(f, o);
        if !self.defined_in[f].contains(o) {
            assert(!self.members[o].contains(f));
            assert forall|f2: int, o2: int| g.has_function(f2) && g.has_object(o2) implies (
            g.defined_in[f2].contains(o2) <==> #[trigger] g.members[o2].contains(f2)) by {
                lemma_push_contains(self.defined_in[f], o, o2);
                lemma_push_contains(self.members[o], f, f2);
                assert(self.defined_in[f2].contains(o2) <==> self.members[o2].contains(f2));
            }
            assert forall|f2: int, k: int|
                g.has_function(f2) && 0 <= k < g.defined_in[f2].len() implies g.has_object(
                #[trigger] g.defined_in[f2][k],
            ) by {
                if f2 == f && k < self.defined_in[f].len() {
                    assert(g.defined_in[f2][k] == self.defined_in[f][k]);
                } else if f2 != f {
                    assert(g.defined_in[f2][k] == self.defined_in[f2][k]);
                }
            }
            assert forall|o2: int, k: int|
                g.has_object(o2) && 0 <= k < g.members[o2].len() implies g.has_function(
                #[trigger] g.members[o2][k],
            ) by {
                if o2 == o && k < self.members[o].len() {
                    assert(g.members[o2][k] == self.members[o][k]);
                } else if o2 != o {
                    assert(g.members[o2][k] == self.members[o2][k]);
                }
            }
        }
    }

    /// Recording a call keeps the invariant.
    pub proof fn lemma_add_edge(self, caller: int, callee: int)
        requires
            self.wf(),
            self.has_function(caller),
            self.has_function(callee),
        ensures
            self.add_edge(caller, callee).wf(),
    {
        let g = self.add_edge(caller, callee);
        assert forall|f: int, c: int| g.has_function(f) && g.has_function(c) implies occurrences(
            g.callees[f],
            c,
        ) == #[trigger] occurrences(g.callers[c], f) by {
            lemma_occurrences_push(self.callees[caller], callee, c);
            lemma_occurrences_push(self.callers[callee], caller, f);
            assert(occurrences(self.callees[f], c) == occurrences(self.callers[c], f));
        }
        assert forall|f: int, k: int|
            g.has_function(f) && 0 <= k < g.callees[f].len() implies g.has_function(
            #[trigger] g.callees[f][k],
        ) by {
            if f == caller && k < self.callees[f].len() {
                assert(g.callees[f][k] == self.callees[f][k]);
            } else if f != caller {
                assert(g.callees[f][k] == self.callees[f][k]);
            }
        }
        assert forall|f: int, k: int|
            g.has_function(f) && 0 <= k < g.callers[f].len() implies g.has_function(
            #[trigger] g.callers[f][k],
        ) by {
            if f == callee && k < self.callers[f].len() {
                assert(g.callers[f][k] == self.callers[f][k]);
            } else if f != callee {
                assert(g.callers[f][k] == self.callers[f][k]);
            }
        }
    }

    /// Counting instructions keeps the invariant.
    pub proof fn lemma_add_instructions(self, f: int, n: int)
        requires
            self.wf(),
            self.has_function(f),
            0 <= n,
        ensures
            self.add_instructions(f, n).wf(),
    {
        let g = self.add_instructions(f, n);
        assert forall|f2: int| g.has_function(f2) implies 0 <= #[trigger] g.instructions[f2]
            <= usize::MAX by {
            if f2 != f {
                assert(g.instructions[f2] == self.instructions[f2]);
            }
        }
    }

    /// Marking an object as parsed keeps the invariant.
    pub proof fn lemma_mark_parsed(self, o: int)
        requires
            self.wf(),
            self.has_object(o),
        ensures
            self.mark_parsed(o).wf(),
    {
    }
}

impl Graph {
    /// `self` holds everything that `before` held, under the same
    /// identifiers: no object or function has gone or changed its number,
    /// every list begins with what it held, and no count has gone down.
    pub open spec fn extends(self, before: Graph) -> bool {
        &&& before.objects.is_prefix_of(self.objects)
        &&& before.functions.is_prefix_of(self.functions)
        &&& forall|f: int|
            before.has_function(f) ==> (#[trigger] before.defined_in[f]).is_prefix_of(
                self.defined_in[f],
            )
        &&& forall|f: int|
            before.has_function(f) ==> (#[trigger] before.callees[f]).is_prefix_of(self.callees[f])
        &&& forall|f: int|
            before.has_function(f) ==> (#[trigger] before.callers[f]).is_prefix_of(self.callers[f])
        &&& forall|f: int|
            before.has_function(f) ==> #[trigger] before.instructions[f] <= self.instructions[f]
        &&& forall|o: int|
            before.has_object(o) ==> (#[trigger] before.members[o]).is_prefix_of(self.members[o])
        &&& forall|o: int| before.has_object(o) && #[trigger] before.parsed[o] ==> self.parsed[o]
    }

    pub proof fn lemma_extends_refl(self)
        ensures
            self.extends(self),
    {
    }

    pub proof fn lemma_extends_trans(self, middle: Graph, before: Graph)
        requires
            self.extends(middle),
            middle.extends(before),
        ensures
            self.extends(before),
    {
        assert forall|f: int| before.has_function(f) implies (
        #[trigger] before.defined_in[f]).is_prefix_of(self.defined_in[f]) by {
            assert(middle.has_function(f));
            assert(before.defined_in[f].is_prefix_of(middle.defined_in[f]));
            assert(middle.defined_in[f].is_prefix_of(self.defined_in[f]));
        }
        assert forall|f: int| before.has_function(f) implies (
        #[trigger] before.callees[f]).is_prefix_of(self.callees[f]) by {
            assert(middle.has_function(f));
            assert(before.callees[f].is_prefix_of(middle.callees[f]));
            assert(middle.callees[f].is_prefix_of(self.callees[f]));
        }
        assert forall|f: int| before.has_function(f) implies (
        #[trigger] before.callers[f]).is_prefix_of(self.callers[f]) by {
            assert(middle.has_function(f));
            assert(before.callers[f].is_prefix_of(middle.callers[f]));
            assert(middle.callers[f].is_prefix_of(self.callers[f]));
        }
        assert forall|f: int| before.has_function(f) implies #[trigger] before.instructions[f]
            <= self.instructions[f] by {
            assert(middle.has_function(f));
            assert(before.instructions[f] <= middle.instructions[f]);
            assert(middle.instructions[f] <= self.instructions[f]);
        }
        assert forall|o: int| before.has_object(o) implies (
        #[trigger] before.members[o]).is_prefix_of(self.members[o]) by {
            assert(middle.has_object(o));
            assert(before.members[o].is_prefix_of(middle.members[o]));
            assert(middle.members[o].is_prefix_of(self.members[o]));
        }
        assert forall|o: int| before.has_object(o) && #[trigger] before.parsed[o] implies self.parsed[o] by {
            assert(middle.has_object(o));
            assert(middle.parsed[o]);
        }
    }

    /// An identity that was interned is still interned, under its number.
    pub proof fn lemma_extends_keeps(self, before: Graph, f: int)
        requires
            self.extends(before),
            before.has_function(f),
        ensures
            self.has_function(f),
            self.functions[f] == before.functions[f],
            self.functions.contains(before.functions[f]),
    {
    }

    pub proof fn lemma_with_object_extends(self, path: Seq<char>)
        requires
            self.shaped(),
        ensures
            self.with_object(path).extends(self),
    {
    }

    pub proof fn lemma_with_function_extends(self, symbol: Symbol)
        requires
            self.shaped(),
        ensures
            self.with_function(symbol).extends(self),
    {
    }

    pub proof fn lemma_attach_extends(self, f: int, o: int)
        requires
            self.shaped(),
            self.has_function(f),
            self.has_object(o),
        ensures
            self.attach(f, o).extends(self),
    {
    }

    pub proof fn lemma_add_edge_extends(self, caller: int, callee: int)
        requires
            self.shaped(),
            self.has_function(caller),
            self.has_function(callee),
        ensures
            self.add_edge(caller, callee).extends(self),
    {
    }

    pub proof fn lemma_add_instructions_extends(self, f: int, n: int)
        requires
            self.wf(),
            self.has_function(f),
            0 <= n,
        ensures
            self.add_instructions(f, n).extends(self),
    {
    }

    pub proof fn lemma_mark_parsed_extends(self, o: int)
        requires
            self.shaped(),
            self.has_object(o),
        ensures
            self.mark_parsed(o).extends(self),
    {
    }
}

/// What a sequence holds after one more element.
pub proof fn lemma_push_contains(s: Seq<int>, x: int, y: int)
    ensures
        s.push(x).contains(y) <==> (s.contains(y) || x == y),
{
    if s.push(x).contains(y) {
        let k = choose|k: int| 0 <= k < s.push(x).len() && s.push(x)[k] == y;
        if k < s.len() {
            assert(s[k] == y);
        }
    }
    if s.contains(y) {
        let k = choose|k: int| 0 <= k < s.len() && s[k] == y;
        assert(s.push(x)[k] == y);
    }
    if x == y {
        assert(s.push(x)[s.len() as int] == y);
    }
}

} // verus!
