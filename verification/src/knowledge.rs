//! The knowledge base: the call graph in executable form, with the tables
//! that intern object paths and function identities.
use crate::graph::{lemma_index_of_first_unique, Graph, Symbol};
use vstd::hash_map::StringHashMap;
use vstd::prelude::*;

verus! {

/// Identifier of a function in a knowledge base.
#[derive(Debug, Clone, Copy, PartialEq, Eq, Hash, Structural)]
pub struct FunctionID(pub usize);

/// Identifier of an object in a knowledge base.
#[derive(Debug, Clone, Copy, PartialEq, Eq, Hash, Structural)]
pub struct ObjectID(pub usize);

/// The identity of a symbol with global or weak linkage.
#[derive(Debug, Clone, PartialEq, Eq, Hash)]
pub struct GlobalFunctionName {
    pub name: String,
}

/// The identity of a symbol that is private to one object.
#[derive(Debug, Clone, PartialEq, Eq, Hash)]
pub struct LocalFunctionName {
    pub object: ObjectID,
    pub name: String,
}

/// The identity of a function.
#[derive(Debug, Clone, PartialEq, Eq, Hash)]
pub enum FunctionName {
    Global(GlobalFunctionName),
    Local(LocalFunctionName),
}

impl View for FunctionName {
    type V = Symbol;

    open spec fn view(&self) -> Symbol {
        match self {
            FunctionName::Global(g) => Symbol::Global(g.name@),
            FunctionName::Local(l) => Symbol::Local(l.object.0 as int, l.name@),
        }
    }
}

/// The identity of an object: the path of the compiler's output.
#[derive(Debug, Clone, PartialEq, Eq, Hash)]
pub struct ObjectName {
    pub path: String,
}

/// The answer to a question about an object or a function that the
/// knowledge base has never interned.
#[derive(Debug, Clone, Copy, PartialEq, Eq, Structural)]
pub struct NotFound;

/// The identifiers in a list, as integers.
pub open spec fn function_ids(list: Seq<FunctionID>) -> Seq<int> {
    list.map_values(|f: FunctionID| f.0 as int)
}

/// The identifiers in a list, as integers.
pub open spec fn object_ids(list: Seq<ObjectID>) -> Seq<int> {
    list.map_values(|o: ObjectID| o.0 as int)
}

/// Everything known about the translation units parsed so far.
pub struct ParsedData {
    name_by_object_id: Vec<ObjectName>,
    object_id_by_name: StringHashMap<usize>,
    parsed_objects: Vec<bool>,
    name_by_function_id: Vec<FunctionName>,
    global_id_by_name: StringHashMap<usize>,
    local_id_by_name: Vec<StringHashMap<usize>>,
    functions_by_object: Vec<Vec<FunctionID>>,
    objects_by_function: Vec<Vec<ObjectID>>,
    callers_by_callee: Vec<Vec<FunctionID>>,
    callees_by_caller: Vec<Vec<FunctionID>>,
    instructions_by_function: Vec<usize>,
}

impl View for ParsedData {
    type V = Graph;

    closed spec fn view(&self) -> Graph {
        Graph {
            objects: self.name_by_object_id@.map_values(|n: ObjectName| n.path@),
            parsed: self.parsed_objects@,
            members: self.functions_by_object@.map_values(|l: Vec<FunctionID>| function_ids(l@)),
            functions: self.name_by_function_id@.map_values(|n: FunctionName| n@),
            defined_in: self.objects_by_function@.map_values(|l: Vec<ObjectID>| object_ids(l@)),
            callees: self.callees_by_caller@.map_values(|l: Vec<FunctionID>| function_ids(l@)),
            callers: self.callers_by_callee@.map_values(|l: Vec<FunctionID>| function_ids(l@)),
            instructions: self.instructions_by_function@.map_values(|n: usize| n as int),
        }
    }
}

impl ParsedData {
    /// The lookup tables find `symbol` under the identifier `f`.
    closed spec fn knows(&self, symbol: Symbol, f: int) -> bool {
        match symbol {
            Symbol::Global(n) => self.global_id_by_name@.contains_key(n)
                && self.global_id_by_name@[n] == f,
            Symbol::Local(o, n) => 0 <= o < self.local_id_by_name.len()
                && self.local_id_by_name[o]@.contains_key(n) && self.local_id_by_name[o]@[n] == f,
        }
    }

    /// The lookup tables hold exactly the interned names, each with its
    /// identifier.
    closed spec fn indexed(&self) -> bool {
        &&& self.local_id_by_name.len() == self.name_by_object_id.len()
        &&& forall|o: int|
            0 <= o < self.name_by_object_id.len() ==> self.object_id_by_name@.contains_key(
                #[trigger] self.name_by_object_id[o].path@,
            ) && self.object_id_by_name@[self.name_by_object_id[o].path@] == o
        &&& forall|p: Seq<char>| #[trigger]
            self.object_id_by_name@.contains_key(p) ==> self.object_id_by_name@[p]
                < self.name_by_object_id.len()
                && self.name_by_object_id[self.object_id_by_name@[p] as int].path@ == p
        &&& forall|f: int|
            0 <= f < self.name_by_function_id.len() ==> self.knows(
                #[trigger] self.name_by_function_id[f]@,
                f,
            )
        &&& forall|n: Seq<char>| #[trigger]
            self.global_id_by_name@.contains_key(n) ==> self.global_id_by_name@[n]
                < self.name_by_function_id.len()
                && self.name_by_function_id[self.global_id_by_name@[n] as int]@ == Symbol::Global(n)
        &&& forall|o: int, n: Seq<char>|
            0 <= o < self.local_id_by_name.len() && #[trigger] self.local_id_by_name[o]@.contains_key(
                n,
            ) ==> self.local_id_by_name[o]@[n] < self.name_by_function_id.len()
                && self.name_by_function_id[self.local_id_by_name[o]@[n] as int]@ == Symbol::Local(
                o,
                n,
            )
    }

    /// The invariant of the knowledge base: the graph is well formed and
    /// the lookup tables agree with it.
    pub closed spec fn wf(&self) -> bool {
        self@.wf() && self.indexed()
    }

    /// A well-formed knowledge base holds a well-formed graph.
    pub proof fn lemma_wf(&self)
        requires
            self.wf(),
        ensures
            self@.wf(),
    {
    }

    /// An empty knowledge base.
    pub fn new() -> (kb: ParsedData)
        ensures
            kb.wf(),
            kb@ == Graph::empty(),
    {
        let kb = ParsedData {
            name_by_object_id: Vec::new(),
            object_id_by_name: StringHashMap::new(),
            parsed_objects: Vec::new(),
            name_by_function_id: Vec::new(),
            global_id_by_name: StringHashMap::new(),
            local_id_by_name: Vec::new(),
            functions_by_object: Vec::new(),
            objects_by_function: Vec::new(),
            callers_by_callee: Vec::new(),
            callees_by_caller: Vec::new(),
            instructions_by_function: Vec::new(),
        };
        proof {
            assert(kb@.objects =~= Seq::empty());
            assert(kb@.members =~= Seq::empty());
            assert(kb@.functions =~= Seq::empty());
            assert(kb@.defined_in =~= Seq::empty());
            assert(kb@.callees =~= Seq::empty());
            assert(kb@.callers =~= Seq::empty());
            assert(kb@.instructions =~= Seq::empty());
        }
        kb
    }

    /// Number of registered objects.
    pub fn object_count(&self) -> (n: usize)
        ensures
            n == self@.objects.len(),
    {
        self.name_by_object_id.len()
    }

    /// Number of interned functions.
    pub fn function_count(&self) -> (n: usize)
        ensures
            n == self@.functions.len(),
    {
        self.name_by_function_id.len()
    }

    /// The identifier of the object with this path, if it is registered.
    pub fn lookup_object(&self, path: &str) -> (found: Option<ObjectID>)
        requires
            self.wf(),
        ensures
            match found {
                Some(o) => self@.find_object(path@) == Some(o.0 as int) && self@.has_object(
                    o.0 as int,
                ),
                None => self@.find_object(path@) is None && !self@.objects.contains(path@),
            },
    {
        proof {
            self@.objects.index_of_first_ensures(path@);
        }
        match self.object_id_by_name.get(path) {
            Some(o) => {
                proof {
                    assert(self@.objects[*o as int] == path@);
                    lemma_index_of_first_unique(self@.objects, *o as int);
                }
                Some(ObjectID(*o))
            },
            None => {
                proof {
                    if self@.objects.contains(path@) {
                        let k = choose|k: int|
                            0 <= k < self@.objects.len() && self@.objects[k] == path@;
                        assert(self.object_id_by_name@.contains_key(
                            self.name_by_object_id[k].path@,
                        ));
                    }
                }
                None
            },
        }
    }

    /// Registers the object with this path, unless it is registered, and
    /// returns its identifier.
    pub fn register_object(&mut self, path: &str) -> (o: ObjectID)
        requires
            old(self).wf(),
        ensures
            final(self).wf(),
            final(self)@ == old(self)@.with_object(path@),
            final(self)@.extends(old(self)@),
            o.0 == old(self)@.object_id(path@),
            final(self)@.has_object(o.0 as int),
    {
        proof {
            self@.lemma_with_object(path@);
            self@.lemma_with_object_extends(path@);
            self@.objects.index_of_first_ensures(path@);
        }
        match self.lookup_object(path) {
            Some(o) => o,
            None => {
                let o = self.name_by_object_id.len();
                self.object_id_by_name.insert(path.to_owned(), o);
                self.name_by_object_id.push(ObjectName { path: path.to_owned() });
                self.parsed_objects.push(false);
                self.functions_by_object.push(Vec::new());
                self.local_id_by_name.push(StringHashMap::new());
                proof {
                    let g = old(self)@.with_object(path@);
                    assert(self@.objects =~= g.objects);
                    assert(self@.members =~~= g.members);
                    assert(self@.functions =~= g.functions);
                    assert(self@.defined_in =~= g.defined_in);
                    assert(self@.callees =~= g.callees);
                    assert(self@.callers =~= g.callers);
                    assert(self@.instructions =~= g.instructions);
                    assert(self@ == g);
                    assert forall|k: int|
                        0 <= k < self.name_by_object_id.len() implies self.object_id_by_name@.contains_key(
                        #[trigger] self.name_by_object_id[k].path@,
                    ) && self.object_id_by_name@[self.name_by_object_id[k].path@] == k by {
                        if k < o {
                            assert(old(self)@.objects[k] == old(self).name_by_object_id[k].path@);
                        }
                    }
                    assert forall|p: Seq<char>| #[trigger]
                        self.object_id_by_name@.contains_key(p) implies self.object_id_by_name@[p]
                        < self.name_by_object_id.len()
                        && self.name_by_object_id[self.object_id_by_name@[p] as int].path@ == p by {
                        if p != path@ {
                            assert(old(self).object_id_by_name@.contains_key(p));
                        }
                    }
                    assert forall|f: int| 0 <= f < self.name_by_function_id.len() implies self.knows(
                        #[trigger] self.name_by_function_id[f]@,
                        f,
                    ) by {
                        assert(old(self).knows(old(self).name_by_function_id[f]@, f));
                    }
                    assert forall|oo: int, n: Seq<char>|
                        0 <= oo < self.local_id_by_name.len()
                            && #[trigger] self.local_id_by_name[oo]@.contains_key(
                            n,
                        ) implies self.local_id_by_name[oo]@[n] < self.name_by_function_id.len()
                        && self.name_by_function_id[self.local_id_by_name[oo]@[n] as int]@
                        == Symbol::Local(oo, n) by {
                        if oo < o {
                            assert(old(self).local_id_by_name[oo]@.contains_key(n));
                        }
                    }
                }
                ObjectID(o)
            },
        }
    }

    /// The identifier of the function with this identity, if interned.
    pub fn lookup_function(&self, name: &FunctionName) -> (found: Option<FunctionID>)
        requires
            self.wf(),
        ensures
            match found {
                Some(f) => self@.find_function(name@) == Some(f.0 as int) && self@.has_function(
                    f.0 as int,
                ),
                None => self@.find_function(name@) is None && !self@.functions.contains(name@),
            },
    {
        proof {
            self@.functions.index_of_first_ensures(name@);
        }
        let hit = match name {
            FunctionName::Global(g) => self.global_id_by_name.get(g.name.as_str()),
            FunctionName::Local(l) => {
                if l.object.0 < self.local_id_by_name.len() {
                    self.local_id_by_name[l.object.0].get(l.name.as_str())
                } else {
                    None
                }
            },
        };
        match hit {
            Some(f) => {
                proof {
                    assert(self@.functions[*f as int] == name@);
                    lemma_index_of_first_unique(self@.functions, *f as int);
                }
                Some(FunctionID(*f))
            },
            None => {
                proof {
                    if self@.functions.contains(name@) {
                        let k = choose|k: int|
                            0 <= k < self@.functions.len() && self@.functions[k] == name@;
                        assert(self.knows(self.name_by_function_id[k]@, k));
                    }
                }
                None
            },
        }
    }

    /// Interns an identity whose object, if it has one, is registered.
    pub(crate) fn intern(&mut self, name: FunctionName) -> (f: FunctionID)
        requires
            old(self).wf(),
            match name@ {
                Symbol::Local(o, _) => old(self)@.has_object(o),
                Symbol::Global(_) => true,
            },
        ensures
            final(self).wf(),
            final(self)@ == old(self)@.with_function(name@),
            final(self)@.extends(old(self)@),
            f.0 == old(self)@.function_id(name@),
            final(self)@.has_function(f.0 as int),
    {
        proof {
            self@.lemma_with_function(name@);
            self@.lemma_with_function_extends(name@);
            self@.functions.index_of_first_ensures(name@);
        }
        match self.lookup_function(&name) {
            Some(f) => f,
            None => {
                let f = self.name_by_function_id.len();
                match &name {
                    FunctionName::Global(g) => {
                        self.global_id_by_name.insert(g.name.clone(), f);
                    },
                    FunctionName::Local(l) => {
                        self.local_id_by_name[l.object.0].insert(l.name.clone(), f);
                    },
                }
                self.name_by_function_id.push(name);
                self.objects_by_function.push(Vec::new());
                self.callees_by_caller.push(Vec::new());
                self.callers_by_callee.push(Vec::new());
                self.instructions_by_function.push(0);
                proof {
                    let g = old(self)@.with_function(name@);
                    assert(self@.objects =~= g.objects);
                    assert(self@.members =~~= g.members);
                    assert(self@.functions =~= g.functions);
                    assert(self@.defined_in =~~= g.defined_in);
                    assert(self@.callees =~~= g.callees);
                    assert(self@.callers =~~= g.callers);
                    assert(self@.instructions =~= g.instructions);
                    assert(self@ == g);
                    assert forall|k: int| 0 <= k < self.name_by_function_id.len() implies self.knows(
                        #[trigger] self.name_by_function_id[k]@,
                        k,
                    ) by {
                        if k < f {
                            assert(old(self).knows(old(self).name_by_function_id[k]@, k));
                            assert(old(self)@.functions[k] == old(self).name_by_function_id[k]@);
                            assert(old(self)@.functions.contains(old(self).name_by_function_id[k]@));
                        }
                    }
                    assert forall|n: Seq<char>| #[trigger]
                        self.global_id_by_name@.contains_key(n) implies self.global_id_by_name@[n]
                        < self.name_by_function_id.len()
                        && self.name_by_function_id[self.global_id_by_name@[n] as int]@
                        == Symbol::Global(n) by {
                        if name@ != Symbol::Global(n) {
                            assert(old(self).global_id_by_name@.contains_key(n));
                        }
                    }
                    assert forall|o: int, n: Seq<char>|
                        0 <= o < self.local_id_by_name.len()
                            && #[trigger] self.local_id_by_name[o]@.contains_key(
                            n,
                        ) implies self.local_id_by_name[o]@[n] < self.name_by_function_id.len()
                        && self.name_by_function_id[self.local_id_by_name[o]@[n] as int]@
                        == Symbol::Local(o, n) by {
                        if name@ != Symbol::Local(o, n) {
                            assert(old(self).local_id_by_name[o]@.contains_key(n));
                        }
                    }
                    assert forall|o: int|
                        0 <= o < self.name_by_object_id.len() implies self.object_id_by_name@.contains_key(
                        #[trigger] self.name_by_object_id[o].path@,
                    ) && self.object_id_by_name@[self.name_by_object_id[o].path@] == o by {
                        assert(old(self).name_by_object_id[o] == self.name_by_object_id[o]);
                    }
                }
                FunctionID(f)
            },
        }
    }

    /// Interns an identity and returns its identifier: the one it had if
    /// it was known, else the next free one. Fails, and changes nothing,
    /// if the identity is local to an object that is not registered.
    pub fn intern_function(&mut self, name: FunctionName) -> (out: Result<FunctionID, NotFound>)
        requires
            old(self).wf(),
        ensures
            final(self).wf(),
            final(self)@.extends(old(self)@),
            match name@ {
                Symbol::Local(o, _) if !old(self)@.has_object(o) => out is Err && final(self)@
                    == old(self)@,
                _ => out == Ok::<FunctionID, NotFound>(
                    FunctionID(old(self)@.function_id(name@) as usize),
                ) && final(self)@ == old(self)@.with_function(name@) && final(self)@.has_function(
                    old(self)@.function_id(name@),
                ),
            },
    {
        let known = match &name {
            FunctionName::Global(_) => true,
            FunctionName::Local(l) => l.object.0 < self.name_by_object_id.len(),
        };
        proof {
            self@.lemma_extends_refl();
        }
        if known {
            Ok(self.intern(name))
        } else {
            Err(NotFound)
        }
    }

    /// Records that function `f` is defined in object `o`.
    pub(crate) fn attach(&mut self, f: FunctionID, o: ObjectID)
        requires
            old(self).wf(),
            old(self)@.has_function(f.0 as int),
            old(self)@.has_object(o.0 as int),
        ensures
            final(self).wf(),
            final(self)@ == old(self)@.attach(f.0 as int, o.0 as int),
            final(self)@.extends(old(self)@),
    {
        proof {
            self@.lemma_attach(f.0 as int, o.0 as int);
            self@.lemma_attach_extends(f.0 as int, o.0 as int);
        }
        if !holds_object(&self.objects_by_function[f.0], o) {
            self.objects_by_function[f.0].push(o);
            self.functions_by_object[o.0].push(f);
            proof {
                let g = old(self)@.attach(f.0 as int, o.0 as int);
                assert(self@.defined_in =~~= g.defined_in);
                assert(self@.members =~~= g.members);
                assert(self@ == g);
            }
        }
    }

    /// Records one call from `caller` to `callee`.
    pub(crate) fn add_edge(&mut self, caller: FunctionID, callee: FunctionID)
        requires
            old(self).wf(),
            old(self)@.has_function(caller.0 as int),
            old(self)@.has_function(callee.0 as int),
        ensures
            final(self).wf(),
            final(self)@ == old(self)@.add_edge(caller.0 as int, callee.0 as int),
            final(self)@.extends(old(self)@),
    {
        proof {
            self@.lemma_add_edge(caller.0 as int, callee.0 as int);
            self@.lemma_add_edge_extends(caller.0 as int, callee.0 as int);
        }
        self.callees_by_caller[caller.0].push(callee);
        self.callers_by_callee[callee.0].push(caller);
        proof {
            let g = old(self)@.add_edge(caller.0 as int, callee.0 as int);
            assert(self@.callees =~~= g.callees);
            assert(self@.callers =~~= g.callers);
            assert(self@ == g);
        }
    }

    /// Counts `n` more instructions for function `f`.
    pub(crate) fn add_instructions(&mut self, f: FunctionID, n: usize)
        requires
            old(self).wf(),
            old(self)@.has_function(f.0 as int),
        ensures
            final(self).wf(),
            final(self)@ == old(self)@.add_instructions(f.0 as int, n as int),
            final(self)@.extends(old(self)@),
    {
        proof {
            self@.lemma_add_instructions(f.0 as int, n as int);
            self@.lemma_add_instructions_extends(f.0 as int, n as int);
        }
        let count = self.instructions_by_function[f.0];
        let sum = if n > usize::MAX - count {
            usize::MAX
        } else {
            count + n
        };
        self.instructions_by_function[f.0] = sum;
        proof {
            let g = old(self)@.add_instructions(f.0 as int, n as int);
            assert(self@.instructions =~= g.instructions);
            assert(self@ == g);
        }
    }

    /// Marks object `o` as parsed.
    pub(crate) fn mark_parsed(&mut self, o: ObjectID)
        requires
            old(self).wf(),
            old(self)@.has_object(o.0 as int),
        ensures
            final(self).wf(),
            final(self)@ == old(self)@.mark_parsed(o.0 as int),
    {
        proof {
            self@.lemma_mark_parsed(o.0 as int);
        }
        self.parsed_objects[o.0] = true;
        proof {
            assert(self@.parsed =~= old(self)@.mark_parsed(o.0 as int).parsed);
        }
    }

    /// Records that function `f` is defined in object `o`; a definition
    /// that is known already changes nothing. Fails, and changes nothing,
    /// if either identifier is unknown.
    pub fn attach_function(&mut self, f: FunctionID, o: ObjectID) -> (out: Result<(), NotFound>)
        requires
            old(self).wf(),
        ensures
            final(self).wf(),
            final(self)@.extends(old(self)@),
            out is Ok <==> old(self)@.has_function(f.0 as int) && old(self)@.has_object(o.0 as int),
            out is Ok ==> final(self)@ == old(self)@.attach(f.0 as int, o.0 as int),
            out is Err ==> final(self)@ == old(self)@,
    {
        proof {
            self@.lemma_extends_refl();
        }
        if f.0 < self.name_by_function_id.len() && o.0 < self.name_by_object_id.len() {
            self.attach(f, o);
            Ok(())
        } else {
            Err(NotFound)
        }
    }

    /// Records one call from `caller` to `callee`, in both directions.
    /// Fails, and changes nothing, if either identifier is unknown.
    pub fn record_call(&mut self, caller: FunctionID, callee: FunctionID) -> (out: Result<
        (),
        NotFound,
    >)
        requires
            old(self).wf(),
        ensures
            final(self).wf(),
            final(self)@.extends(old(self)@),
            out is Ok <==> old(self)@.has_function(caller.0 as int) && old(self)@.has_function(
                callee.0 as int,
            ),
            out is Ok ==> final(self)@ == old(self)@.add_edge(caller.0 as int, callee.0 as int),
            out is Err ==> final(self)@ == old(self)@,
    {
        proof {
            self@.lemma_extends_refl();
        }
        let n = self.name_by_function_id.len();
        if caller.0 < n && callee.0 < n {
            self.add_edge(caller, callee);
            Ok(())
        } else {
            Err(NotFound)
        }
    }

    /// Counts `n` more instructions for function `f`; the count stops at
    /// `usize::MAX`. Fails, and changes nothing, if `f` is unknown.
    pub fn count_instructions(&mut self, f: FunctionID, n: usize) -> (out: Result<(), NotFound>)
        requires
            old(self).wf(),
        ensures
            final(self).wf(),
            final(self)@.extends(old(self)@),
            out is Ok <==> old(self)@.has_function(f.0 as int),
            out is Ok ==> final(self)@ == old(self)@.add_instructions(f.0 as int, n as int),
            out is Err ==> final(self)@ == old(self)@,
    {
        proof {
            self@.lemma_extends_refl();
        }
        if f.0 < self.name_by_function_id.len() {
            self.add_instructions(f, n);
            Ok(())
        } else {
            Err(NotFound)
        }
    }

    /// The identity of function `f`.
    pub fn function_name(&self, f: FunctionID) -> (name: Option<&FunctionName>)
        ensures
            match name {
                Some(n) => self@.has_function(f.0 as int) && n@ == self@.functions[f.0 as int],
                None => !self@.has_function(f.0 as int),
            },
    {
        if f.0 < self.name_by_function_id.len() {
            Some(&self.name_by_function_id[f.0])
        } else {
            None
        }
    }

    /// The identity of object `o`.
    pub fn object_name(&self, o: ObjectID) -> (name: Option<&ObjectName>)
        ensures
            match name {
                Some(n) => self@.has_object(o.0 as int) && n.path@ == self@.objects[o.0 as int],
                None => !self@.has_object(o.0 as int),
            },
    {
        if o.0 < self.name_by_object_id.len() {
            Some(&self.name_by_object_id[o.0])
        } else {
            None
        }
    }

    /// Whether the text of object `o` has been parsed.
    pub fn is_parsed(&self, o: ObjectID) -> (parsed: Option<bool>)
        requires
            self.wf(),
        ensures
            match parsed {
                Some(p) => self@.has_object(o.0 as int) && p == self@.parsed[o.0 as int],
                None => !self@.has_object(o.0 as int),
            },
    {
        if o.0 < self.parsed_objects.len() {
            Some(self.parsed_objects[o.0])
        } else {
            None
        }
    }

    /// The functions defined in object `o`, in the order of definition.
    pub fn functions_of(&self, o: ObjectID) -> (list: Option<&Vec<FunctionID>>)
        requires
            self.wf(),
        ensures
            match list {
                Some(l) => self@.has_object(o.0 as int) && function_ids(l@)
                    == self@.members[o.0 as int],
                None => !self@.has_object(o.0 as int),
            },
    {
        if o.0 < self.functions_by_object.len() {
            Some(&self.functions_by_object[o.0])
        } else {
            None
        }
    }

    /// The objects that define function `f`.
    pub fn objects_of(&self, f: FunctionID) -> (list: Option<&Vec<ObjectID>>)
        requires
            self.wf(),
        ensures
            match list {
                Some(l) => self@.has_function(f.0 as int) && object_ids(l@)
                    == self@.defined_in[f.0 as int],
                None => !self@.has_function(f.0 as int),
            },
    {
        if f.0 < self.objects_by_function.len() {
            Some(&self.objects_by_function[f.0])
        } else {
            None
        }
    }

    /// The direct callees of function `f`, one entry per call.
    pub fn callees_of(&self, f: FunctionID) -> (list: Option<&Vec<FunctionID>>)
        requires
            self.wf(),
        ensures
            match list {
                Some(l) => self@.has_function(f.0 as int) && function_ids(l@)
                    == self@.callees[f.0 as int],
                None => !self@.has_function(f.0 as int),
            },
    {
        if f.0 < self.callees_by_caller.len() {
            Some(&self.callees_by_caller[f.0])
        } else {
            None
        }
    }

    /// The direct callers of function `f`, one entry per call.
    pub fn callers_of(&self, f: FunctionID) -> (list: Option<&Vec<FunctionID>>)
        requires
            self.wf(),
        ensures
            match list {
                Some(l) => self@.has_function(f.0 as int) && function_ids(l@)
                    == self@.callers[f.0 as int],
                None => !self@.has_function(f.0 as int),
            },
    {
        if f.0 < self.callers_by_callee.len() {
            Some(&self.callers_by_callee[f.0])
        } else {
            None
        }
    }

    /// The number of instructions counted for function `f`.
    pub fn instructions_of(&self, f: FunctionID) -> (count: Option<usize>)
        requires
            self.wf(),
        ensures
            match count {
                Some(n) => self@.has_function(f.0 as int) && n == self@.instructions[f.0 as int],
                None => !self@.has_function(f.0 as int),
            },
    {
        if f.0 < self.instructions_by_function.len() {
            Some(self.instructions_by_function[f.0])
        } else {
            None
        }
    }
}

impl Default for ParsedData {
    /// An empty knowledge base.
    fn default() -> (kb: ParsedData)
        ensures
            kb.wf(),
            kb@ == Graph::empty(),
    {
        ParsedData::new()
    }
}

/// Whether `list` holds the object `o`.
pub(crate) fn holds_object(list: &Vec<ObjectID>, o: ObjectID) -> (b: bool)
    ensures
        b == object_ids(list@).contains(o.0 as int),
{
    let mut i: usize = 0;
    while i < list.len()
        invariant
            i <= list.len(),
            forall|k: int| 0 <= k < i ==> object_ids(list@)[k] != o.0 as int,
        decreases list.len() - i,
    {
        if list[i].0 == o.0 {
            proof {
                assert(object_ids(list@)[i as int] == o.0 as int);
            }
            return true;
        }
        i += 1;
    }
    false
}

} // verus!
