//! Folding one translation unit into the knowledge base.
use crate::directive::LinkType;
use crate::graph::{capped_sum, lemma_index_of_first_unique, Graph, Symbol};
use crate::knowledge::{
    FunctionID, FunctionName, GlobalFunctionName, LocalFunctionName, NotFound, ObjectID, ParsedData,
};
use crate::scanner::{
    scan_unit, stray_call, unit_of, Body, CallTarget, Declared, DeclaredFunction, FunctionBody,
    StrayCall, Target, Unit, UnitSummary,
};
use crate::text::split_lines;
use vstd::prelude::*;

verus! {

/// The identity of a declared function: by name alone if its linkage is
/// weak or global, by object and name if it is local.
pub open spec fn symbol_of(object: int, function: Declared) -> Symbol {
    match function.linkage {
        LinkType::Local => Symbol::Local(object, function.name),
        LinkType::Weak => Symbol::Global(function.name),
        LinkType::Global => Symbol::Global(function.name),
    }
}

/// The identity of a callee: that of the declared function it denotes, or
/// a global identity for a symbol that the unit does not declare.
pub open spec fn callee_symbol(object: int, functions: Seq<Declared>, target: Target) -> Symbol {
    match target {
        Target::Declared(p) => symbol_of(object, functions[p]),
        Target::External(name) => Symbol::Global(name),
    }
}

/// The graph after interning the declared functions in order.
pub open spec fn intern_declared(g: Graph, object: int, functions: Seq<Declared>) -> Graph
    decreases functions.len(),
{
    if functions.len() == 0 {
        g
    } else {
        intern_declared(g, object, functions.drop_last()).with_function(
            symbol_of(object, functions.last()),
        )
    }
}

/// The graph after recording the calls of one body in order: each callee
/// is interned, then the call is recorded.
pub open spec fn record_calls(
    g: Graph,
    caller: int,
    object: int,
    functions: Seq<Declared>,
    calls: Seq<Target>,
) -> Graph
    decreases calls.len(),
{
    if calls.len() == 0 {
        g
    } else {
        let before = record_calls(g, caller, object, functions, calls.drop_last());
        let callee = callee_symbol(object, functions, calls.last());
        before.with_function(callee).add_edge(caller, before.function_id(callee))
    }
}

/// The graph after a body's function has been defined in the object and
/// the body's instructions have been counted.
pub open spec fn counted_body(g: Graph, object: int, functions: Seq<Declared>, body: Body) -> Graph {
    let f = g.function_id(symbol_of(object, functions[body.function]));
    g.attach(f, object).add_instructions(f, body.instructions)
}

/// The graph after one body: its function is defined in the object, its
/// instructions are counted, and its calls are recorded.
pub open spec fn merge_body(g: Graph, object: int, functions: Seq<Declared>, body: Body) -> Graph {
    let f = g.function_id(symbol_of(object, functions[body.function]));
    record_calls(counted_body(g, object, functions, body), f, object, functions, body.calls)
}

/// The graph after the bodies of a unit in order.
pub open spec fn merge_bodies(g: Graph, object: int, functions: Seq<Declared>, bodies: Seq<Body>) -> Graph
    decreases bodies.len(),
{
    if bodies.len() == 0 {
        g
    } else {
        merge_body(
            merge_bodies(g, object, functions, bodies.drop_last()),
            object,
            functions,
            bodies.last(),
        )
    }
}

/// The graph after one translation unit has been folded in as `object`:
/// the object counts as parsed, the declared functions are interned in
/// order, and then the bodies are merged in order.
pub open spec fn merge(g: Graph, object: int, unit: Unit) -> Graph {
    merge_bodies(
        intern_declared(g.mark_parsed(object), object, unit.functions),
        object,
        unit.functions,
        unit.bodies,
    )
}

/// Each declared function is interned under the identifier listed for it.
pub open spec fn ids_match(g: Graph, object: int, functions: Seq<Declared>, ids: Seq<FunctionID>) -> bool {
    &&& ids.len() <= functions.len()
    &&& forall|k: int|
        0 <= k < ids.len() ==> g.has_function(ids[k].0 as int) && #[trigger] g.functions[ids[k].0 as int]
            == symbol_of(object, functions[k])
}

/// An identity that is interned keeps its identifier when another is
/// interned.
pub proof fn lemma_with_function_keeps(g: Graph, symbol: Symbol, f: int)
    requires
        g.wf(),
        g.has_function(f),
    ensures
        g.with_function(symbol).has_function(f),
        g.with_function(symbol).functions[f] == g.functions[f],
        g.with_function(symbol).objects == g.objects,
{
}

/// An interned identity is found under the identifier where it stands.
pub proof fn lemma_function_id(g: Graph, f: int)
    requires
        g.wf(),
        g.has_function(f),
    ensures
        g.function_id(g.functions[f]) == f,
        g.find_function(g.functions[f]) == Some(f),
        g.with_function(g.functions[f]) == g,
{
    lemma_index_of_first_unique(g.functions, f);
}

/// Every declared function of a unit is interned.
pub open spec fn declared_interned(g: Graph, object: int, functions: Seq<Declared>) -> bool {
    forall|k: int|
        0 <= k < functions.len() ==> g.functions.contains(
            #[trigger] symbol_of(object, functions[k]),
        )
}

/// The callees are declared functions or symbols from elsewhere.
pub open spec fn targets_declared(functions: Seq<Declared>, calls: Seq<Target>) -> bool {
    forall|c: int|
        0 <= c < calls.len() ==> match #[trigger] calls[c] {
            Target::Declared(p) => 0 <= p < functions.len(),
            Target::External(_) => true,
        }
}

/// Every body belongs to a declared function, holds no negative count,
/// and calls declared functions or symbols from elsewhere.
pub open spec fn bodies_in_range(functions: Seq<Declared>, bodies: Seq<Body>) -> bool {
    forall|b: int|
        0 <= b < bodies.len() ==> 0 <= (#[trigger] bodies[b]).function < functions.len() && 0
            <= bodies[b].instructions && targets_declared(functions, bodies[b].calls)
}

/// The bodies of a well-formed unit are in range.
pub proof fn lemma_unit_bodies_in_range(unit: Unit)
    requires
        unit.wf(),
    ensures
        bodies_in_range(unit.functions, unit.bodies),
{
    assert forall|b: int| 0 <= b < unit.bodies.len() implies 0 <= (
    #[trigger] unit.bodies[b]).function < unit.functions.len() && 0 <= unit.bodies[b].instructions
        && targets_declared(unit.functions, unit.bodies[b].calls) by {
        assert forall|c: int| 0 <= c < unit.bodies[b].calls.len() implies match (
        #[trigger] unit.bodies[b].calls[c]) {
            Target::Declared(p) => 0 <= p < unit.functions.len(),
            Target::External(_) => true,
        } by {}
    }
}

/// What holds of a list of calls holds of all but the last, and of the
/// last.
pub proof fn lemma_targets_declared_rest(functions: Seq<Declared>, calls: Seq<Target>)
    requires
        targets_declared(functions, calls),
        calls.len() > 0,
    ensures
        targets_declared(functions, calls.drop_last()),
        match calls.last() {
            Target::Declared(p) => 0 <= p < functions.len(),
            Target::External(_) => true,
        },
{
    let rest = calls.drop_last();
    assert forall|c: int| 0 <= c < rest.len() implies match #[trigger] rest[c] {
        Target::Declared(p) => 0 <= p < functions.len(),
        Target::External(_) => true,
    } by {
        assert(rest[c] == calls[c]);
    }
    assert(calls.last() == calls[calls.len() - 1]);
}

/// What holds of a list of bodies holds of all but the last, and of the
/// last.
pub proof fn lemma_bodies_in_range_rest(functions: Seq<Declared>, bodies: Seq<Body>)
    requires
        bodies_in_range(functions, bodies),
        bodies.len() > 0,
    ensures
        bodies_in_range(functions, bodies.drop_last()),
        0 <= bodies.last().function < functions.len(),
        0 <= bodies.last().instructions,
        targets_declared(functions, bodies.last().calls),
{
    let rest = bodies.drop_last();
    assert forall|b: int| 0 <= b < rest.len() implies 0 <= (#[trigger] rest[b]).function
        < functions.len() && 0 <= rest[b].instructions && targets_declared(
        functions,
        rest[b].calls,
    ) by {
        assert(rest[b] == bodies[b]);
    }
    assert(bodies.last() == bodies[bodies.len() - 1]);
}

/// What was interned stays interned when the graph is extended.
pub proof fn lemma_declared_interned_extends(
    after: Graph,
    before: Graph,
    object: int,
    functions: Seq<Declared>,
)
    requires
        after.extends(before),
        declared_interned(before, object, functions),
    ensures
        declared_interned(after, object, functions),
{
    assert forall|k: int| 0 <= k < functions.len() implies after.functions.contains(
        #[trigger] symbol_of(object, functions[k]),
    ) by {
        let symbol = symbol_of(object, functions[k]);
        let f = choose|f: int| 0 <= f < before.functions.len() && before.functions[f] == symbol;
        after.lemma_extends_keeps(before, f);
    }
}

/// Interning the declared functions extends the graph, keeps its
/// invariant, and leaves every declared function interned.
pub proof fn lemma_intern_declared(g: Graph, object: int, functions: Seq<Declared>)
    requires
        g.wf(),
        g.has_object(object),
    ensures
        intern_declared(g, object, functions).wf(),
        intern_declared(g, object, functions).extends(g),
        declared_interned(intern_declared(g, object, functions), object, functions),
    decreases functions.len(),
{
    let after = intern_declared(g, object, functions);
    if functions.len() == 0 {
        g.lemma_extends_refl();
    } else {
        let rest = functions.drop_last();
        let before = intern_declared(g, object, rest);
        let symbol = symbol_of(object, functions.last());
        lemma_intern_declared(g, object, rest);
        before.lemma_with_function(symbol);
        before.lemma_with_function_extends(symbol);
        after.lemma_extends_trans(before, g);
        lemma_declared_interned_extends(after, before, object, rest);
        assert forall|k: int| 0 <= k < functions.len() implies after.functions.contains(
            #[trigger] symbol_of(object, functions[k]),
        ) by {
            if k < rest.len() {
                assert(after.functions.contains(symbol_of(object, rest[k])));
            }
        }
    }
}

/// Recording the calls of a body extends the graph and keeps its
/// invariant.
pub proof fn lemma_record_calls(
    g: Graph,
    caller: int,
    object: int,
    functions: Seq<Declared>,
    calls: Seq<Target>,
)
    requires
        g.wf(),
        g.has_function(caller),
        g.has_object(object),
        declared_interned(g, object, functions),
        targets_declared(functions, calls),
    ensures
        record_calls(g, caller, object, functions, calls).wf(),
        record_calls(g, caller, object, functions, calls).extends(g),
    decreases calls.len(),
{
    let after = record_calls(g, caller, object, functions, calls);
    if calls.len() == 0 {
        g.lemma_extends_refl();
    } else {
        let rest = calls.drop_last();
        let before = record_calls(g, caller, object, functions, rest);
        let symbol = callee_symbol(object, functions, calls.last());
        lemma_targets_declared_rest(functions, calls);
        lemma_record_calls(g, caller, object, functions, rest);
        let interned = before.with_function(symbol);
        before.lemma_with_function(symbol);
        before.lemma_with_function_extends(symbol);
        interned.lemma_add_edge(caller, before.function_id(symbol));
        interned.lemma_add_edge_extends(caller, before.function_id(symbol));
        after.lemma_extends_trans(interned, before);
        after.lemma_extends_trans(before, g);
    }
}

/// Defining a body's function and counting the body's instructions
/// extends the graph and keeps its invariant; it changes the count of
/// that function and no identity, call or other count.
pub proof fn lemma_counted_body(g: Graph, object: int, functions: Seq<Declared>, body: Body)
    requires
        g.wf(),
        g.has_object(object),
        declared_interned(g, object, functions),
        0 <= body.function < functions.len(),
        0 <= body.instructions,
    ensures
        ({
            let f = g.function_id(symbol_of(object, functions[body.function]));
            let counted = counted_body(g, object, functions, body);
            &&& g.has_function(f)
            &&& g.functions[f] == symbol_of(object, functions[body.function])
            &&& counted.wf()
            &&& counted.extends(g)
            &&& declared_interned(counted, object, functions)
            &&& counted.functions == g.functions
            &&& counted.callees == g.callees
            &&& counted.callers == g.callers
            &&& counted.instructions == g.instructions.update(
                f,
                capped_sum(g.instructions[f], body.instructions),
            )
        }),
{
    let symbol = symbol_of(object, functions[body.function]);
    let f = g.function_id(symbol);
    g.functions.index_of_first_ensures(symbol);
    let attached = g.attach(f, object);
    g.lemma_attach(f, object);
    g.lemma_attach_extends(f, object);
    let counted = attached.add_instructions(f, body.instructions);
    attached.lemma_add_instructions(f, body.instructions);
    attached.lemma_add_instructions_extends(f, body.instructions);
    counted.lemma_extends_trans(attached, g);
    lemma_declared_interned_extends(counted, g, object, functions);
}

/// Merging a body extends the graph and keeps its invariant.
pub proof fn lemma_merge_body(g: Graph, object: int, functions: Seq<Declared>, body: Body)
    requires
        g.wf(),
        g.has_object(object),
        declared_interned(g, object, functions),
        0 <= body.function < functions.len(),
        0 <= body.instructions,
        targets_declared(functions, body.calls),
    ensures
        merge_body(g, object, functions, body).wf(),
        merge_body(g, object, functions, body).extends(g),
{
    let f = g.function_id(symbol_of(object, functions[body.function]));
    let counted = counted_body(g, object, functions, body);
    lemma_counted_body(g, object, functions, body);
    lemma_record_calls(counted, f, object, functions, body.calls);
    merge_body(g, object, functions, body).lemma_extends_trans(counted, g);
}

/// Merging the bodies of a unit extends the graph and keeps its invariant.
pub proof fn lemma_merge_bodies(g: Graph, object: int, functions: Seq<Declared>, bodies: Seq<Body>)
    requires
        g.wf(),
        g.has_object(object),
        declared_interned(g, object, functions),
        bodies_in_range(functions, bodies),
    ensures
        merge_bodies(g, object, functions, bodies).wf(),
        merge_bodies(g, object, functions, bodies).extends(g),
    decreases bodies.len(),
{
    if bodies.len() == 0 {
        g.lemma_extends_refl();
    } else {
        let rest = bodies.drop_last();
        let before = merge_bodies(g, object, functions, rest);
        lemma_bodies_in_range_rest(functions, bodies);
        lemma_merge_bodies(g, object, functions, rest);
        lemma_declared_interned_extends(before, g, object, functions);
        lemma_merge_body(before, object, functions, bodies.last());
        merge_bodies(g, object, functions, bodies).lemma_extends_trans(before, g);
    }
}

/// Folding a unit into the graph is a pure extension: the invariant
/// holds afterwards, whatever the graph held is still there under the
/// same identifiers, the object counts as parsed, and every function that
/// the unit declares is interned.
pub proof fn lemma_merge(g: Graph, object: int, unit: Unit)
    requires
        g.wf(),
        g.has_object(object),
        unit.wf(),
    ensures
        merge(g, object, unit).wf(),
        merge(g, object, unit).extends(g),
        merge(g, object, unit).parsed[object],
        declared_interned(merge(g, object, unit), object, unit.functions),
{
    let marked = g.mark_parsed(object);
    g.lemma_mark_parsed(object);
    g.lemma_mark_parsed_extends(object);
    let interned = intern_declared(marked, object, unit.functions);
    lemma_intern_declared(marked, object, unit.functions);
    interned.lemma_extends_trans(marked, g);
    lemma_unit_bodies_in_range(unit);
    lemma_merge_bodies(interned, object, unit.functions, unit.bodies);
    let merged = merge(g, object, unit);
    merged.lemma_extends_trans(interned, marked);
    merged.lemma_extends_trans(marked, g);
    lemma_declared_interned_extends(merged, interned, object, unit.functions);
    assert(marked.parsed[object]);
}

/// The identity under which a declared function is interned.
fn name_of(object: ObjectID, function: &DeclaredFunction) -> (name: FunctionName)
    ensures
        name@ == symbol_of(object.0 as int, function@),
{
    match function.linkage {
        LinkType::Local => FunctionName::Local(
            LocalFunctionName { object, name: function.name.clone() },
        ),
        _ => FunctionName::Global(GlobalFunctionName { name: function.name.clone() }),
    }
}

/// Interns the declared functions of a unit and lists their identifiers.
fn intern_unit(object: ObjectID, unit: &UnitSummary, parsed: &mut ParsedData) -> (ids: Vec<
    FunctionID,
>)
    requires
        old(parsed).wf(),
        old(parsed)@.has_object(object.0 as int),
    ensures
        final(parsed).wf(),
        final(parsed)@ == intern_declared(old(parsed)@, object.0 as int, unit@.functions),
        final(parsed)@.objects == old(parsed)@.objects,
        ids@.len() == unit@.functions.len(),
        ids_match(final(parsed)@, object.0 as int, unit@.functions, ids@),
{
    let ghost start = parsed@;
    let ghost o = object.0 as int;
    let ghost functions = unit@.functions;
    let mut ids: Vec<FunctionID> = Vec::new();
    let mut i: usize = 0;
    proof {
        assert(functions.take(0) =~= Seq::empty());
    }
    let declared = unit.functions();
    while i < declared.len()
        invariant
            i <= declared.len(),
            functions == unit@.functions,
            functions == declared@.map_values(|d: DeclaredFunction| d@),
            o == object.0 as int,
            parsed.wf(),
            parsed@ == intern_declared(start, o, functions.take(i as int)),
            parsed@.objects == start.objects,
            start.has_object(o),
            ids@.len() == i,
            ids_match(parsed@, o, functions, ids@),
        decreases declared.len() - i,
    {
        let ghost before = parsed@;
        let name = name_of(object, &declared[i]);
        proof {
            parsed.lemma_wf();
            assert(functions[i as int] == declared[i as int]@);
            assert(functions.take(i + 1).drop_last() =~= functions.take(i as int));
            before.lemma_with_function(name@);
            before.functions.index_of_first_ensures(name@);
            assert forall|k: int| 0 <= k < ids@.len() implies before.with_function(
                name@,
            ).has_function(ids@[k].0 as int) && #[trigger] before.with_function(
                name@,
            ).functions[ids@[k].0 as int] == symbol_of(o, functions[k]) by {
                assert(before.functions[ids@[k].0 as int] == symbol_of(o, functions[k]));
                lemma_with_function_keeps(before, name@, ids@[k].0 as int);
            }
        }
        let f = parsed.intern(name);
        ids.push(f);
        i += 1;
    }
    proof {
        assert(functions.take(functions.len() as int) =~= functions);
    }
    ids
}

/// Records the calls of one body.
fn record_body_calls(
    caller: FunctionID,
    object: ObjectID,
    unit: &UnitSummary,
    body: &FunctionBody,
    ids: &Vec<FunctionID>,
    parsed: &mut ParsedData,
)
    requires
        old(parsed).wf(),
        old(parsed)@.has_function(caller.0 as int),
        ids@.len() == unit@.functions.len(),
        ids_match(old(parsed)@, object.0 as int, unit@.functions, ids@),
        forall|c: int|
            0 <= c < body@.calls.len() ==> match #[trigger] body@.calls[c] {
                Target::Declared(p) => 0 <= p < unit@.functions.len(),
                Target::External(_) => true,
            },
    ensures
        final(parsed).wf(),
        final(parsed)@ == record_calls(
            old(parsed)@,
            caller.0 as int,
            object.0 as int,
            unit@.functions,
            body@.calls,
        ),
        final(parsed)@.objects == old(parsed)@.objects,
        ids_match(final(parsed)@, object.0 as int, unit@.functions, ids@),
{
    let ghost start = parsed@;
    let ghost o = object.0 as int;
    let ghost functions = unit@.functions;
    let ghost calls = body@.calls;
    let mut j: usize = 0;
    proof {
        assert(calls.take(0) =~= Seq::empty());
    }
    while j < body.calls.len()
        invariant
            j <= body.calls.len(),
            calls == body@.calls,
            calls.len() == body.calls.len(),
            functions == unit@.functions,
            o == object.0 as int,
            ids@.len() == functions.len(),
            forall|c: int|
                0 <= c < calls.len() ==> match #[trigger] calls[c] {
                    Target::Declared(p) => 0 <= p < functions.len(),
                    Target::External(_) => true,
                },
            parsed.wf(),
            parsed@.has_function(caller.0 as int),
            parsed@ == record_calls(start, caller.0 as int, o, functions, calls.take(j as int)),
            parsed@.objects == start.objects,
            ids_match(parsed@, o, functions, ids@),
        decreases body.calls.len() - j,
    {
        let ghost before = parsed@;
        let ghost symbol = callee_symbol(o, functions, calls[j as int]);
        proof {
            parsed.lemma_wf();
            assert(calls[j as int] == body.calls[j as int]@);
            assert(calls.take(j + 1).drop_last() =~= calls.take(j as int));
            assert(calls.take(j + 1).last() == calls[j as int]);
        }
        let callee = match &body.calls[j] {
            CallTarget::Declared(p) => {
                proof {
                    assert(before.functions[ids@[*p as int].0 as int] == symbol);
                    lemma_function_id(before, ids@[*p as int].0 as int);
                }
                ids[*p]
            },
            CallTarget::External(name) => {
                let symbol_name = FunctionName::Global(GlobalFunctionName { name: name.clone() });
                proof {
                    before.lemma_with_function(symbol);
                    assert forall|k: int| 0 <= k < ids@.len() implies before.with_function(
                        symbol,
                    ).has_function(ids@[k].0 as int) && #[trigger] before.with_function(
                        symbol,
                    ).functions[ids@[k].0 as int] == symbol_of(o, functions[k]) by {
                        assert(before.functions[ids@[k].0 as int] == symbol_of(o, functions[k]));
                        lemma_with_function_keeps(before, symbol, ids@[k].0 as int);
                    }
                    lemma_with_function_keeps(before, symbol, caller.0 as int);
                }
                parsed.intern(symbol_name)
            },
        };
        parsed.add_edge(caller, callee);
        j += 1;
    }
    proof {
        assert(calls.take(calls.len() as int) =~= calls);
    }
}

/// Folds one body into the knowledge base.
fn merge_one_body(
    object: ObjectID,
    unit: &UnitSummary,
    body: &FunctionBody,
    ids: &Vec<FunctionID>,
    parsed: &mut ParsedData,
)
    requires
        old(parsed).wf(),
        old(parsed)@.has_object(object.0 as int),
        ids@.len() == unit@.functions.len(),
        ids_match(old(parsed)@, object.0 as int, unit@.functions, ids@),
        0 <= body@.function < unit@.functions.len(),
        forall|c: int|
            0 <= c < body@.calls.len() ==> match #[trigger] body@.calls[c] {
                Target::Declared(p) => 0 <= p < unit@.functions.len(),
                Target::External(_) => true,
            },
    ensures
        final(parsed).wf(),
        final(parsed)@ == merge_body(old(parsed)@, object.0 as int, unit@.functions, body@),
        final(parsed)@.objects == old(parsed)@.objects,
        ids_match(final(parsed)@, object.0 as int, unit@.functions, ids@),
{
    let f = ids[body.function];
    proof {
        parsed.lemma_wf();
        assert(parsed@.functions[ids@[body.function as int].0 as int] == symbol_of(
            object.0 as int,
            unit@.functions[body.function as int],
        ));
        lemma_function_id(parsed@, f.0 as int);
    }
    parsed.attach(f, object);
    parsed.add_instructions(f, body.instructions);
    record_body_calls(f, object, unit, body, ids, parsed);
}

/// Folds one translation unit into the knowledge base as `object`: the
/// object counts as parsed from then on, the unit's functions are
/// interned, and its bodies add definitions, instruction counts and
/// calls. Fails, and changes nothing, if `object` is not registered.
pub fn merge_unit(object: ObjectID, unit: &UnitSummary, parsed: &mut ParsedData) -> (out: Result<
    (),
    NotFound,
>)
    requires
        old(parsed).wf(),
    ensures
        final(parsed).wf(),
        final(parsed)@.extends(old(parsed)@),
        out is Ok <==> old(parsed)@.has_object(object.0 as int),
        out is Ok ==> final(parsed)@ == merge(old(parsed)@, object.0 as int, unit@),
        out is Err ==> final(parsed)@ == old(parsed)@,
{
    proof {
        parsed.lemma_wf();
        parsed@.lemma_extends_refl();
    }
    if object.0 >= parsed.object_count() {
        return Err(NotFound);
    }
    let _ = unit.functions();
    proof {
        lemma_merge(parsed@, object.0 as int, unit@);
    }
    let ghost o = object.0 as int;
    let ghost functions = unit@.functions;
    let ghost bodies = unit@.bodies;
    parsed.mark_parsed(object);
    let ids = intern_unit(object, unit, parsed);
    let ghost start = parsed@;
    let listed = unit.bodies();
    let mut b: usize = 0;
    proof {
        assert(bodies.take(0) =~= Seq::empty());
    }
    while b < listed.len()
        invariant
            b <= listed.len(),
            unit@.wf(),
            functions == unit@.functions,
            bodies == unit@.bodies,
            bodies == listed@.map_values(|b: FunctionBody| b@),
            o == object.0 as int,
            ids@.len() == functions.len(),
            parsed.wf(),
            parsed@.has_object(o),
            parsed@ == merge_bodies(start, o, functions, bodies.take(b as int)),
            ids_match(parsed@, o, functions, ids@),
        decreases listed.len() - b,
    {
        proof {
            assert(bodies[b as int] == listed[b as int]@);
            assert(bodies.take(b + 1).drop_last() =~= bodies.take(b as int));
            assert(bodies.take(b + 1).last() == bodies[b as int]);
            assert forall|c: int| 0 <= c < bodies[b as int].calls.len() implies match (
            #[trigger] bodies[b as int].calls[c]) {
                Target::Declared(p) => 0 <= p < functions.len(),
                Target::External(_) => true,
            } by {
                assert(0 <= b < unit@.bodies.len() && 0 <= c < unit@.bodies[b as int].calls.len());
            }
        }
        merge_one_body(object, unit, &listed[b], &ids, parsed);
        b += 1;
    }
    proof {
        assert(bodies.take(bodies.len() as int) =~= bodies);
    }
    Ok(())
}

/// Why a translation unit could not be parsed.
#[derive(Debug, Clone, PartialEq, Eq)]
pub enum ParseError {
    /// The object is not registered in the knowledge base.
    UnknownObject,
    /// A `call` line stands outside every function body.
    CallOutsideFunction(StrayCall),
}

/// Parses the assembly text of one translation unit and folds it into the
/// knowledge base as `object`. Fails, and changes nothing, if `object` is
/// not registered or if a `call` line stands outside every function body;
/// the error then tells the first such line.
pub fn parse_data(object: ObjectID, assembly: &str, parsed: &mut ParsedData) -> (out: Result<
    (),
    ParseError,
>)
    requires
        old(parsed).wf(),
    ensures
        final(parsed).wf(),
        final(parsed)@.extends(old(parsed)@),
        match out {
            Ok(_) => old(parsed)@.has_object(object.0 as int) && stray_call(
                split_lines(assembly@),
            ) is None && final(parsed)@ == merge(
                old(parsed)@,
                object.0 as int,
                unit_of(split_lines(assembly@)),
            ),
            Err(ParseError::UnknownObject) => !old(parsed)@.has_object(object.0 as int)
                && final(parsed)@ == old(parsed)@,
            Err(ParseError::CallOutsideFunction(e)) => old(parsed)@.has_object(object.0 as int)
                && 1 <= e.line_number <= split_lines(assembly@).len() && stray_call(
                split_lines(assembly@),
            ) == Some(e.line_number - 1) && e.line@ == split_lines(assembly@)[e.line_number - 1]
                && final(parsed)@ == old(parsed)@,
        },
{
    proof {
        parsed.lemma_wf();
        parsed@.lemma_extends_refl();
    }
    if object.0 >= parsed.object_count() {
        return Err(ParseError::UnknownObject);
    }
    match scan_unit(assembly) {
        Ok(unit) => {
            match merge_unit(object, &unit, parsed) {
                Ok(_) => Ok(()),
                Err(_) => Err(ParseError::UnknownObject),
            }
        },
        Err(e) => Err(ParseError::CallOutsideFunction(e)),
    }
}

/// The graph after `text` has been parsed as the object with this path:
/// the object is registered unless it was, and the unit that the text
/// describes is folded in under the object's identifier.
pub open spec fn parse_into(g: Graph, path: Seq<char>, text: Seq<char>) -> Graph {
    merge(g.with_object(path), g.object_id(path), unit_of(split_lines(text)))
}

/// Parses the assembly text of the object with this path: registers the
/// object unless it is registered, and folds the text into the knowledge
/// base. Fails, and changes nothing, if a `call` line stands outside every
/// function body; the error then tells the first such line.
pub fn parse_object(path: &str, assembly: &str, parsed: &mut ParsedData) -> (out: Result<
    ObjectID,
    StrayCall,
>)
    requires
        old(parsed).wf(),
    ensures
        final(parsed).wf(),
        final(parsed)@.extends(old(parsed)@),
        match out {
            Ok(object) => object.0 == old(parsed)@.object_id(path@) && stray_call(
                split_lines(assembly@),
            ) is None && final(parsed)@ == parse_into(old(parsed)@, path@, assembly@),
            Err(e) => 1 <= e.line_number <= split_lines(assembly@).len() && stray_call(
                split_lines(assembly@),
            ) == Some(e.line_number - 1) && e.line@ == split_lines(assembly@)[e.line_number - 1]
                && final(parsed)@ == old(parsed)@,
        },
{
    proof {
        parsed.lemma_wf();
        parsed@.lemma_extends_refl();
        parsed@.lemma_with_object_extends(path@);
    }
    match scan_unit(assembly) {
        Ok(unit) => {
            let object = parsed.register_object(path);
            let ghost registered = parsed@;
            let _ = merge_unit(object, &unit, parsed);
            proof {
                parsed@.lemma_extends_trans(registered, old(parsed)@);
            }
            Ok(object)
        },
        Err(e) => Err(e),
    }
}

} // verus!
