//! Laws of the call graph construction, stated over the text of the
//! translation units and the graph that parsing them gives.
use crate::classifier::{
    classify, declares, lemma_alias_set, lemma_classify_wf, lemma_functions_declared,
    lemma_linkage_shared, sets, shares, Classes,
};
use crate::directive::{is_size_directive, label_of, set_directive, LinkType};
use crate::graph::{
    capped_sum, lemma_index_of_first_unique, lemma_occurrences_contains, occurrences, Graph,
    Symbol,
};
use crate::parse::{
    bodies_in_range, callee_symbol, counted_body, declared_interned, intern_declared,
    lemma_bodies_in_range_rest, lemma_counted_body, lemma_declared_interned_extends,
    lemma_intern_declared,
    lemma_merge, lemma_merge_bodies, lemma_record_calls, lemma_targets_declared_rest,
    lemma_unit_bodies_in_range, merge, merge_bodies, merge_body, parse_into, record_calls,
    symbol_of, targets_declared,
};
use crate::query::present_in_all;
use crate::scanner::{
    count_instructions, declared_of, lemma_unit_of, target_of, unit_of, Body, Declared, Target,
    Unit,
};
use crate::text::trim;
use vstd::prelude::*;

verus! {

/// The identity under which a unit knows the symbol `name`: local to the
/// object if the unit declares it as a function and no line marks it as
/// weak or global, else global.
pub open spec fn identity_of(classes: Classes, object: int, name: Seq<char>) -> Symbol {
    if classes.functions.contains(name) && classes.linkage_of(name) == LinkType::Local {
        Symbol::Local(object, name)
    } else {
        Symbol::Global(name)
    }
}

/// The name in an identity.
pub open spec fn name_of(symbol: Symbol) -> Seq<char> {
    match symbol {
        Symbol::Global(name) => name,
        Symbol::Local(_, name) => name,
    }
}

/// Every function that a unit declares is interned once the unit has been
/// folded into the graph: under its name alone if a line marks it as weak
/// or global, else under the object and its name.
pub proof fn law_declared_functions_interned(
    g: Graph,
    object: int,
    lines: Seq<Seq<char>>,
    name: Seq<char>,
)
    requires
        g.wf(),
        g.has_object(object),
        declares(lines, name),
    ensures
        merge(g, object, unit_of(lines)).wf(),
        merge(g, object, unit_of(lines)).extends(g),
        shares(lines, name) ==> merge(g, object, unit_of(lines)).functions.contains(
            Symbol::Global(name),
        ),
        !shares(lines, name) ==> merge(g, object, unit_of(lines)).functions.contains(
            Symbol::Local(object, name),
        ),
{
    let classes = classify(lines);
    let unit = unit_of(lines);
    lemma_unit_of(lines);
    lemma_merge(g, object, unit);
    lemma_functions_declared(lines, name);
    lemma_linkage_shared(lines, name);
    let k = choose|k: int| 0 <= k < classes.functions.len() && classes.functions[k] == name;
    assert(unit.functions[k].name == name);
    assert(merge(g, object, unit).functions.contains(symbol_of(object, unit.functions[k])));
}

/// Two objects that each declare a function `name`, and neither marks it
/// as weak or global, give two identities with two identifiers.
pub proof fn law_local_symbols_stay_apart(
    g: Graph,
    first: int,
    first_lines: Seq<Seq<char>>,
    second: int,
    second_lines: Seq<Seq<char>>,
    name: Seq<char>,
)
    requires
        g.wf(),
        g.has_object(first),
        g.has_object(second),
        first != second,
        declares(first_lines, name),
        !shares(first_lines, name),
        declares(second_lines, name),
        !shares(second_lines, name),
    ensures
        ({
            let after = merge(merge(g, first, unit_of(first_lines)), second, unit_of(second_lines));
            &&& after.wf()
            &&& after.find_function(Symbol::Local(first, name)) is Some
            &&& after.find_function(Symbol::Local(second, name)) is Some
            &&& after.find_function(Symbol::Local(first, name)) != after.find_function(
                Symbol::Local(second, name),
            )
        }),
{
    let middle = merge(g, first, unit_of(first_lines));
    let after = merge(middle, second, unit_of(second_lines));
    law_declared_functions_interned(g, first, first_lines, name);
    law_declared_functions_interned(middle, second, second_lines, name);
    let f = choose|f: int|
        0 <= f < middle.functions.len() && middle.functions[f] == Symbol::Local(first, name);
    after.lemma_extends_keeps(middle, f);
    after.functions.index_of_first_ensures(Symbol::Local(first, name));
    after.functions.index_of_first_ensures(Symbol::Local(second, name));
}

/// Two objects that each declare a function `name` and mark it as weak or
/// global share one identity: the second unit finds the identifier that
/// the first one gave.
pub proof fn law_shared_symbol_has_one_identity(
    g: Graph,
    first: int,
    first_lines: Seq<Seq<char>>,
    second: int,
    second_lines: Seq<Seq<char>>,
    name: Seq<char>,
)
    requires
        g.wf(),
        g.has_object(first),
        g.has_object(second),
        declares(first_lines, name),
        shares(first_lines, name),
        declares(second_lines, name),
        shares(second_lines, name),
    ensures
        ({
            let middle = merge(g, first, unit_of(first_lines));
            let after = merge(middle, second, unit_of(second_lines));
            &&& after.wf()
            &&& middle.find_function(Symbol::Global(name)) is Some
            &&& after.find_function(Symbol::Global(name)) == middle.find_function(
                Symbol::Global(name),
            )
        }),
{
    let middle = merge(g, first, unit_of(first_lines));
    let after = merge(middle, second, unit_of(second_lines));
    law_declared_functions_interned(g, first, first_lines, name);
    law_declared_functions_interned(middle, second, second_lines, name);
    law_identifier_is_kept(after, middle, Symbol::Global(name));
}

/// An identity that is interned keeps its identifier in every graph that
/// extends the one it is interned in.
pub proof fn law_identifier_is_kept(after: Graph, before: Graph, symbol: Symbol)
    requires
        before.wf(),
        after.wf(),
        after.extends(before),
        before.functions.contains(symbol),
    ensures
        before.find_function(symbol) is Some,
        after.find_function(symbol) == before.find_function(symbol),
{
    before.functions.index_of_first_ensures(symbol);
    after.functions.index_of_first_ensures(symbol);
    let f = before.functions.index_of_first(symbol)->0;
    after.lemma_extends_keeps(before, f);
}

/// A function has no caller exactly if no function's callees hold it,
/// and no callee exactly if no function's callers hold it.
pub proof fn law_callers_mirror_callees(g: Graph, f: int)
    requires
        g.wf(),
        g.has_function(f),
    ensures
        g.callers[f].len() == 0 <==> forall|c: int|
            g.has_function(c) ==> !(#[trigger] g.callees[c]).contains(f),
        g.callees[f].len() == 0 <==> forall|c: int|
            g.has_function(c) ==> !(#[trigger] g.callers[c]).contains(f),
{
    if g.callers[f].len() > 0 {
        let c = g.callers[f][0];
        assert(g.has_function(c));
        assert(g.callers[f].contains(c));
        lemma_occurrences_contains(g.callers[f], c);
        lemma_occurrences_contains(g.callees[c], f);
        assert(occurrences(g.callees[c], f) == occurrences(g.callers[f], c));
        assert(g.callees[c].contains(f));
    } else {
        assert forall|c: int| g.has_function(c) implies !(#[trigger] g.callees[c]).contains(f) by {
            lemma_occurrences_contains(g.callers[f], c);
            lemma_occurrences_contains(g.callees[c], f);
            assert(occurrences(g.callees[c], f) == occurrences(g.callers[f], c));
        }
    }
    if g.callees[f].len() > 0 {
        let c = g.callees[f][0];
        assert(g.has_function(c));
        assert(g.callees[f].contains(c));
        lemma_occurrences_contains(g.callees[f], c);
        lemma_occurrences_contains(g.callers[c], f);
        assert(occurrences(g.callees[f], c) == occurrences(g.callers[c], f));
        assert(g.callers[c].contains(f));
    } else {
        assert forall|c: int| g.has_function(c) implies !(#[trigger] g.callers[c]).contains(f) by {
            lemma_occurrences_contains(g.callees[f], c);
            lemma_occurrences_contains(g.callers[c], f);
            assert(occurrences(g.callees[f], c) == occurrences(g.callers[c], f));
        }
    }
}

/// A call operand denotes the identity of the name it resolves to: the
/// alias target if the operand is an alias, else the operand itself.
pub proof fn law_callee_identity(classes: Classes, object: int, operand: Seq<char>)
    requires
        classes.wf(),
    ensures
        callee_symbol(object, declared_of(classes), target_of(classes, operand)) == identity_of(
            classes,
            object,
            classes.resolve(operand),
        ),
{
    let resolved = classes.resolve(operand);
    classes.functions.index_of_first_ensures(resolved);
}

/// A call to an alias goes to the identity of the alias target, and to
/// no identity that bears the alias's own name: where `.set alias,
/// target` is the last line that declares `alias`, a call operand `alias`
/// denotes the identity of the symbol `target`.
pub proof fn law_call_to_alias(
    lines: Seq<Seq<char>>,
    k: int,
    object: int,
    alias: Seq<char>,
    target: Seq<char>,
)
    requires
        0 <= k < lines.len(),
        set_directive(trim(lines[k])) == Some((alias, target)),
        forall|j: int| k < j < lines.len() ==> !sets(#[trigger] lines[j], alias),
    ensures
        ({
            let classes = classify(lines);
            let callee = callee_symbol(object, unit_of(lines).functions, target_of(classes, alias));
            &&& callee == identity_of(classes, object, target)
            &&& name_of(callee) == target
        }),
{
    lemma_alias_set(lines, k, alias, target);
    lemma_classify_wf(lines);
    law_callee_identity(classify(lines), object, alias);
}

/// The callees recorded for an identity; none if it is not interned.
pub open spec fn callees_of(g: Graph, symbol: Symbol) -> Seq<int> {
    match g.find_function(symbol) {
        Some(f) => g.callees[f],
        None => Seq::empty(),
    }
}

/// The callers recorded for an identity; none if it is not interned.
pub open spec fn callers_of(g: Graph, symbol: Symbol) -> Seq<int> {
    match g.find_function(symbol) {
        Some(f) => g.callers[f],
        None => Seq::empty(),
    }
}

/// The instructions counted for an identity; none if it is not interned.
pub open spec fn instructions_of(g: Graph, symbol: Symbol) -> int {
    match g.find_function(symbol) {
        Some(f) => g.instructions[f],
        None => 0,
    }
}

/// No body of the function with this identity holds a call.
pub open spec fn calls_nothing(
    object: int,
    functions: Seq<Declared>,
    bodies: Seq<Body>,
    symbol: Symbol,
) -> bool {
    forall|b: int|
        0 <= b < bodies.len() && symbol_of(object, functions[(#[trigger] bodies[b]).function])
            == symbol ==> bodies[b].calls.len() == 0
}

/// No call in the list goes to this identity.
pub open spec fn not_among(
    object: int,
    functions: Seq<Declared>,
    calls: Seq<Target>,
    symbol: Symbol,
) -> bool {
    forall|c: int|
        0 <= c < calls.len() ==> callee_symbol(object, functions, #[trigger] calls[c]) != symbol
}

/// No body holds a call to this identity.
pub open spec fn never_called(
    object: int,
    functions: Seq<Declared>,
    bodies: Seq<Body>,
    symbol: Symbol,
) -> bool {
    forall|b: int|
        0 <= b < bodies.len() ==> not_among(object, functions, (#[trigger] bodies[b]).calls, symbol)
}

/// Interning an identity records no call and counts no instruction.
pub proof fn lemma_intern_keeps(g: Graph, interned: Symbol, symbol: Symbol)
    requires
        g.wf(),
        match interned {
            Symbol::Local(o, _) => g.has_object(o),
            Symbol::Global(_) => true,
        },
    ensures
        callees_of(g.with_function(interned), symbol) == callees_of(g, symbol),
        callers_of(g.with_function(interned), symbol) == callers_of(g, symbol),
        instructions_of(g.with_function(interned), symbol) == instructions_of(g, symbol),
{
    let after = g.with_function(interned);
    g.lemma_with_function(interned);
    g.functions.index_of_first_ensures(symbol);
    after.functions.index_of_first_ensures(symbol);
    if !g.functions.contains(interned) {
        if g.functions.contains(symbol) {
            let f = g.functions.index_of_first(symbol)->0;
            assert(after.functions[f] == symbol);
            lemma_index_of_first_unique(after.functions, f);
        } else if interned != symbol {
            if after.functions.contains(symbol) {
                let f = after.functions.index_of_first(symbol)->0;
                assert(g.functions[f] == symbol);
            }
        } else {
            g.functions.index_of_first_ensures(interned);
        }
    }
}

/// A call is recorded with its caller and its callee, and nowhere else.
pub proof fn lemma_edge_keeps_calls(g: Graph, caller: int, callee: int, symbol: Symbol)
    requires
        g.wf(),
        g.has_function(caller),
        g.has_function(callee),
    ensures
        g.functions[caller] != symbol ==> callees_of(g.add_edge(caller, callee), symbol)
            == callees_of(g, symbol),
        g.functions[callee] != symbol ==> callers_of(g.add_edge(caller, callee), symbol)
            == callers_of(g, symbol),
{
    g.functions.index_of_first_ensures(symbol);
}

/// The calls of a body are recorded with its function and with their
/// callees, and nowhere else; recording them counts no instruction.
pub proof fn lemma_record_calls_keeps(
    g: Graph,
    caller: int,
    object: int,
    functions: Seq<Declared>,
    calls: Seq<Target>,
    symbol: Symbol,
)
    requires
        g.wf(),
        g.has_function(caller),
        g.has_object(object),
        declared_interned(g, object, functions),
        targets_declared(functions, calls),
    ensures
        g.functions[caller] != symbol || calls.len() == 0 ==> callees_of(
            record_calls(g, caller, object, functions, calls),
            symbol,
        ) == callees_of(g, symbol),
        not_among(object, functions, calls, symbol) ==> callers_of(
            record_calls(g, caller, object, functions, calls),
            symbol,
        ) == callers_of(g, symbol),
        instructions_of(record_calls(g, caller, object, functions, calls), symbol)
            == instructions_of(g, symbol),
    decreases calls.len(),
{
    if calls.len() > 0 {
        let rest = calls.drop_last();
        let before = record_calls(g, caller, object, functions, rest);
        let callee = callee_symbol(object, functions, calls.last());
        lemma_targets_declared_rest(functions, calls);
        lemma_record_calls(g, caller, object, functions, rest);
        lemma_record_calls_keeps(g, caller, object, functions, rest, symbol);
        before.lemma_extends_keeps(g, caller);
        let interned = before.with_function(callee);
        before.lemma_with_function(callee);
        before.lemma_with_function_extends(callee);
        interned.lemma_extends_keeps(before, caller);
        lemma_intern_keeps(before, callee, symbol);
        let id = before.function_id(callee);
        interned.functions.index_of_first_ensures(callee);
        lemma_edge_keeps_calls(interned, caller, id, symbol);
        if not_among(object, functions, calls, symbol) {
            assert forall|c: int| 0 <= c < rest.len() implies callee_symbol(
                object,
                functions,
                #[trigger] rest[c],
            ) != symbol by {
                assert(rest[c] == calls[c]);
            }
        }
    }
}

/// A body leaves the calls and the counts of other functions as they
/// are, and adds its instructions to the count of its own.
pub proof fn lemma_merge_body_keeps(
    g: Graph,
    object: int,
    functions: Seq<Declared>,
    body: Body,
    symbol: Symbol,
)
    requires
        g.wf(),
        g.has_object(object),
        declared_interned(g, object, functions),
        0 <= body.function < functions.len(),
        0 <= body.instructions,
        targets_declared(functions, body.calls),
    ensures
        symbol_of(object, functions[body.function]) != symbol || body.calls.len() == 0
            ==> callees_of(merge_body(g, object, functions, body), symbol) == callees_of(g, symbol),
        not_among(object, functions, body.calls, symbol) ==> callers_of(
            merge_body(g, object, functions, body),
            symbol,
        ) == callers_of(g, symbol),
        instructions_of(merge_body(g, object, functions, body), symbol) == if symbol_of(
            object,
            functions[body.function],
        ) == symbol {
            capped_sum(instructions_of(g, symbol), body.instructions)
        } else {
            instructions_of(g, symbol)
        },
{
    let f = g.function_id(symbol_of(object, functions[body.function]));
    let counted = counted_body(g, object, functions, body);
    lemma_counted_body(g, object, functions, body);
    lemma_record_calls_keeps(counted, f, object, functions, body.calls, symbol);
    g.functions.index_of_first_ensures(symbol);
}

/// The bodies of a unit leave the calls of other functions as they are.
pub proof fn lemma_merge_bodies_keeps(
    g: Graph,
    object: int,
    functions: Seq<Declared>,
    bodies: Seq<Body>,
    symbol: Symbol,
)
    requires
        g.wf(),
        g.has_object(object),
        declared_interned(g, object, functions),
        bodies_in_range(functions, bodies),
    ensures
        calls_nothing(object, functions, bodies, symbol) ==> callees_of(
            merge_bodies(g, object, functions, bodies),
            symbol,
        ) == callees_of(g, symbol),
        never_called(object, functions, bodies, symbol) ==> callers_of(
            merge_bodies(g, object, functions, bodies),
            symbol,
        ) == callers_of(g, symbol),
    decreases bodies.len(),
{
    if bodies.len() > 0 {
        let rest = bodies.drop_last();
        let before = merge_bodies(g, object, functions, rest);
        lemma_bodies_in_range_rest(functions, bodies);
        lemma_merge_bodies(g, object, functions, rest);
        lemma_merge_bodies_keeps(g, object, functions, rest, symbol);
        lemma_declared_interned_extends(before, g, object, functions);
        assert(bodies.last() == bodies[bodies.len() - 1]);
        lemma_merge_body_keeps(before, object, functions, bodies.last(), symbol);
        if calls_nothing(object, functions, bodies, symbol) {
            assert forall|b: int|
                0 <= b < rest.len() && symbol_of(object, functions[(#[trigger] rest[b]).function])
                    == symbol implies rest[b].calls.len() == 0 by {
                assert(rest[b] == bodies[b]);
            }
        }
        if never_called(object, functions, bodies, symbol) {
            assert forall|b: int| 0 <= b < rest.len() implies not_among(
                object,
                functions,
                (#[trigger] rest[b]).calls,
                symbol,
            ) by {
                assert(rest[b] == bodies[b]);
            }
        }
    }
}

/// Interning the declared functions of a unit records no call and counts
/// no instruction.
pub proof fn lemma_intern_declared_keeps(
    g: Graph,
    object: int,
    functions: Seq<Declared>,
    symbol: Symbol,
)
    requires
        g.wf(),
        g.has_object(object),
    ensures
        callees_of(intern_declared(g, object, functions), symbol) == callees_of(g, symbol),
        callers_of(intern_declared(g, object, functions), symbol) == callers_of(g, symbol),
        instructions_of(intern_declared(g, object, functions), symbol) == instructions_of(
            g,
            symbol,
        ),
    decreases functions.len(),
{
    if functions.len() > 0 {
        let rest = functions.drop_last();
        let before = intern_declared(g, object, rest);
        lemma_intern_declared(g, object, rest);
        lemma_intern_declared_keeps(g, object, rest, symbol);
        lemma_intern_keeps(before, symbol_of(object, functions.last()), symbol);
    }
}

/// Folding a unit into the graph adds calls only where its text holds
/// them: a function none of whose bodies in the unit holds a call keeps
/// the callees it had, and a function that no call in the unit names
/// keeps the callers it had. In a graph that starts empty, a function
/// that calls nothing has no callees, and a function that is never
/// called has no callers.
pub proof fn law_calls_come_from_the_text(g: Graph, object: int, unit: Unit, symbol: Symbol)
    requires
        g.wf(),
        g.has_object(object),
        unit.wf(),
    ensures
        calls_nothing(object, unit.functions, unit.bodies, symbol) ==> callees_of(
            merge(g, object, unit),
            symbol,
        ) == callees_of(g, symbol),
        never_called(object, unit.functions, unit.bodies, symbol) ==> callers_of(
            merge(g, object, unit),
            symbol,
        ) == callers_of(g, symbol),
{
    let marked = g.mark_parsed(object);
    g.lemma_mark_parsed(object);
    let interned = intern_declared(marked, object, unit.functions);
    lemma_intern_declared(marked, object, unit.functions);
    lemma_intern_declared_keeps(marked, object, unit.functions, symbol);
    lemma_unit_bodies_in_range(unit);
    lemma_merge_bodies_keeps(interned, object, unit.functions, unit.bodies, symbol);
    assert(marked.functions == g.functions);
    assert(marked.callees == g.callees);
    assert(marked.callers == g.callers);
}

/// The instruction count of a function body is the number of lines that
/// are not directives, among the lines strictly between the label that
/// opens the body and the `.size` directive that closes it. The label is
/// that of the body's function; the closing line is the first `.size`
/// directive after the label, or the end of the text if there is none.
pub proof fn law_instruction_count(lines: Seq<Seq<char>>, b: int)
    requires
        0 <= b < unit_of(lines).bodies.len(),
    ensures
        ({
            let unit = unit_of(lines);
            let body = unit.bodies[b];
            &&& 0 <= body.function < unit.functions.len()
            &&& 0 <= body.label_line < body.end_line <= lines.len()
            &&& label_of(lines[body.label_line]) == Some(unit.functions[body.function].name)
            &&& body.end_line == lines.len() || is_size_directive(trim(lines[body.end_line]))
            &&& forall|k: int|
                body.label_line < k < body.end_line ==> !is_size_directive(
                    trim(#[trigger] lines[k]),
                )
            &&& body.instructions == count_instructions(
                lines,
                body.label_line + 1,
                body.end_line,
            )
        }),
{
    lemma_unit_of(lines);
    let body = unit_of(lines).bodies[b];
    assert(crate::scanner::body_matches(classify(lines), lines, body));
}

/// The instructions that the bodies of the function with this identity
/// hold together.
pub open spec fn counted_in(
    object: int,
    functions: Seq<Declared>,
    bodies: Seq<Body>,
    symbol: Symbol,
) -> int
    decreases bodies.len(),
{
    if bodies.len() == 0 {
        0
    } else {
        counted_in(object, functions, bodies.drop_last(), symbol) + if symbol_of(
            object,
            functions[bodies.last().function],
        ) == symbol {
            bodies.last().instructions
        } else {
            0
        }
    }
}

/// Sums that stop at the limit may be taken in one step or in two.
pub proof fn lemma_capped_sum_twice(a: int, x: int, y: int)
    requires
        0 <= a <= usize::MAX,
        0 <= x,
        0 <= y,
    ensures
        capped_sum(capped_sum(a, x), y) == capped_sum(a, x + y),
{
}

/// The bodies of a unit add their instructions to their functions.
pub proof fn lemma_merge_bodies_counts(
    g: Graph,
    object: int,
    functions: Seq<Declared>,
    bodies: Seq<Body>,
    symbol: Symbol,
)
    requires
        g.wf(),
        g.has_object(object),
        declared_interned(g, object, functions),
        bodies_in_range(functions, bodies),
    ensures
        0 <= counted_in(object, functions, bodies, symbol),
        instructions_of(merge_bodies(g, object, functions, bodies), symbol) == capped_sum(
            instructions_of(g, symbol),
            counted_in(object, functions, bodies, symbol),
        ),
    decreases bodies.len(),
{
    g.functions.index_of_first_ensures(symbol);
    if bodies.len() > 0 {
        let rest = bodies.drop_last();
        let body = bodies.last();
        let before = merge_bodies(g, object, functions, rest);
        lemma_bodies_in_range_rest(functions, bodies);
        lemma_merge_bodies(g, object, functions, rest);
        lemma_merge_bodies_counts(g, object, functions, rest, symbol);
        lemma_declared_interned_extends(before, g, object, functions);
        lemma_merge_body_keeps(before, object, functions, body, symbol);
        let own = symbol_of(object, functions[body.function]);
        lemma_capped_sum_twice(
            instructions_of(g, symbol),
            counted_in(object, functions, rest, symbol),
            if own == symbol {
                body.instructions
            } else {
                0
            },
        );
    }
}

/// Folding a unit into the graph adds to the count of each function the
/// instructions that its bodies in the unit hold, and nothing else; the
/// count stops at `usize::MAX`. A function that the graph did not know,
/// or knew without instructions, has afterwards the instructions of its
/// bodies in the unit.
pub proof fn law_counts_come_from_the_text(g: Graph, object: int, unit: Unit, symbol: Symbol)
    requires
        g.wf(),
        g.has_object(object),
        unit.wf(),
    ensures
        instructions_of(merge(g, object, unit), symbol) == capped_sum(
            instructions_of(g, symbol),
            counted_in(object, unit.functions, unit.bodies, symbol),
        ),
{
    let marked = g.mark_parsed(object);
    g.lemma_mark_parsed(object);
    let interned = intern_declared(marked, object, unit.functions);
    lemma_intern_declared(marked, object, unit.functions);
    lemma_intern_declared_keeps(marked, object, unit.functions, symbol);
    lemma_unit_bodies_in_range(unit);
    lemma_merge_bodies_counts(interned, object, unit.functions, unit.bodies, symbol);
    assert(marked.functions == g.functions);
    assert(marked.instructions == g.instructions);
}

/// The number of objects that have been parsed.
pub open spec fn parsed_count(parsed: Seq<bool>) -> nat
    decreases parsed.len(),
{
    if parsed.len() == 0 {
        0
    } else {
        parsed_count(parsed.drop_last()) + if parsed.last() {
            1nat
        } else {
            0nat
        }
    }
}

/// Every object in the list has been parsed.
pub open spec fn all_parsed(parsed: Seq<bool>, list: Seq<int>) -> bool {
    forall|k: int| 0 <= k < list.len() ==> 0 <= #[trigger] list[k] < parsed.len() && parsed[list[k]]
}

/// Every object that has been parsed is in the list.
pub open spec fn holds_all_parsed(parsed: Seq<bool>, list: Seq<int>) -> bool {
    forall|o: int| 0 <= o < parsed.len() && parsed[o] ==> #[trigger] list.contains(o)
}

/// A list of parsed objects without repeats is at most as long as the
/// number of parsed objects, and exactly as long if it holds them all.
pub proof fn lemma_parsed_objects_counted(parsed: Seq<bool>, list: Seq<int>)
    requires
        list.no_duplicates(),
        all_parsed(parsed, list),
    ensures
        list.len() <= parsed_count(parsed),
        list.len() == parsed_count(parsed) <==> holds_all_parsed(parsed, list),
    decreases parsed.len(),
{
    if parsed.len() == 0 {
        if list.len() > 0 {
            assert(0 <= list[0] < parsed.len());
        }
    } else {
        let last = parsed.len() - 1;
        let rest = parsed.drop_last();
        if list.contains(last) {
            let at = choose|at: int| 0 <= at < list.len() && list[at] == last;
            let others = list.remove(at);
            assert forall|k: int| 0 <= k < others.len() implies 0 <= #[trigger] others[k]
                < rest.len() && rest[others[k]] by {
                let j = if k < at {
                    k
                } else {
                    k + 1
                };
                assert(others[k] == list[j]);
                assert(list[j] != list[at]);
            }
            assert forall|i: int, j: int|
                0 <= i < others.len() && 0 <= j < others.len() && i != j implies others[i]
                != others[j] by {
                let a = if i < at {
                    i
                } else {
                    i + 1
                };
                let b = if j < at {
                    j
                } else {
                    j + 1
                };
                assert(others[i] == list[a] && others[j] == list[b]);
            }
            lemma_parsed_objects_counted(rest, others);
            if holds_all_parsed(rest, others) {
                assert forall|o: int| 0 <= o < parsed.len() && parsed[o] implies #[trigger] list.contains(
                    o,
                ) by {
                    if o < last {
                        assert(rest[o] == parsed[o]);
                        assert(others.contains(o));
                        let k = choose|k: int| 0 <= k < others.len() && others[k] == o;
                        let j = if k < at {
                            k
                        } else {
                            k + 1
                        };
                        assert(list[j] == o);
                    }
                }
            }
            if holds_all_parsed(parsed, list) {
                assert forall|o: int| 0 <= o < rest.len() && rest[o] implies #[trigger] others.contains(
                    o,
                ) by {
                    assert(rest[o] == parsed[o]);
                    assert(list.contains(o));
                    let j = choose|j: int| 0 <= j < list.len() && list[j] == o;
                    let k = if j < at {
                        j
                    } else {
                        j - 1
                    };
                    assert(others[k] == o);
                }
            }
        } else {
            assert forall|k: int| 0 <= k < list.len() implies 0 <= #[trigger] list[k] < rest.len()
                && rest[list[k]] by {
                assert(list.contains(list[k]));
            }
            lemma_parsed_objects_counted(rest, list);
            if holds_all_parsed(rest, list) && !parsed[last] {
                assert forall|o: int| 0 <= o < parsed.len() && parsed[o] implies #[trigger] list.contains(
                    o,
                ) by {
                    assert(rest[o] == parsed[o]);
                    assert(list.contains(o));
                }
            }
            if holds_all_parsed(parsed, list) {
                if parsed[last] {
                    assert(list.contains(last));
                }
                assert forall|o: int| 0 <= o < rest.len() && rest[o] implies #[trigger] list.contains(
                    o,
                ) by {
                    assert(rest[o] == parsed[o]);
                    assert(list.contains(o));
                }
            }
        }
    }
}

/// A function is present in all analyzed objects exactly if instructions
/// have been counted for it, it is defined in parsed objects only, and the
/// number of objects that define it is the number of objects that have
/// been parsed, and not zero.
pub proof fn law_presence_compares_counts(g: Graph, f: int)
    requires
        g.wf(),
        g.has_function(f),
    ensures
        present_in_all(g, f) <==> g.instructions[f] > 0 && all_parsed(g.parsed, g.defined_in[f])
            && g.defined_in[f].len() == parsed_count(g.parsed) && parsed_count(g.parsed) > 0,
{
    if all_parsed(g.parsed, g.defined_in[f]) {
        lemma_parsed_objects_counted(g.parsed, g.defined_in[f]);
    }
}

/// Parsing is repeatable: the graph after a parse is determined by the
/// graph before, the object's path and the text. Two knowledge bases that
/// hold the same graph hold the same graph again when each has parsed the
/// same text for the same path, with the same identifiers, calls and
/// counts; and that graph is well formed and extends the one before.
pub proof fn law_parse_is_repeatable(
    first: Graph,
    second: Graph,
    path: Seq<char>,
    text: Seq<char>,
)
    requires
        first.wf(),
        first == second,
    ensures
        parse_into(first, path, text) == parse_into(second, path, text),
        parse_into(first, path, text).wf(),
        parse_into(first, path, text).extends(first.with_object(path)),
{
    first.lemma_with_object(path);
    lemma_unit_of(crate::text::split_lines(text));
    lemma_merge(
        first.with_object(path),
        first.object_id(path),
        unit_of(crate::text::split_lines(text)),
    );
}

} // verus!
