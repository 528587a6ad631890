//! Second pass over a translation unit: the bodies of its functions, with
//! their instruction counts and the symbols they call.
use crate::classifier::{classify, classify_lines, lemma_classify_wf, Classes, Classification};
use crate::directive::{
    call_operand, call_operand_span, is_call, is_call_at, is_directive, is_directive_at,
    is_size_directive, is_size_directive_at, label_of, label_span, Keywords, LinkType,
};
use crate::text::{chars_of, line_spans, spans_of, spans_within, split_lines, string_of, trim, trim_span, Span};
use vstd::prelude::*;

verus! {

/// The callee of a direct call.
pub enum Target {
    /// The function declared in the same unit at this position.
    Declared(int),
    /// A symbol that the unit does not declare as a function.
    External(Seq<char>),
}

/// One function body: from its label to the `.size` directive that closes
/// it, or to the end of the text.
pub struct Body {
    /// Position of the function among the declared functions.
    pub function: int,
    /// Index of the line that holds the label.
    pub label_line: int,
    /// Index of the closing line, or the number of lines if none closes it.
    pub end_line: int,
    /// Number of lines in the body that are not directives.
    pub instructions: int,
    /// The callees of the body's direct calls, in text order, with repeats.
    pub calls: Seq<Target>,
}

/// A function that a unit declares.
pub struct Declared {
    pub name: Seq<char>,
    pub linkage: LinkType,
}

/// What one translation unit contributes to the call graph.
pub struct Unit {
    pub functions: Seq<Declared>,
    pub bodies: Seq<Body>,
}

impl Unit {
    /// Names are distinct, and bodies and calls refer to declared functions.
    pub open spec fn wf(self) -> bool {
        &&& forall|i: int, j: int|
            0 <= i < j < self.functions.len() ==> (#[trigger] self.functions[i]).name != (
            #[trigger] self.functions[j]).name
        &&& forall|b: int|
            0 <= b < self.bodies.len() ==> 0 <= (#[trigger] self.bodies[b]).function
                < self.functions.len() && 0 <= self.bodies[b].instructions
        &&& forall|b: int, c: int|
            0 <= b < self.bodies.len() && 0 <= c < self.bodies[b].calls.len() ==> match (
            #[trigger] self.bodies[b].calls[c]) {
                Target::Declared(p) => 0 <= p < self.functions.len(),
                Target::External(_) => true,
            }
    }
}

/// The callee that a call operand denotes: aliases are replaced by their
/// target first; a declared function is then found by its position.
pub open spec fn target_of(classes: Classes, name: Seq<char>) -> Target {
    let resolved = classes.resolve(name);
    match classes.position(resolved) {
        Some(p) => Target::Declared(p),
        None => Target::External(resolved),
    }
}

/// The scanner's state between two lines.
pub struct Scan {
    /// The bodies seen so far; the last one is still growing while `open`.
    pub bodies: Seq<Body>,
    /// Whether a function body is open.
    pub open: bool,
    /// Index of the first `call` line met outside any function body.
    pub stray: Option<int>,
}

impl Scan {
    pub open spec fn start() -> Scan {
        Scan { bodies: Seq::empty(), open: false, stray: None }
    }

    /// Replaces the body that is open.
    pub open spec fn with_last(self, body: Body) -> Scan {
        Scan { bodies: self.bodies.update(self.bodies.len() - 1, body), ..self }
    }

    /// The state after the line with index `k`.
    pub open spec fn step(self, classes: Classes, line: Seq<char>, k: int) -> Scan {
        let t = trim(line);
        if self.open && self.bodies.len() > 0 {
            let cur = self.bodies.last();
            if is_size_directive(t) {
                Scan { open: false, ..self.with_last(Body { end_line: k, ..cur }) }
            } else if is_directive(t) {
                self.with_last(Body { end_line: k + 1, ..cur })
            } else {
                let calls = match call_operand(t) {
                    Some(name) => cur.calls.push(target_of(classes, name)),
                    None => cur.calls,
                };
                self.with_last(
                    Body { end_line: k + 1, instructions: cur.instructions + 1, calls, ..cur },
                )
            }
        } else {
            let opened = match label_of(line) {
                Some(name) => classes.position(name),
                None => None,
            };
            match opened {
                Some(p) => Scan {
                    bodies: self.bodies.push(
                        Body {
                            function: p,
                            label_line: k,
                            end_line: k + 1,
                            instructions: 0,
                            calls: Seq::empty(),
                        },
                    ),
                    open: true,
                    ..self
                },
                None => if is_call(t) && self.stray is None {
                    Scan { stray: Some(k), ..self }
                } else {
                    self
                },
            }
        }
    }
}

/// The scanner's state after the first `n` lines.
pub open spec fn scan(classes: Classes, lines: Seq<Seq<char>>, n: int) -> Scan
    decreases n,
{
    if n <= 0 || n > lines.len() {
        Scan::start()
    } else {
        scan(classes, lines, n - 1).step(classes, lines[n - 1], n - 1)
    }
}

/// Index of the first `call` line that stands outside every function body.
pub open spec fn stray_call(lines: Seq<Seq<char>>) -> Option<int> {
    scan(classify(lines), lines, lines.len() as int).stray
}

/// The declared functions of a classification, with their linkage.
pub open spec fn declared_of(classes: Classes) -> Seq<Declared> {
    Seq::new(
        classes.functions.len(),
        |i: int| Declared { name: classes.functions[i], linkage: classes.linkage_of(classes.functions[i]) },
    )
}

/// What the lines of a translation unit contribute to the call graph.
pub open spec fn unit_of(lines: Seq<Seq<char>>) -> Unit {
    let classes = classify(lines);
    Unit {
        functions: declared_of(classes),
        bodies: scan(classes, lines, lines.len() as int).bodies,
    }
}

/// Number of lines with an index in `from..to` that are not directives.
pub open spec fn count_instructions(lines: Seq<Seq<char>>, from: int, to: int) -> int
    decreases to - from,
{
    if from >= to {
        0
    } else {
        count_instructions(lines, from, to - 1) + if is_directive(trim(lines[to - 1])) {
            0int
        } else {
            1int
        }
    }
}

/// The callees that the lines with an index in `from..to` call directly:
/// one for each line that is no directive and whose call operand names a
/// symbol, in text order.
pub open spec fn calls_in(classes: Classes, lines: Seq<Seq<char>>, from: int, to: int) -> Seq<
    Target,
>
    decreases to - from,
{
    if from >= to {
        Seq::empty()
    } else {
        let before = calls_in(classes, lines, from, to - 1);
        let t = trim(lines[to - 1]);
        match call_operand(t) {
            Some(name) => if is_directive(t) {
                before
            } else {
                before.push(target_of(classes, name))
            },
            None => before,
        }
    }
}

/// What holds of a body in terms of the lines alone: where it starts and
/// ends, and that its count and its calls are those of the lines between.
pub open spec fn body_matches(classes: Classes, lines: Seq<Seq<char>>, body: Body) -> bool {
    &&& 0 <= body.function < classes.functions.len()
    &&& 0 <= body.label_line < body.end_line <= lines.len()
    &&& label_of(lines[body.label_line]) == Some(classes.functions[body.function])
    &&& forall|k: int|
        body.label_line < k < body.end_line ==> !is_size_directive(trim(#[trigger] lines[k]))
    &&& body.instructions == count_instructions(lines, body.label_line + 1, body.end_line)
    &&& body.calls == calls_in(classes, lines, body.label_line + 1, body.end_line)
}

/// A body is closed by the `.size` line at `end_line`.
pub open spec fn body_closed(lines: Seq<Seq<char>>, body: Body) -> bool {
    body.end_line < lines.len() && is_size_directive(trim(lines[body.end_line]))
}

/// What holds of the scanner's state after `n` lines.
pub open spec fn scan_inv(classes: Classes, lines: Seq<Seq<char>>, n: int) -> bool {
    let st = scan(classes, lines, n);
    &&& st.open ==> st.bodies.len() > 0 && st.bodies.last().end_line == n
    &&& forall|b: int|
        0 <= b < st.bodies.len() ==> body_matches(classes, lines, #[trigger] st.bodies[b])
            && st.bodies[b].end_line <= n
    &&& forall|b: int|
        0 <= b < st.bodies.len() && (b < st.bodies.len() - 1 || !st.open) ==> body_closed(
            lines,
            #[trigger] st.bodies[b],
        ) && st.bodies[b].end_line < n
    &&& forall|a: int, b: int|
        0 <= a < b < st.bodies.len() ==> (#[trigger] st.bodies[a]).end_line < (
        #[trigger] st.bodies[b]).label_line
    &&& match st.stray {
        Some(k) => 0 <= k < n && is_call(trim(lines[k])),
        None => true,
    }
}

/// A range of lines holds at most as many instructions as lines.
pub proof fn lemma_count_instructions_bounds(lines: Seq<Seq<char>>, from: int, to: int)
    ensures
        0 <= count_instructions(lines, from, to),
        from <= to ==> count_instructions(lines, from, to) <= to - from,
    decreases to - from,
{
    if from < to {
        lemma_count_instructions_bounds(lines, from, to - 1);
    }
}

/// The callees of a range of lines are declared functions by position or
/// symbols that are not declared.
pub proof fn lemma_calls_in_range(classes: Classes, lines: Seq<Seq<char>>, from: int, to: int)
    requires
        classes.wf(),
    ensures
        forall|c: int|
            0 <= c < calls_in(classes, lines, from, to).len() ==> match (#[trigger] calls_in(
                classes,
                lines,
                from,
                to,
            )[c]) {
                Target::Declared(p) => 0 <= p < classes.functions.len(),
                Target::External(name) => !classes.functions.contains(name),
            },
    decreases to - from,
{
    if from < to {
        lemma_calls_in_range(classes, lines, from, to - 1);
        let t = trim(lines[to - 1]);
        if let Some(name) = call_operand(t) {
            classes.functions.index_of_first_ensures(classes.resolve(name));
        }
    }
}

/// The scanner's state is always described by `scan_inv`.
pub proof fn lemma_scan_inv(classes: Classes, lines: Seq<Seq<char>>, n: int)
    requires
        classes.wf(),
        0 <= n <= lines.len(),
    ensures
        scan_inv(classes, lines, n),
    decreases n,
{
    if n > 0 {
        lemma_scan_inv(classes, lines, n - 1);
        let k = n - 1;
        let before = scan(classes, lines, k);
        let after = scan(classes, lines, n);
        let line = lines[k];
        let t = trim(line);
        assert(after == before.step(classes, line, k));
        if before.open {
            let last = before.bodies.len() - 1;
            let cur = before.bodies[last];
            assert(body_matches(classes, lines, cur));
            assert forall|b: int| 0 <= b < after.bodies.len() implies body_matches(
                classes,
                lines,
                #[trigger] after.bodies[b],
            ) && after.bodies[b].end_line <= n by {
                if b < last {
                    assert(after.bodies[b] == before.bodies[b]);
                }
            }
            assert forall|b: int|
                0 <= b < after.bodies.len() && (b < after.bodies.len() - 1
                    || !after.open) implies body_closed(lines, #[trigger] after.bodies[b])
                && after.bodies[b].end_line < n by {
                if b < last {
                    assert(after.bodies[b] == before.bodies[b]);
                }
            }
            assert forall|a: int, b: int| 0 <= a < b < after.bodies.len() implies (
            #[trigger] after.bodies[a]).end_line < (#[trigger] after.bodies[b]).label_line by {
                assert(after.bodies[a] == before.bodies[a]);
                assert(after.bodies[b].label_line == before.bodies[b].label_line);
            }
        } else {
            let opened = match label_of(line) {
                Some(name) => classes.position(name),
                None => None,
            };
            if let Some(p) = opened {
                let name = label_of(line)->0;
                classes.functions.index_of_first_ensures(name);
                let last = before.bodies.len() as int;
                assert forall|b: int| 0 <= b < after.bodies.len() implies body_matches(
                    classes,
                    lines,
                    #[trigger] after.bodies[b],
                ) && after.bodies[b].end_line <= n by {
                    if b < last {
                        assert(after.bodies[b] == before.bodies[b]);
                    }
                }
                assert forall|b: int|
                    0 <= b < after.bodies.len() && (b < after.bodies.len() - 1
                        || !after.open) implies body_closed(lines, #[trigger] after.bodies[b])
                    && after.bodies[b].end_line < n by {
                    assert(after.bodies[b] == before.bodies[b]);
                }
                assert forall|a: int, b: int| 0 <= a < b < after.bodies.len() implies (
                #[trigger] after.bodies[a]).end_line < (#[trigger] after.bodies[b]).label_line by {
                    assert(after.bodies[a] == before.bodies[a]);
                    if b < last {
                        assert(after.bodies[b] == before.bodies[b]);
                    }
                }
            }
        }
    }
}

/// The `call` line that made a scan fail.
#[derive(Debug, Clone, PartialEq, Eq)]
pub struct StrayCall {
    /// Number of the line in the text, counted from one.
    pub line_number: usize,
    /// The line as it stands in the text.
    pub line: String,
}

/// The callee of a direct call.
#[derive(Debug, Clone, PartialEq, Eq)]
pub enum CallTarget {
    /// The function declared in the same unit at this position.
    Declared(usize),
    /// A symbol that the unit does not declare as a function.
    External(String),
}

impl View for CallTarget {
    type V = Target;

    open spec fn view(&self) -> Target {
        match self {
            CallTarget::Declared(p) => Target::Declared(*p as int),
            CallTarget::External(name) => Target::External(name@),
        }
    }
}

/// One function body of a translation unit.
#[derive(Debug, Clone, PartialEq, Eq)]
pub struct FunctionBody {
    pub function: usize,
    pub label_line: usize,
    pub end_line: usize,
    pub instructions: usize,
    pub calls: Vec<CallTarget>,
}

impl View for FunctionBody {
    type V = Body;

    open spec fn view(&self) -> Body {
        Body {
            function: self.function as int,
            label_line: self.label_line as int,
            end_line: self.end_line as int,
            instructions: self.instructions as int,
            calls: self.calls@.map_values(|c: CallTarget| c@),
        }
    }
}

/// A function that a translation unit declares.
#[derive(Debug, Clone, PartialEq, Eq)]
pub struct DeclaredFunction {
    pub name: String,
    pub linkage: LinkType,
}

impl View for DeclaredFunction {
    type V = Declared;

    open spec fn view(&self) -> Declared {
        Declared { name: self.name@, linkage: self.linkage }
    }
}

/// What one translation unit contributes to the call graph. A summary is
/// always well formed: its bodies and calls refer to functions it declares.
#[derive(Debug, PartialEq, Eq)]
pub struct UnitSummary {
    functions: Vec<DeclaredFunction>,
    bodies: Vec<FunctionBody>,
}

impl View for UnitSummary {
    type V = Unit;

    closed spec fn view(&self) -> Unit {
        Unit {
            functions: self.functions@.map_values(|d: DeclaredFunction| d@),
            bodies: self.bodies@.map_values(|b: FunctionBody| b@),
        }
    }
}

impl UnitSummary {
    #[verifier::type_invariant]
    spec fn valid(&self) -> bool {
        self@.wf()
    }

    /// The functions that the unit declares, in the order of declaration.
    pub fn functions(&self) -> (out: &Vec<DeclaredFunction>)
        ensures
            self@.wf(),
            out@.map_values(|d: DeclaredFunction| d@) == self@.functions,
    {
        proof {
            use_type_invariant(self);
        }
        &self.functions
    }

    /// The function bodies of the unit, in text order.
    pub fn bodies(&self) -> (out: &Vec<FunctionBody>)
        ensures
            self@.wf(),
            out@.map_values(|b: FunctionBody| b@) == self@.bodies,
    {
        proof {
            use_type_invariant(self);
        }
        &self.bodies
    }
}

/// Once a stray call has been met, later lines do not change which one
/// was first.
pub proof fn lemma_stray_stable(classes: Classes, lines: Seq<Seq<char>>, n: int, m: int)
    requires
        0 <= n <= m <= lines.len(),
        scan(classes, lines, n).stray is Some,
    ensures
        scan(classes, lines, m).stray == scan(classes, lines, n).stray,
    decreases m - n,
{
    if n < m {
        lemma_stray_stable(classes, lines, n, m - 1);
    }
}

/// Finds the callee that a call operand denotes.
fn resolve_target(classes: &Classification, name: String) -> (target: CallTarget)
    requires
        classes.wf(),
    ensures
        target@ == target_of(classes@, name@),
{
    let resolved = match classes.alias_of(name.as_str()) {
        Some(t) => t.clone(),
        None => name,
    };
    match classes.position(resolved.as_str()) {
        Some(p) => CallTarget::Declared(p),
        None => CallTarget::External(resolved),
    }
}

/// Finds the declared function whose body the line opens, if it opens one.
fn opened_by(text: &Vec<char>, line: Span, classes: &Classification) -> (at: Option<usize>)
    requires
        line.within(text@),
        classes.wf(),
    ensures
        match at {
            Some(p) => match label_of(line.of(text@)) {
                Some(name) => classes@.position(name) == Some(p as int),
                None => false,
            },
            None => match label_of(line.of(text@)) {
                Some(name) => classes@.position(name) is None,
                None => true,
            },
        },
{
    match label_span(text, line) {
        Some(name) => {
            let name = string_of(text, name);
            classes.position(name.as_str())
        },
        None => None,
    }
}

/// The bodies seen, the last of them still growing if `open` is set.
pub open spec fn bodies_so_far(done: Seq<FunctionBody>, open: bool, cur: Body) -> Seq<Body> {
    let closed = done.map_values(|b: FunctionBody| b@);
    if open {
        closed.push(cur)
    } else {
        closed
    }
}

/// Walks the lines and collects the function bodies. Fails with the index
/// of the first `call` line that stands outside every body.
pub(crate) fn scan_bodies(
    text: &Vec<char>,
    lines: &Vec<Span>,
    classes: &Classification,
    kw: &Keywords,
) -> (out: Result<Vec<FunctionBody>, usize>)
    requires
        spans_within(text@, lines@),
        classes.wf(),
        kw.wf(),
    ensures
        match out {
            Ok(bodies) => {
                let end = scan(classes@, spans_of(text@, lines@), lines.len() as int);
                end.stray is None && bodies@.map_values(|b: FunctionBody| b@) == end.bodies
            },
            Err(k) => k < lines.len() && scan(
                classes@,
                spans_of(text@, lines@),
                lines.len() as int,
            ).stray == Some(k as int),
        },
{
    let ghost all = spans_of(text@, lines@);
    let mut done: Vec<FunctionBody> = Vec::new();
    let mut open = false;
    let mut function: usize = 0;
    let mut label_line: usize = 0;
    let mut instructions: usize = 0;
    let mut calls: Vec<CallTarget> = Vec::new();
    let mut i: usize = 0;
    proof {
        assert(done@.map_values(|b: FunctionBody| b@) =~= Seq::empty());
    }
    while i < lines.len()
        invariant
            i <= lines.len(),
            spans_within(text@, lines@),
            classes.wf(),
            kw.wf(),
            all == spans_of(text@, lines@),
            scan(classes@, all, i as int).stray is None,
            scan(classes@, all, i as int).open == open,
            instructions <= i,
            !open ==> calls@.len() == 0,
            scan(classes@, all, i as int).bodies == bodies_so_far(
                done@,
                open,
                Body {
                    function: function as int,
                    label_line: label_line as int,
                    end_line: i as int,
                    instructions: instructions as int,
                    calls: calls@.map_values(|c: CallTarget| c@),
                },
            ),
        decreases lines.len() - i,
    {
        let line = lines[i];
        let t = trim_span(text, line);
        let ghost before = scan(classes@, all, i as int);
        let ghost closed = done@.map_values(|b: FunctionBody| b@);
        let ghost old_calls = calls@.map_values(|c: CallTarget| c@);
        proof {
            assert(all[i as int] == line.of(text@));
            assert(scan(classes@, all, i + 1) == before.step(classes@, all[i as int], i as int));
        }
        if open {
            if is_size_directive_at(text, t, kw) {
                let body = FunctionBody { function, label_line, end_line: i, instructions, calls };
                done.push(body);
                calls = Vec::new();
                open = false;
                proof {
                    assert(done@.map_values(|b: FunctionBody| b@) =~= closed.push(body@));
                    assert(before.bodies.update(before.bodies.len() - 1, body@) =~= closed.push(
                        body@,
                    ));
                }
            } else if is_directive_at(text, t) {
                proof {
                    let cur = before.bodies.last();
                    assert(before.bodies.update(
                        before.bodies.len() - 1,
                        Body { end_line: i + 1, ..cur },
                    ) =~= closed.push(Body { end_line: i + 1, ..cur }));
                }
            } else {
                instructions += 1;
                if let Some(name) = call_operand_span(text, t, kw) {
                    let name = string_of(text, name);
                    let target = resolve_target(classes, name);
                    calls.push(target);
                    proof {
                        assert(calls@.map_values(|c: CallTarget| c@) =~= old_calls.push(target@));
                    }
                }
                proof {
                    let cur = before.bodies.last();
                    let grown = Body {
                        end_line: i + 1,
                        instructions: cur.instructions + 1,
                        calls: calls@.map_values(|c: CallTarget| c@),
                        ..cur
                    };
                    assert(before.bodies.update(before.bodies.len() - 1, grown) =~= closed.push(
                        grown,
                    ));
                }
            }
        } else {
            match opened_by(text, line, classes) {
                Some(p) => {
                    open = true;
                    function = p;
                    label_line = i;
                    instructions = 0;
                    proof {
                        assert(calls@.map_values(|c: CallTarget| c@) =~= Seq::empty());
                    }
                },
                None => {
                    if is_call_at(text, t, kw) {
                        proof {
                            lemma_stray_stable(classes@, all, i + 1, lines.len() as int);
                        }
                        return Err(i);
                    }
                },
            }
        }
        i += 1;
    }
    if open {
        let body = FunctionBody { function, label_line, end_line: i, instructions, calls };
        proof {
            assert(done@.push(body).map_values(|b: FunctionBody| b@) =~= done@.map_values(
                |b: FunctionBody| b@,
            ).push(body@));
        }
        done.push(body);
    }
    Ok(done)
}

/// Lists the declared functions of a classification with their linkage.
fn declared_functions(classes: &Classification) -> (out: Vec<DeclaredFunction>)
    requires
        classes.wf(),
    ensures
        out@.map_values(|d: DeclaredFunction| d@) == declared_of(classes@),
{
    let mut out: Vec<DeclaredFunction> = Vec::new();
    let n = classes.len();
    let mut i: usize = 0;
    while i < n
        invariant
            i <= n,
            n == classes@.functions.len(),
            out@.len() == i,
            forall|k: int| 0 <= k < i ==> (#[trigger] out@[k])@ == declared_of(classes@)[k],
        decreases n - i,
    {
        if let Some(name) = classes.function(i) {
            let name = name.clone();
            let linkage = classes.linkage_of(name.as_str());
            out.push(DeclaredFunction { name, linkage });
        }
        i += 1;
    }
    proof {
        assert(out@.map_values(|d: DeclaredFunction| d@) =~= declared_of(classes@));
    }
    out
}

/// The unit of a text is well formed, and each of its bodies is described
/// by the lines it spans: it starts at the label of its function and ends
/// at the first `.size` directive after that, or at the end of the text;
/// its instruction count is the number of lines strictly between the two
/// that are not directives, and its calls are those of these lines. Bodies
/// follow each other in the text without overlap.
pub proof fn lemma_unit_of(lines: Seq<Seq<char>>)
    ensures
        unit_of(lines).wf(),
        forall|b: int|
            0 <= b < unit_of(lines).bodies.len() ==> body_matches(
                classify(lines),
                lines,
                #[trigger] unit_of(lines).bodies[b],
            ),
        forall|b: int|
            0 <= b < unit_of(lines).bodies.len() ==> (#[trigger] unit_of(lines).bodies[b]).end_line
                == lines.len() || body_closed(lines, unit_of(lines).bodies[b]),
        forall|a: int, b: int|
            0 <= a < b < unit_of(lines).bodies.len() ==> (
            #[trigger] unit_of(lines).bodies[a]).end_line < (
            #[trigger] unit_of(lines).bodies[b]).label_line,
{
    let classes = classify(lines);
    let unit = unit_of(lines);
    lemma_classify_wf(lines);
    lemma_scan_inv(classes, lines, lines.len() as int);
    assert forall|b: int, c: int|
        0 <= b < unit.bodies.len() && 0 <= c < unit.bodies[b].calls.len() implies match (
    #[trigger] unit.bodies[b].calls[c]) {
        Target::Declared(p) => 0 <= p < unit.functions.len(),
        Target::External(_) => true,
    } by {
        let body = unit.bodies[b];
        assert(body_matches(classes, lines, body));
        lemma_calls_in_range(classes, lines, body.label_line + 1, body.end_line);
    }
    assert forall|b: int| 0 <= b < unit.bodies.len() implies 0 <= (
    #[trigger] unit.bodies[b]).function < unit.functions.len() && 0
        <= unit.bodies[b].instructions by {
        let body = unit.bodies[b];
        assert(body_matches(classes, lines, body));
        lemma_count_instructions_bounds(lines, body.label_line + 1, body.end_line);
    }
}

/// Reads one translation unit's assembly text and reports what it
/// contributes to the call graph: the functions it declares and the bodies
/// it defines. Fails on the first `call` line outside any function body.
pub fn scan_unit(assembly: &str) -> (out: Result<UnitSummary, StrayCall>)
    ensures
        match out {
            Ok(unit) => stray_call(split_lines(assembly@)) is None && unit@ == unit_of(
                split_lines(assembly@),
            ) && unit@.wf(),
            Err(e) => 1 <= e.line_number <= split_lines(assembly@).len() && stray_call(
                split_lines(assembly@),
            ) == Some(e.line_number - 1) && e.line@ == split_lines(assembly@)[e.line_number - 1],
        },
{
    let text = chars_of(assembly);
    let lines = line_spans(&text);
    let kw = Keywords::new();
    let classes = classify_lines(&text, &lines, &kw);
    proof {
        lemma_unit_of(split_lines(assembly@));
    }
    match scan_bodies(&text, &lines, &classes, &kw) {
        Ok(bodies) => Ok(UnitSummary { functions: declared_functions(&classes), bodies }),
        Err(k) => Err(StrayCall { line_number: k + 1, line: string_of(&text, lines[k]) }),
    }
}

} // verus!
