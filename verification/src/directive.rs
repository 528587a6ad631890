//! Recognition of the assembler directives and instructions that matter for
//! the call graph. Every recognizer works on a line that has already been
//! trimmed of surrounding whitespace.
use crate::text::{
    chars_of, ends_with, find_char, is_space, is_whitespace, starts_with, trim_end, trim_end_span,
    trim_start, trim_start_span, Span,
};
use vstd::prelude::*;

verus! {

/// Visibility of a symbol across translation units.
#[derive(Clone, Copy, Debug, PartialEq, Eq, Structural)]
pub enum LinkType {
    Local,
    Weak,
    Global,
}

/// The keywords and decorations of the assembly dialect, as characters.
pub struct Keywords {
    pub type_kw: Vec<char>,
    pub weak_kw: Vec<char>,
    pub globl_kw: Vec<char>,
    pub set_kw: Vec<char>,
    pub size_kw: Vec<char>,
    pub call_kw: Vec<char>,
    pub function_tag: Vec<char>,
    pub plt_tag: Vec<char>,
    pub indirect_mark: Vec<char>,
}

impl Keywords {
    /// Every field holds the text that the dialect prescribes.
    pub open spec fn wf(&self) -> bool {
        &&& self.type_kw@ == ".type"@
        &&& self.weak_kw@ == ".weak"@
        &&& self.globl_kw@ == ".globl"@
        &&& self.set_kw@ == ".set"@
        &&& self.size_kw@ == ".size"@
        &&& self.call_kw@ == "call"@
        &&& self.function_tag@ == "@function"@
        &&& self.plt_tag@ == "@PLT"@
        &&& self.indirect_mark@ == "*%"@
    }

    pub fn new() -> (kw: Keywords)
        ensures
            kw.wf(),
    {
        Keywords {
            type_kw: chars_of(".type"),
            weak_kw: chars_of(".weak"),
            globl_kw: chars_of(".globl"),
            set_kw: chars_of(".set"),
            size_kw: chars_of(".size"),
            call_kw: chars_of("call"),
            function_tag: chars_of("@function"),
            plt_tag: chars_of("@PLT"),
            indirect_mark: chars_of("*%"),
        }
    }
}

/// What follows `keyword` on a line that starts with it: the keyword must be
/// followed by whitespace, and the operand begins at the next character that
/// is not whitespace.
pub open spec fn operand(line: Seq<char>, keyword: Seq<char>) -> Option<Seq<char>> {
    if keyword.is_prefix_of(line) && keyword.len() < line.len() && is_space(
        line[keyword.len() as int],
    ) {
        Some(trim_start(line.skip(keyword.len() as int)))
    } else {
        None
    }
}

/// A name is usable when it is not empty.
pub open spec fn named(name: Seq<char>) -> Option<Seq<char>> {
    if name.len() > 0 {
        Some(name)
    } else {
        None
    }
}

/// The symbol that a `.type <name>, @function` line declares as a function.
pub open spec fn type_directive(line: Seq<char>) -> Option<Seq<char>> {
    match operand(line, ".type"@) {
        Some(arg) => {
            if "@function"@.is_suffix_of(arg) {
                let head = trim_end(arg.take(arg.len() - "@function"@.len()));
                if head.len() > 0 && head.last() == ',' {
                    named(trim_end(head.drop_last()))
                } else {
                    None
                }
            } else {
                None
            }
        },
        None => None,
    }
}

/// The symbol that a `.weak <name>` line marks as weak.
pub open spec fn weak_directive(line: Seq<char>) -> Option<Seq<char>> {
    match operand(line, ".weak"@) {
        Some(arg) => named(arg),
        None => None,
    }
}

/// The symbol that a `.globl <name>` line marks as global.
pub open spec fn globl_directive(line: Seq<char>) -> Option<Seq<char>> {
    match operand(line, ".globl"@) {
        Some(arg) => named(arg),
        None => None,
    }
}

/// The pair (alias, target) that a `.set <alias>, <target>` line declares.
/// The operand is cut at its first comma; a line with an empty side, or with
/// a further comma in the target, declares nothing.
pub open spec fn set_directive(line: Seq<char>) -> Option<(Seq<char>, Seq<char>)> {
    match operand(line, ".set"@) {
        Some(arg) => match arg.index_of_first(',') {
            Some(comma) => {
                let alias = trim_end(arg.take(comma));
                let target = trim_start(arg.skip(comma + 1));
                if alias.len() > 0 && target.len() > 0 && !target.contains(',') {
                    Some((alias, target))
                } else {
                    None
                }
            },
            None => None,
        },
        None => None,
    }
}

/// Whether the line is a `.size` directive, which closes a function body.
pub open spec fn is_size_directive(line: Seq<char>) -> bool {
    operand(line, ".size"@) is Some
}

/// Whether the line is a directive of any kind.
pub open spec fn is_directive(line: Seq<char>) -> bool {
    line.len() > 0 && line[0] == '.'
}

/// `name` without a trailing `@PLT`.
pub open spec fn strip_plt(name: Seq<char>) -> Seq<char> {
    if "@PLT"@.is_suffix_of(name) {
        name.take(name.len() - "@PLT"@.len())
    } else {
        name
    }
}

/// Whether the line is a `call` instruction.
pub open spec fn is_call(line: Seq<char>) -> bool {
    operand(line, "call"@) is Some
}

/// The symbol that a `call` line names: its operand without a trailing
/// `@PLT`. A call through a register (`*%...`) names none, nor does an
/// operand of which nothing is left.
pub open spec fn call_operand(line: Seq<char>) -> Option<Seq<char>> {
    match operand(line, "call"@) {
        Some(arg) => {
            if "*%"@.is_prefix_of(arg) {
                None
            } else {
                named(strip_plt(arg))
            }
        },
        None => None,
    }
}

/// The name of the label that an untrimmed line defines: the line starts
/// with no whitespace and ends with a colon.
pub open spec fn label_of(line: Seq<char>) -> Option<Seq<char>> {
    if line.len() > 0 && !is_space(line[0]) && line.last() == ':' {
        Some(line.drop_last())
    } else {
        None
    }
}

/// Finds the operand of a line that starts with `keyword`.
pub(crate) fn operand_span(text: &Vec<char>, line: Span, keyword: &Vec<char>) -> (out: Option<Span>)
    requires
        line.within(text@),
    ensures
        match out {
            Some(arg) => arg.within(text@) && operand(line.of(text@), keyword@) == Some(
                arg.of(text@),
            ),
            None => operand(line.of(text@), keyword@) is None,
        },
{
    if !starts_with(text, line, keyword) {
        return None;
    }
    let k = keyword.len();
    if line.end - line.start <= k {
        return None;
    }
    if !is_whitespace(text[line.start + k]) {
        return None;
    }
    let rest = Span { start: line.start + k, end: line.end };
    proof {
        assert(rest.of(text@) =~= line.of(text@).skip(k as int));
    }
    Some(trim_start_span(text, rest))
}

/// Accepts a span only if it is not empty.
pub(crate) fn named_span(text: &Vec<char>, name: Span) -> (out: Option<Span>)
    requires
        name.within(text@),
    ensures
        match out {
            Some(s) => s == name && named(name.of(text@)) == Some(name.of(text@)),
            None => named(name.of(text@)) is None,
        },
{
    if name.start < name.end {
        Some(name)
    } else {
        None
    }
}

/// Recognizes a `.type <name>, @function` line and finds the name.
pub(crate) fn type_directive_span(text: &Vec<char>, line: Span, kw: &Keywords) -> (out: Option<Span>)
    requires
        line.within(text@),
        kw.wf(),
    ensures
        match out {
            Some(name) => name.within(text@) && type_directive(line.of(text@)) == Some(
                name.of(text@),
            ),
            None => type_directive(line.of(text@)) is None,
        },
{
    match operand_span(text, line, &kw.type_kw) {
        Some(arg) => {
            if !ends_with(text, arg, &kw.function_tag) {
                return None;
            }
            let cut = Span { start: arg.start, end: arg.end - kw.function_tag.len() };
            proof {
                let a = arg.of(text@);
                assert(cut.of(text@) =~= a.take(a.len() - "@function"@.len()));
            }
            let head = trim_end_span(text, cut);
            if head.start < head.end && text[head.end - 1] == ',' {
                let body = Span { start: head.start, end: head.end - 1 };
                proof {
                    assert(body.of(text@) =~= head.of(text@).drop_last());
                }
                let name = trim_end_span(text, body);
                named_span(text, name)
            } else {
                None
            }
        },
        None => None,
    }
}

/// Recognizes a `.weak <name>` line and finds the name.
pub(crate) fn weak_directive_span(text: &Vec<char>, line: Span, kw: &Keywords) -> (out: Option<Span>)
    requires
        line.within(text@),
        kw.wf(),
    ensures
        match out {
            Some(name) => name.within(text@) && weak_directive(line.of(text@)) == Some(
                name.of(text@),
            ),
            None => weak_directive(line.of(text@)) is None,
        },
{
    match operand_span(text, line, &kw.weak_kw) {
        Some(arg) => named_span(text, arg),
        None => None,
    }
}

/// Recognizes a `.globl <name>` line and finds the name.
pub(crate) fn globl_directive_span(text: &Vec<char>, line: Span, kw: &Keywords) -> (out: Option<Span>)
    requires
        line.within(text@),
        kw.wf(),
    ensures
        match out {
            Some(name) => name.within(text@) && globl_directive(line.of(text@)) == Some(
                name.of(text@),
            ),
            None => globl_directive(line.of(text@)) is None,
        },
{
    match operand_span(text, line, &kw.globl_kw) {
        Some(arg) => named_span(text, arg),
        None => None,
    }
}

/// Recognizes a `.set <alias>, <target>` line and finds both names.
pub(crate) fn set_directive_span(text: &Vec<char>, line: Span, kw: &Keywords) -> (out: Option<
    (Span, Span),
>)
    requires
        line.within(text@),
        kw.wf(),
    ensures
        match out {
            Some((alias, target)) => alias.within(text@) && target.within(text@) && set_directive(
                line.of(text@),
            ) == Some((alias.of(text@), target.of(text@))),
            None => set_directive(line.of(text@)) is None,
        },
{
    match operand_span(text, line, &kw.set_kw) {
        Some(arg) => {
            proof {
                arg.of(text@).index_of_first_ensures(',');
            }
            match find_char(text, arg, ',') {
                Some(at) => {
                    let left = Span { start: arg.start, end: at };
                    let right = Span { start: at + 1, end: arg.end };
                    proof {
                        let a = arg.of(text@);
                        assert(left.of(text@) =~= a.take(at - arg.start));
                        assert(right.of(text@) =~= a.skip(at - arg.start + 1));
                    }
                    let alias = trim_end_span(text, left);
                    let target = trim_start_span(text, right);
                    if alias.start < alias.end && target.start < target.end && find_char(
                        text,
                        target,
                        ',',
                    ).is_none() {
                        Some((alias, target))
                    } else {
                        None
                    }
                },
                None => None,
            }
        },
        None => None,
    }
}

/// Recognizes a `.size` line.
pub(crate) fn is_size_directive_at(text: &Vec<char>, line: Span, kw: &Keywords) -> (b: bool)
    requires
        line.within(text@),
        kw.wf(),
    ensures
        b == is_size_directive(line.of(text@)),
{
    operand_span(text, line, &kw.size_kw).is_some()
}

/// Recognizes a directive line of any kind.
pub(crate) fn is_directive_at(text: &Vec<char>, line: Span) -> (b: bool)
    requires
        line.within(text@),
    ensures
        b == is_directive(line.of(text@)),
{
    line.start < line.end && text[line.start] == '.'
}

/// Recognizes a `call` line.
pub(crate) fn is_call_at(text: &Vec<char>, line: Span, kw: &Keywords) -> (b: bool)
    requires
        line.within(text@),
        kw.wf(),
    ensures
        b == is_call(line.of(text@)),
{
    operand_span(text, line, &kw.call_kw).is_some()
}

/// Finds the symbol that a `call` line names.
pub(crate) fn call_operand_span(text: &Vec<char>, line: Span, kw: &Keywords) -> (out: Option<Span>)
    requires
        line.within(text@),
        kw.wf(),
    ensures
        match out {
            Some(name) => name.within(text@) && call_operand(line.of(text@)) == Some(
                name.of(text@),
            ),
            None => call_operand(line.of(text@)) is None,
        },
{
    match operand_span(text, line, &kw.call_kw) {
        Some(arg) => {
            if starts_with(text, arg, &kw.indirect_mark) {
                return None;
            }
            if ends_with(text, arg, &kw.plt_tag) {
                let bare = Span { start: arg.start, end: arg.end - kw.plt_tag.len() };
                proof {
                    let a = arg.of(text@);
                    assert(bare.of(text@) =~= a.take(a.len() - "@PLT"@.len()));
                }
                named_span(text, bare)
            } else {
                named_span(text, arg)
            }
        },
        None => None,
    }
}

/// Finds the name of the label that an untrimmed line defines.
pub(crate) fn label_span(text: &Vec<char>, line: Span) -> (out: Option<Span>)
    requires
        line.within(text@),
    ensures
        match out {
            Some(name) => name.within(text@) && label_of(line.of(text@)) == Some(name.of(text@)),
            None => label_of(line.of(text@)) is None,
        },
{
    if line.start < line.end && !is_whitespace(text[line.start]) && text[line.end - 1] == ':' {
        let name = Span { start: line.start, end: line.end - 1 };
        proof {
            assert(name.of(text@) =~= line.of(text@).drop_last());
        }
        Some(name)
    } else {
        None
    }
}

} // verus!
