//! First pass over a translation unit: which symbols are functions, which
//! linkage each symbol has, and which names stand for other names.
use crate::directive::{
    globl_directive, globl_directive_span, set_directive, set_directive_span, type_directive,
    type_directive_span, weak_directive, weak_directive_span, Keywords, LinkType,
};
use crate::text::{
    chars_of, line_spans, spans_of, spans_within, split_lines, string_of, trim, trim_span, Span,
};
use vstd::hash_map::StringHashMap;
use vstd::prelude::*;

verus! {

/// What the directives of a translation unit say about its symbols.
pub struct Classes {
    /// The symbols declared as functions, in the order of their first
    /// declaration, each once.
    pub functions: Seq<Seq<char>>,
    /// The linkage of every symbol that a directive marked weak or global.
    pub linkage: Map<Seq<char>, LinkType>,
    /// The target of every alias.
    pub aliases: Map<Seq<char>, Seq<char>>,
}

impl Classes {
    /// The classification of a text without directives.
    pub open spec fn empty() -> Classes {
        Classes { functions: Seq::empty(), linkage: Map::empty(), aliases: Map::empty() }
    }

    /// The linkage of `name`: local unless a directive said otherwise.
    pub open spec fn linkage_of(self, name: Seq<char>) -> LinkType {
        if self.linkage.contains_key(name) {
            self.linkage[name]
        } else {
            LinkType::Local
        }
    }

    /// The name that `name` stands for: its alias target, or itself.
    pub open spec fn resolve(self, name: Seq<char>) -> Seq<char> {
        if self.aliases.contains_key(name) {
            self.aliases[name]
        } else {
            name
        }
    }

    /// The position of `name` among the declared functions.
    pub open spec fn position(self, name: Seq<char>) -> Option<int> {
        self.functions.index_of_first(name)
    }

    /// No function is listed twice.
    pub open spec fn wf(self) -> bool {
        self.functions.no_duplicates()
    }

    /// The classification after one more line.
    pub open spec fn step(self, line: Seq<char>) -> Classes {
        let t = trim(line);
        if let Some(name) = type_directive(t) {
            if self.functions.contains(name) {
                self
            } else {
                Classes { functions: self.functions.push(name), ..self }
            }
        } else if let Some(name) = weak_directive(t) {
            Classes { linkage: self.linkage.insert(name, LinkType::Weak), ..self }
        } else if let Some(name) = globl_directive(t) {
            Classes { linkage: self.linkage.insert(name, LinkType::Global), ..self }
        } else if let Some((alias, target)) = set_directive(t) {
            Classes { aliases: self.aliases.insert(alias, target), ..self }
        } else {
            self
        }
    }
}

/// The classification that the lines of a translation unit give. Where
/// several directives speak of one symbol, the last one holds.
pub open spec fn classify(lines: Seq<Seq<char>>) -> Classes
    decreases lines.len(),
{
    if lines.len() == 0 {
        Classes::empty()
    } else {
        classify(lines.drop_last()).step(lines.last())
    }
}

/// A classification lists no function twice.
pub proof fn lemma_classify_wf(lines: Seq<Seq<char>>)
    ensures
        classify(lines).wf(),
    decreases lines.len(),
{
    if lines.len() > 0 {
        lemma_classify_wf(lines.drop_last());
    }
}

/// A line is at most one of the four directives that the classifier reads.
pub proof fn lemma_directives_exclusive(line: Seq<char>)
    ensures
        type_directive(line) is Some ==> weak_directive(line) is None && globl_directive(line)
            is None && set_directive(line) is None,
        weak_directive(line) is Some ==> globl_directive(line) is None && set_directive(line)
            is None,
        globl_directive(line) is Some ==> set_directive(line) is None,
{
    reveal_strlit(".type");
    reveal_strlit(".weak");
    reveal_strlit(".globl");
    reveal_strlit(".set");
    if ".type"@.is_prefix_of(line) {
        assert(line[1] == ".type"@[1]);
    }
    if ".weak"@.is_prefix_of(line) {
        assert(line[1] == ".weak"@[1]);
    }
    if ".globl"@.is_prefix_of(line) {
        assert(line[1] == ".globl"@[1]);
    }
    if ".set"@.is_prefix_of(line) {
        assert(line[1] == ".set"@[1]);
    }
}

/// Some line declares `name` as a function.
pub open spec fn declares(lines: Seq<Seq<char>>, name: Seq<char>) -> bool {
    exists|k: int| 0 <= k < lines.len() && type_directive(trim(#[trigger] lines[k])) == Some(name)
}

/// The line marks `name` as weak or global.
pub open spec fn exports(line: Seq<char>, name: Seq<char>) -> bool {
    weak_directive(trim(line)) == Some(name) || globl_directive(trim(line)) == Some(name)
}

/// Some line marks `name` as weak or global.
pub open spec fn shares(lines: Seq<Seq<char>>, name: Seq<char>) -> bool {
    exists|k: int| 0 <= k < lines.len() && exports(#[trigger] lines[k], name)
}

/// The line declares `alias` as another name for something.
pub open spec fn sets(line: Seq<char>, alias: Seq<char>) -> bool {
    match set_directive(trim(line)) {
        Some((a, _)) => a == alias,
        None => false,
    }
}

/// The functions of a classification are the symbols that some line
/// declares as a function.
pub proof fn lemma_functions_declared(lines: Seq<Seq<char>>, name: Seq<char>)
    ensures
        classify(lines).functions.contains(name) <==> declares(lines, name),
    decreases lines.len(),
{
    if lines.len() > 0 {
        let rest = lines.drop_last();
        let before = classify(rest);
        let last = lines.len() - 1;
        lemma_functions_declared(rest, name);
        lemma_directives_exclusive(trim(lines.last()));
        if declares(rest, name) {
            let k = choose|k: int|
                0 <= k < rest.len() && type_directive(trim(#[trigger] rest[k])) == Some(name);
            assert(lines[k] == rest[k]);
            let at = choose|at: int| 0 <= at < before.functions.len() && before.functions[at] == name;
            assert(classify(lines).functions[at] == name);
        }
        if type_directive(trim(lines[last])) == Some(name) {
            if !before.functions.contains(name) {
                assert(classify(lines).functions[before.functions.len() as int] == name);
            }
        }
        if declares(lines, name) {
            let k = choose|k: int|
                0 <= k < lines.len() && type_directive(trim(#[trigger] lines[k])) == Some(name);
            if k < last {
                assert(rest[k] == lines[k]);
            }
        }
        if classify(lines).functions.contains(name) && !before.functions.contains(name) {
            let at = choose|at: int|
                0 <= at < classify(lines).functions.len() && classify(lines).functions[at] == name;
            assert(type_directive(trim(lines[last])) == Some(name));
        }
    }
}

/// A symbol is local exactly if no line marks it as weak or global.
pub proof fn lemma_linkage_shared(lines: Seq<Seq<char>>, name: Seq<char>)
    ensures
        classify(lines).linkage_of(name) != LinkType::Local <==> shares(lines, name),
        classify(lines).linkage.contains_key(name) <==> shares(lines, name),
    decreases lines.len(),
{
    if lines.len() > 0 {
        let rest = lines.drop_last();
        let last = lines.len() - 1;
        lemma_linkage_shared(rest, name);
        lemma_directives_exclusive(trim(lines.last()));
        if shares(rest, name) {
            let k = choose|k: int| 0 <= k < rest.len() && exports(#[trigger] rest[k], name);
            assert(lines[k] == rest[k]);
        }
        if exports(lines[last], name) {
        }
        if shares(lines, name) {
            let k = choose|k: int| 0 <= k < lines.len() && exports(#[trigger] lines[k], name);
            if k < last {
                assert(rest[k] == lines[k]);
            }
        }
    }
}

/// The last line that declares an alias decides what it stands for.
pub proof fn lemma_alias_set(lines: Seq<Seq<char>>, k: int, alias: Seq<char>, target: Seq<char>)
    requires
        0 <= k < lines.len(),
        set_directive(trim(lines[k])) == Some((alias, target)),
        forall|j: int| k < j < lines.len() ==> !sets(#[trigger] lines[j], alias),
    ensures
        classify(lines).aliases.contains_key(alias),
        classify(lines).aliases[alias] == target,
        classify(lines).resolve(alias) == target,
    decreases lines.len(),
{
    let rest = lines.drop_last();
    let last = lines.len() - 1;
    lemma_directives_exclusive(trim(lines.last()));
    if k < last {
        assert(rest[k] == lines[k]);
        assert forall|j: int| k < j < rest.len() implies !sets(#[trigger] rest[j], alias) by {
            assert(rest[j] == lines[j]);
        }
        lemma_alias_set(rest, k, alias, target);
        assert(!sets(lines[last], alias));
    }
}

/// The classification of a translation unit, with an index for lookups.
pub struct Classification {
    functions: Vec<String>,
    index: StringHashMap<usize>,
    linkage: StringHashMap<LinkType>,
    aliases: StringHashMap<String>,
}

impl View for Classification {
    type V = Classes;

    closed spec fn view(&self) -> Classes {
        Classes {
            functions: self.functions@.map_values(|s: String| s@),
            linkage: self.linkage@,
            aliases: self.aliases@.map_values(|s: String| s@),
        }
    }
}

impl Classification {
    /// The index holds exactly the listed functions, each at its position.
    pub closed spec fn wf(&self) -> bool {
        &&& forall|k: int|
            0 <= k < self.functions.len() ==> self.index@.contains_key(
                #[trigger] self.functions[k]@,
            ) && self.index@[self.functions[k]@] == k
        &&& forall|name: Seq<char>| #[trigger]
            self.index@.contains_key(name) ==> self.index@[name] < self.functions.len()
                && self.functions[self.index@[name] as int]@ == name
    }

    pub fn new() -> (c: Classification)
        ensures
            c.wf(),
            c@ == Classes::empty(),
    {
        let c = Classification {
            functions: Vec::new(),
            index: StringHashMap::new(),
            linkage: StringHashMap::new(),
            aliases: StringHashMap::new(),
        };
        proof {
            assert(c@.functions =~= Seq::empty());
            assert(c@.aliases =~= Map::empty());
        }
        c
    }

    /// Number of declared functions.
    pub fn len(&self) -> (n: usize)
        ensures
            n == self@.functions.len(),
    {
        self.functions.len()
    }

    /// The name of the declared function at `position`, if there is one.
    pub fn function(&self, position: usize) -> (name: Option<&String>)
        ensures
            match name {
                Some(n) => position < self@.functions.len() && n@
                    == self@.functions[position as int],
                None => position >= self@.functions.len(),
            },
    {
        if position < self.functions.len() {
            Some(&self.functions[position])
        } else {
            None
        }
    }

    /// The position of `name` among the declared functions.
    pub fn position(&self, name: &str) -> (at: Option<usize>)
        requires
            self.wf(),
        ensures
            match at {
                Some(i) => i < self@.functions.len() && self@.functions[i as int] == name@
                    && self@.position(name@) == Some(i as int),
                None => !self@.functions.contains(name@) && self@.position(name@) is None,
            },
    {
        proof {
            self@.functions.index_of_first_ensures(name@);
        }
        match self.index.get(name) {
            Some(i) => {
                proof {
                    assert(self@.functions[*i as int] == name@);
                }
                Some(*i)
            },
            None => {
                proof {
                    if self@.functions.contains(name@) {
                        let k = choose|k: int|
                            0 <= k < self@.functions.len() && self@.functions[k] == name@;
                        assert(self.index@.contains_key(self.functions[k]@));
                    }
                }
                None
            },
        }
    }

    /// The linkage of `name`.
    pub fn linkage_of(&self, name: &str) -> (l: LinkType)
        ensures
            l == self@.linkage_of(name@),
    {
        match self.linkage.get(name) {
            Some(l) => *l,
            None => LinkType::Local,
        }
    }

    /// The alias target of `name`, if it is an alias.
    pub fn alias_of(&self, name: &str) -> (target: Option<&String>)
        ensures
            match target {
                Some(t) => self@.aliases.contains_key(name@) && t@ == self@.aliases[name@],
                None => !self@.aliases.contains_key(name@),
            },
    {
        self.aliases.get(name)
    }

    /// Takes one more line into account.
    fn note_line(&mut self, text: &Vec<char>, line: Span, kw: &Keywords)
        requires
            old(self).wf(),
            line.within(text@),
            kw.wf(),
        ensures
            final(self).wf(),
            final(self)@ == old(self)@.step(line.of(text@)),
    {
        let t = trim_span(text, line);
        if let Some(name) = type_directive_span(text, t, kw) {
            let name = string_of(text, name);
            if self.position(name.as_str()).is_none() {
                let at = self.functions.len();
                self.index.insert(name.clone(), at);
                self.functions.push(name);
                proof {
                    assert(self@.functions =~= old(self)@.functions.push(name@));
                    assert(self@.aliases =~= old(self)@.aliases);
                    assert forall|k: int| 0 <= k < self.functions.len() implies self.index@.contains_key(
                        #[trigger] self.functions[k]@,
                    ) && self.index@[self.functions[k]@] == k by {
                        if k < at {
                            assert(old(self)@.functions[k] == old(self).functions[k]@);
                            assert(old(self)@.functions.contains(old(self).functions[k]@));
                        }
                    }
                    assert forall|n: Seq<char>| #[trigger]
                        self.index@.contains_key(n) implies self.index@[n] < self.functions.len()
                        && self.functions[self.index@[n] as int]@ == n by {
                        if n != name@ {
                            assert(old(self).index@.contains_key(n));
                        }
                    }
                }
            }
        } else if let Some(name) = weak_directive_span(text, t, kw) {
            self.linkage.insert(string_of(text, name), LinkType::Weak);
        } else if let Some(name) = globl_directive_span(text, t, kw) {
            self.linkage.insert(string_of(text, name), LinkType::Global);
        } else if let Some((alias, target)) = set_directive_span(text, t, kw) {
            let target = string_of(text, target);
            self.aliases.insert(string_of(text, alias), target);
            proof {
                assert(self@.aliases =~= old(self)@.aliases.insert(
                    alias.of(text@),
                    target@,
                ));
            }
        }
    }
}

/// Classifies the symbols of a translation unit from its lines.
pub(crate) fn classify_lines(text: &Vec<char>, lines: &Vec<Span>, kw: &Keywords) -> (c: Classification)
    requires
        spans_within(text@, lines@),
        kw.wf(),
    ensures
        c.wf(),
        c@ == classify(spans_of(text@, lines@)),
{
    let mut c = Classification::new();
    let ghost all = spans_of(text@, lines@);
    let mut i: usize = 0;
    proof {
        assert(all.take(0) =~= Seq::empty());
    }
    while i < lines.len()
        invariant
            i <= lines.len(),
            spans_within(text@, lines@),
            kw.wf(),
            all == spans_of(text@, lines@),
            c.wf(),
            c@ == classify(all.take(i as int)),
        decreases lines.len() - i,
    {
        c.note_line(text, lines[i], kw);
        proof {
            let next = all.take(i + 1);
            assert(next.drop_last() =~= all.take(i as int));
            assert(next.last() == lines[i as int].of(text@));
        }
        i += 1;
    }
    proof {
        assert(all.take(lines.len() as int) =~= all);
    }
    c
}

/// Classifies the symbols of a translation unit from its assembly text.
pub fn classify_text(assembly: &str) -> (c: Classification)
    ensures
        c.wf(),
        c@.wf(),
        c@ == classify(split_lines(assembly@)),
{
    let text = chars_of(assembly);
    let lines = line_spans(&text);
    let kw = Keywords::new();
    proof {
        lemma_classify_wf(split_lines(assembly@));
    }
    classify_lines(&text, &lines, &kw)
}

} // verus!
