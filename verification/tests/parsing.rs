use asm_callgraph::directive::LinkType;
use asm_callgraph::knowledge::{
    FunctionID, FunctionName, GlobalFunctionName, LocalFunctionName, ObjectID, ParsedData,
};
use asm_callgraph::parse::{merge_unit, parse_data, parse_object, ParseError};
use asm_callgraph::scanner::{scan_unit, CallTarget};

fn global(name: &str) -> FunctionName {
    FunctionName::Global(GlobalFunctionName { name: name.to_owned() })
}

fn local(object: ObjectID, name: &str) -> FunctionName {
    FunctionName::Local(LocalFunctionName { object, name: name.to_owned() })
}

const FOO_CALLS_BAR: &str = "\t.text\n\t.globl\tbar\n\t.type\tfoo, @function\nfoo:\n\tpushq\t%rbp\n\tcall\tbar@PLT\n\tret\n\t.size\tfoo, .-foo\n";

#[test]
fn local_function_with_one_call_to_a_global() {
    let mut kb = ParsedData::new();
    let object = kb.register_object("a.o");
    assert_eq!(parse_data(object, FOO_CALLS_BAR, &mut kb), Ok(()));

    let foo = kb.lookup_function(&local(object, "foo")).unwrap();
    let bar = kb.lookup_function(&global("bar")).unwrap();
    assert_eq!(kb.lookup_function(&global("foo")), None);
    assert_eq!(kb.instructions_of(foo), Some(3));
    assert_eq!(kb.callees_of(foo), Some(&vec![bar]));
    assert_eq!(kb.callers_of(bar), Some(&vec![foo]));
    assert_eq!(kb.callers_of(foo), Some(&vec![]));
    assert_eq!(kb.callees_of(bar), Some(&vec![]));
    assert_eq!(kb.objects_of(foo), Some(&vec![object]));
    assert_eq!(kb.objects_of(bar), Some(&vec![]));
    assert_eq!(kb.functions_of(object), Some(&vec![foo]));
    assert_eq!(kb.instructions_of(bar), Some(0));
    assert_eq!(kb.function_count(), 2);
    assert_eq!(kb.is_parsed(object), Some(true));
}

#[test]
fn directives_may_use_spaces_and_omit_them_after_the_comma() {
    let text = ".globl bar\n.type foo,@function\nfoo:\n  nop\n  call  bar@PLT\n  ret\n.size foo, .-foo\n";
    let mut kb = ParsedData::new();
    let object = kb.register_object("a.o");
    assert_eq!(parse_data(object, text, &mut kb), Ok(()));
    let foo = kb.lookup_function(&local(object, "foo")).unwrap();
    let bar = kb.lookup_function(&global("bar")).unwrap();
    assert_eq!(kb.instructions_of(foo), Some(3));
    assert_eq!(kb.callees_of(foo), Some(&vec![bar]));
}

#[test]
fn same_local_name_in_two_objects_gives_two_identities() {
    let text = "\t.type\thelper, @function\nhelper:\n\tret\n\t.size\thelper, .-helper\n";
    let mut kb = ParsedData::new();
    let first = kb.register_object("a.o");
    let second = kb.register_object("b.o");
    assert_eq!(parse_data(first, text, &mut kb), Ok(()));
    assert_eq!(parse_data(second, text, &mut kb), Ok(()));
    let in_first = kb.lookup_function(&local(first, "helper")).unwrap();
    let in_second = kb.lookup_function(&local(second, "helper")).unwrap();
    assert_ne!(in_first, in_second);
    assert_eq!(kb.objects_of(in_first), Some(&vec![first]));
    assert_eq!(kb.objects_of(in_second), Some(&vec![second]));
    assert_eq!(kb.instructions_of(in_first), Some(1));
    assert_eq!(kb.instructions_of(in_second), Some(1));
}

#[test]
fn same_global_name_in_two_objects_gives_one_identity() {
    let global_text = "\t.globl\tshared\n\t.type\tshared, @function\nshared:\n\tret\n\t.size\tshared, .-shared\n";
    let weak_text = "\t.weak\tshared\n\t.type\tshared, @function\nshared:\n\tnop\n\tret\n\t.size\tshared, .-shared\n";
    let mut kb = ParsedData::new();
    let first = kb.register_object("a.o");
    let second = kb.register_object("b.o");
    assert_eq!(parse_data(first, global_text, &mut kb), Ok(()));
    assert_eq!(parse_data(second, weak_text, &mut kb), Ok(()));
    assert_eq!(kb.function_count(), 1);
    let shared = kb.lookup_function(&global("shared")).unwrap();
    assert_eq!(shared, FunctionID(0));
    assert_eq!(kb.objects_of(shared), Some(&vec![first, second]));
    assert_eq!(kb.instructions_of(shared), Some(3));
}

#[test]
fn callee_interned_before_its_definition_keeps_its_identifier() {
    let caller = "\t.type\tmain, @function\n\t.globl\tmain\nmain:\n\tcall\tutil\n\t.size\tmain, .-main\n";
    let definer = "\t.globl\tutil\n\t.type\tutil, @function\nutil:\n\tret\n\t.size\tutil, .-util\n";
    let mut kb = ParsedData::new();
    let first = kb.register_object("main.o");
    let second = kb.register_object("util.o");
    parse_data(first, caller, &mut kb).unwrap();
    let util = kb.lookup_function(&global("util")).unwrap();
    assert_eq!(kb.objects_of(util), Some(&vec![]));
    parse_data(second, definer, &mut kb).unwrap();
    assert_eq!(kb.lookup_function(&global("util")), Some(util));
    assert_eq!(kb.objects_of(util), Some(&vec![second]));
    let main = kb.lookup_function(&global("main")).unwrap();
    assert_eq!(kb.callers_of(util), Some(&vec![main]));
    assert_eq!(kb.function_count(), 2);
}

#[test]
fn uncalled_function_has_no_callers_and_leaf_has_no_callees() {
    let text = "\t.type\tleaf, @function\nleaf:\n\tmovl\t$0, %eax\n\tcall\t*%rax\n\tret\n\t.size\tleaf, .-leaf\n";
    let mut kb = ParsedData::new();
    let object = kb.register_object("a.o");
    parse_data(object, text, &mut kb).unwrap();
    let leaf = kb.lookup_function(&local(object, "leaf")).unwrap();
    assert_eq!(kb.callers_of(leaf), Some(&vec![]));
    assert_eq!(kb.callees_of(leaf), Some(&vec![]));
    assert_eq!(kb.instructions_of(leaf), Some(3));
    assert_eq!(kb.function_count(), 1);
}

#[test]
fn instruction_count_skips_directives_and_counts_other_lines() {
    let text = "\t.type\tf, @function\nf:\n.LFB0:\n\t.cfi_startproc\n\tpushq\t%rbp\n\n\t.loc 1 2 3\n# a comment\n\tret\n\t.cfi_endproc\n\t.size\tf, .-f\n\tnop\n";
    let unit = scan_unit(text).unwrap();
    assert_eq!(unit.bodies().len(), 1);
    let body = &unit.bodies()[0];
    assert_eq!(body.function, 0);
    assert_eq!(body.label_line, 1);
    assert_eq!(body.end_line, 10);
    assert_eq!(body.instructions, 4);
    assert!(body.calls.is_empty());
}

#[test]
fn body_without_size_directive_runs_to_the_end() {
    let text = "\t.type\tf, @function\nf:\n\tnop\n\tret";
    let unit = scan_unit(text).unwrap();
    assert_eq!(unit.bodies().len(), 1);
    assert_eq!(unit.bodies()[0].label_line, 1);
    assert_eq!(unit.bodies()[0].end_line, 4);
    assert_eq!(unit.bodies()[0].instructions, 2);
}

#[test]
fn call_to_an_alias_goes_to_its_target() {
    let text = "\t.globl\tnew_name\n\t.set\told_name,new_name\n\t.type\tf, @function\nf:\n\tcall\told_name\n\tret\n\t.size\tf, .-f\n";
    let mut kb = ParsedData::new();
    let object = kb.register_object("a.o");
    parse_data(object, text, &mut kb).unwrap();
    let f = kb.lookup_function(&local(object, "f")).unwrap();
    let target = kb.lookup_function(&global("new_name")).unwrap();
    assert_eq!(kb.callees_of(f), Some(&vec![target]));
    assert_eq!(kb.lookup_function(&global("old_name")), None);
    assert_eq!(kb.lookup_function(&global(",new_name")), None);
    assert_eq!(kb.function_count(), 2);
}

#[test]
fn alias_target_is_trimmed_and_may_be_a_declared_function() {
    let text = "\t.type\timpl, @function\nimpl:\n\tret\n\t.size\timpl, .-impl\n\t.set\tshort , impl\n\t.type\tf, @function\nf:\n\tcall\tshort@PLT\n\t.size\tf, .-f\n";
    let unit = scan_unit(text).unwrap();
    assert_eq!(unit.functions().len(), 2);
    assert_eq!(unit.functions()[0].name, "impl");
    assert_eq!(unit.functions()[0].linkage, LinkType::Local);
    assert_eq!(unit.bodies().len(), 2);
    assert_eq!(unit.bodies()[1].calls, vec![CallTarget::Declared(0)]);
}

#[test]
fn malformed_alias_lines_are_ignored() {
    let text = "\t.set\tonly_one_side\n\t.set\t, target\n\t.set\talias,\n\t.set\ta, b, c\n\t.type\tf, @function\nf:\n\tcall\ta\n\tcall\talias\n\t.size\tf, .-f\n";
    let unit = scan_unit(text).unwrap();
    assert_eq!(
        unit.bodies()[0].calls,
        vec![CallTarget::External("a".to_owned()), CallTarget::External("alias".to_owned())]
    );
}

#[test]
fn last_linkage_directive_holds() {
    let text = "\t.globl\tf\n\t.weak\tf\n\t.weak\tg\n\t.globl\tg\n\t.type\tf, @function\n\t.type\tg, @function\n\t.type\th, @function\n\t.type\tf, @function\n";
    let unit = scan_unit(text).unwrap();
    assert_eq!(unit.functions().len(), 3);
    assert_eq!(unit.functions()[0].name, "f");
    assert_eq!(unit.functions()[0].linkage, LinkType::Weak);
    assert_eq!(unit.functions()[1].name, "g");
    assert_eq!(unit.functions()[1].linkage, LinkType::Global);
    assert_eq!(unit.functions()[2].name, "h");
    assert_eq!(unit.functions()[2].linkage, LinkType::Local);
    assert!(unit.bodies().is_empty());
}

#[test]
fn repeated_calls_are_kept() {
    let text = "\t.type\tf, @function\nf:\n\tcall\tg\n\tcall\tg\n\tcall\tf\n\t.size\tf, .-f\n";
    let mut kb = ParsedData::new();
    let object = kb.register_object("a.o");
    parse_data(object, text, &mut kb).unwrap();
    let f = kb.lookup_function(&local(object, "f")).unwrap();
    let g = kb.lookup_function(&global("g")).unwrap();
    assert_eq!(kb.callees_of(f), Some(&vec![g, g, f]));
    assert_eq!(kb.callers_of(g), Some(&vec![f, f]));
    assert_eq!(kb.callers_of(f), Some(&vec![f]));
}

#[test]
fn label_of_an_undeclared_symbol_opens_no_body() {
    let text = "helper:\n.L3:\n\t.type\tf, @function\n\tf:\nf :\nf:\n\tret\n\t.size\tf, .-f\n";
    let unit = scan_unit(text).unwrap();
    assert_eq!(unit.bodies().len(), 1);
    assert_eq!(unit.bodies()[0].label_line, 5);
    assert_eq!(unit.bodies()[0].instructions, 1);
}

#[test]
fn function_defined_twice_in_one_object_is_a_member_once() {
    let text = "\t.type\tf, @function\nf:\n\tnop\n\t.size\tf, .-f\nf:\n\tnop\n\tnop\n\t.size\tf, .-f\n";
    let mut kb = ParsedData::new();
    let object = kb.register_object("a.o");
    parse_data(object, text, &mut kb).unwrap();
    let f = kb.lookup_function(&local(object, "f")).unwrap();
    assert_eq!(kb.objects_of(f), Some(&vec![object]));
    assert_eq!(kb.functions_of(object), Some(&vec![f]));
    assert_eq!(kb.instructions_of(f), Some(3));
}

#[test]
fn call_outside_a_function_fails_with_its_line() {
    let text = "\t.type\tf, @function\r\nf:\r\n\tret\r\n\t.size\tf, .-f\r\n\tcall\tg\r\n\tcall\th\r\n";
    let mut kb = ParsedData::new();
    let object = kb.register_object("a.o");
    match parse_data(object, text, &mut kb) {
        Err(ParseError::CallOutsideFunction(e)) => {
            assert_eq!(e.line_number, 5);
            assert_eq!(e.line, "\tcall\tg");
        }
        other => panic!("unexpected result: {:?}", other),
    }
    assert_eq!(kb.function_count(), 0);
    assert_eq!(kb.is_parsed(object), Some(false));
    assert!(scan_unit(text).is_err());
}

#[test]
fn unknown_object_is_rejected() {
    let mut kb = ParsedData::new();
    assert_eq!(parse_data(ObjectID(0), FOO_CALLS_BAR, &mut kb), Err(ParseError::UnknownObject));
    assert_eq!(kb.function_count(), 0);
    assert_eq!(kb.object_count(), 0);
    let unit = scan_unit(FOO_CALLS_BAR).unwrap();
    assert!(merge_unit(ObjectID(3), &unit, &mut kb).is_err());
    assert_eq!(kb.function_count(), 0);
}

#[test]
fn parsing_the_same_text_into_fresh_bases_gives_the_same_graph() {
    let text = "\t.globl\tmain\n\t.type\tmain, @function\n\t.type\thelper, @function\nhelper:\n\tcall\tputs@PLT\n\tret\n\t.size\thelper, .-helper\nmain:\n\tcall\thelper\n\tcall\thelper\n\tcall\texit@PLT\n\t.size\tmain, .-main\n";
    let mut first = ParsedData::new();
    let mut second = ParsedData::new();
    let a = first.register_object("a.o");
    let b = second.register_object("a.o");
    parse_data(a, text, &mut first).unwrap();
    parse_data(b, text, &mut second).unwrap();
    assert_eq!(first.function_count(), 4);
    assert_eq!(first.function_count(), second.function_count());
    for i in 0..first.function_count() {
        let f = FunctionID(i);
        assert_eq!(first.function_name(f), second.function_name(f));
        assert_eq!(first.callees_of(f), second.callees_of(f));
        assert_eq!(first.callers_of(f), second.callers_of(f));
        assert_eq!(first.objects_of(f), second.objects_of(f));
        assert_eq!(first.instructions_of(f), second.instructions_of(f));
    }
    assert_eq!(first.function_name(FunctionID(0)), Some(&global("main")));
    assert_eq!(first.function_name(FunctionID(1)), Some(&local(a, "helper")));
    assert_eq!(first.function_name(FunctionID(2)), Some(&global("puts")));
    assert_eq!(first.function_name(FunctionID(3)), Some(&global("exit")));
    assert_eq!(first.instructions_of(FunctionID(0)), Some(3));
    assert_eq!(first.instructions_of(FunctionID(1)), Some(2));
}

#[test]
fn scan_summary_lists_declarations_and_bodies() {
    let unit = scan_unit(FOO_CALLS_BAR).unwrap();
    assert_eq!(unit.functions().len(), 1);
    assert_eq!(unit.functions()[0].name, "foo");
    assert_eq!(unit.functions()[0].linkage, LinkType::Local);
    assert_eq!(unit.bodies().len(), 1);
    assert_eq!(unit.bodies()[0].function, 0);
    assert_eq!(unit.bodies()[0].label_line, 3);
    assert_eq!(unit.bodies()[0].end_line, 7);
    assert_eq!(unit.bodies()[0].instructions, 3);
    assert_eq!(unit.bodies()[0].calls, vec![CallTarget::External("bar".to_owned())]);
}

#[test]
fn empty_text_gives_an_empty_unit() {
    let unit = scan_unit("").unwrap();
    assert!(unit.functions().is_empty());
    assert!(unit.bodies().is_empty());
    let mut kb = ParsedData::new();
    let object = kb.register_object("empty.o");
    assert_eq!(parse_data(object, "", &mut kb), Ok(()));
    assert_eq!(kb.is_parsed(object), Some(true));
    assert_eq!(kb.function_count(), 0);
}

#[test]
fn unicode_whitespace_is_trimmed() {
    let text = "\u{3000}.type\u{a0}f, @function\u{2003}\nf:\n\u{2028}ret\u{85}\n .size f, 1";
    let unit = scan_unit(text).unwrap();
    assert_eq!(unit.functions().len(), 1);
    assert_eq!(unit.functions()[0].name, "f");
    assert_eq!(unit.bodies().len(), 1);
    assert_eq!(unit.bodies()[0].instructions, 1);
    assert_eq!(unit.bodies()[0].end_line, 3);
}

#[test]
fn parse_object_registers_and_parses() {
    let mut kb = ParsedData::new();
    let a = parse_object("a.o", FOO_CALLS_BAR, &mut kb).unwrap();
    assert_eq!(a, ObjectID(0));
    assert_eq!(kb.lookup_object("a.o"), Some(a));
    assert_eq!(kb.is_parsed(a), Some(true));
    let foo = kb.lookup_function(&local(a, "foo")).unwrap();
    assert_eq!(kb.instructions_of(foo), Some(3));
    assert_eq!(parse_object("a.o", FOO_CALLS_BAR, &mut kb), Ok(a));
    assert_eq!(kb.object_count(), 1);
    assert_eq!(kb.function_count(), 2);
    assert_eq!(kb.instructions_of(foo), Some(6));
    assert_eq!(kb.objects_of(foo), Some(&vec![a]));
}

#[test]
fn parse_object_changes_nothing_on_failure() {
    let mut kb = ParsedData::new();
    let e = parse_object("a.o", "call f\n", &mut kb).unwrap_err();
    assert_eq!(e.line_number, 1);
    assert_eq!(e.line, "call f");
    assert_eq!(kb.object_count(), 0);
    assert_eq!(kb.function_count(), 0);
}
