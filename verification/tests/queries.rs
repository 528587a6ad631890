use asm_callgraph::knowledge::{
    FunctionID, FunctionName, GlobalFunctionName, LocalFunctionName, NotFound, ObjectID, ParsedData,
};
use asm_callgraph::parse::parse_data;
use asm_callgraph::query::{
    function_info, functions_in_all_objects, functions_with_most_instructions,
};

fn global(name: &str) -> FunctionName {
    FunctionName::Global(GlobalFunctionName { name: name.to_owned() })
}

fn local(object: ObjectID, name: &str) -> FunctionName {
    FunctionName::Local(LocalFunctionName { object, name: name.to_owned() })
}

fn function(name: &str, global: bool, body: &str) -> String {
    let linkage = if global { format!("\t.globl\t{}\n", name) } else { String::new() };
    format!("{}\t.type\t{}, @function\n{}:\n{}\t.size\t{}, .-{}\n", linkage, name, name, body, name, name)
}

#[test]
fn only_the_function_defined_in_both_objects_is_in_all() {
    let first = function("common_util", true, "\tret\n") + &function("only_a", true, "\tret\n")
        + &function("private", false, "\tret\n");
    let second = function("private", false, "\tret\n") + &function("common_util", true, "\tret\n")
        + &function("only_b", true, "\tcall\tonly_a\n");
    let mut kb = ParsedData::new();
    let a = kb.register_object("a.o");
    let b = kb.register_object("b.o");
    parse_data(a, &first, &mut kb).unwrap();
    assert_eq!(functions_in_all_objects(&kb).len(), 3);
    parse_data(b, &second, &mut kb).unwrap();
    let common = kb.lookup_function(&global("common_util")).unwrap();
    assert_eq!(functions_in_all_objects(&kb), vec![common]);
}

#[test]
fn objects_that_are_not_parsed_do_not_count() {
    let mut kb = ParsedData::new();
    let a = kb.register_object("a.o");
    let _pending = kb.register_object("b.o");
    parse_data(a, &function("f", true, "\tret\n"), &mut kb).unwrap();
    let f = kb.lookup_function(&global("f")).unwrap();
    assert_eq!(functions_in_all_objects(&kb), vec![f]);
}

#[test]
fn callee_without_definition_is_in_no_object() {
    let mut kb = ParsedData::new();
    assert!(functions_in_all_objects(&kb).is_empty());
    let a = kb.register_object("a.o");
    parse_data(a, &function("f", true, "\tcall\tg\n"), &mut kb).unwrap();
    let f = kb.lookup_function(&global("f")).unwrap();
    assert_eq!(functions_in_all_objects(&kb), vec![f]);
    let b = kb.register_object("b.o");
    parse_data(b, "", &mut kb).unwrap();
    assert!(functions_in_all_objects(&kb).is_empty());
}

#[test]
fn ranking_is_by_count_then_by_identifier() {
    let text = function("one", true, "\tret\n") + &function("three", true, "\tnop\n\tnop\n\tret\n")
        + &function("none", true, "") + &function("two", true, "\tcall\texternal\n\tret\n")
        + &function("three_too", true, "\tnop\n\tnop\n\tret\n");
    let mut kb = ParsedData::new();
    let a = kb.register_object("a.o");
    parse_data(a, &text, &mut kb).unwrap();
    let id = |name: &str| kb.lookup_function(&global(name)).unwrap();
    assert_eq!(id("one"), FunctionID(0));
    assert_eq!(id("external"), FunctionID(5));
    assert_eq!(
        functions_with_most_instructions(&kb),
        vec![(id("three"), 3), (id("three_too"), 3), (id("two"), 2), (id("one"), 1)]
    );
}

#[test]
fn ranking_of_an_empty_base_is_empty() {
    let kb = ParsedData::new();
    assert!(functions_with_most_instructions(&kb).is_empty());
}

#[test]
fn report_lists_objects_callers_and_callees() {
    let first = function("util", true, "\tcall\tmalloc@PLT\n\tcall\thelper\n")
        + &function("helper", false, "\tret\n");
    let second = function("main", true, "\tcall\tutil\n\tcall\tutil\n");
    let mut kb = ParsedData::new();
    let a = kb.register_object("a.o");
    let b = kb.register_object("b.o");
    parse_data(a, &first, &mut kb).unwrap();
    parse_data(b, &second, &mut kb).unwrap();
    let util = kb.lookup_function(&global("util")).unwrap();
    let main = kb.lookup_function(&global("main")).unwrap();
    let malloc = kb.lookup_function(&global("malloc")).unwrap();
    let helper = kb.lookup_function(&local(a, "helper")).unwrap();

    let info = function_info(&kb, &global("util")).unwrap();
    assert_eq!(info.function, util);
    assert_eq!(info.objects, vec![a]);
    assert_eq!(info.callers, vec![main, main]);
    assert_eq!(info.callees, vec![malloc, helper]);

    let info = function_info(&kb, &local(a, "helper")).unwrap();
    assert_eq!(info.function, helper);
    assert_eq!(info.objects, vec![a]);
    assert_eq!(info.callers, vec![util]);
    assert!(info.callees.is_empty());
}

#[test]
fn report_of_an_unknown_function_fails() {
    let mut kb = ParsedData::new();
    let a = kb.register_object("a.o");
    parse_data(a, &function("helper", false, "\tret\n"), &mut kb).unwrap();
    assert_eq!(function_info(&kb, &global("helper")), Err(NotFound));
    assert_eq!(function_info(&kb, &local(ObjectID(1), "helper")), Err(NotFound));
    assert_eq!(function_info(&kb, &local(ObjectID(7), "helper")), Err(NotFound));
    assert_eq!(function_info(&kb, &global("")), Err(NotFound));
    assert!(function_info(&kb, &local(a, "helper")).is_ok());
}

#[test]
fn function_without_instructions_is_not_present() {
    let text = function("empty", true, "") + &function("full", true, "\tret\n");
    let mut kb = ParsedData::new();
    let a = kb.register_object("a.o");
    let b = kb.register_object("b.o");
    parse_data(a, &text, &mut kb).unwrap();
    parse_data(b, &text, &mut kb).unwrap();
    let empty = kb.lookup_function(&global("empty")).unwrap();
    let full = kb.lookup_function(&global("full")).unwrap();
    assert_eq!(kb.objects_of(empty), Some(&vec![a, b]));
    assert_eq!(kb.instructions_of(empty), Some(0));
    assert_eq!(functions_in_all_objects(&kb), vec![full]);
    assert!(function_info(&kb, &global("empty")).is_ok());
}

#[test]
fn definition_in_an_object_that_is_not_parsed_does_not_count() {
    let mut kb = ParsedData::new();
    let pending = kb.register_object("pending.o");
    let f = kb.intern_function(global("f")).unwrap();
    kb.attach_function(f, pending).unwrap();
    kb.count_instructions(f, 2).unwrap();
    assert_eq!(kb.objects_of(f), Some(&vec![pending]));
    assert!(functions_in_all_objects(&kb).is_empty());

    let a = kb.register_object("a.o");
    parse_data(a, &function("f", true, "\tret\n"), &mut kb).unwrap();
    assert_eq!(kb.objects_of(f), Some(&vec![pending, a]));
    assert!(functions_in_all_objects(&kb).is_empty());

    parse_data(pending, &function("f", true, "\tret\n"), &mut kb).unwrap();
    assert_eq!(functions_in_all_objects(&kb), vec![f]);
}
