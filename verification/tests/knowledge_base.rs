use asm_callgraph::knowledge::{
    FunctionID, FunctionName, GlobalFunctionName, LocalFunctionName, NotFound, ObjectID,
    ObjectName, ParsedData,
};

fn global(name: &str) -> FunctionName {
    FunctionName::Global(GlobalFunctionName { name: name.to_owned() })
}

fn local(object: ObjectID, name: &str) -> FunctionName {
    FunctionName::Local(LocalFunctionName { object, name: name.to_owned() })
}

#[test]
fn objects_are_registered_once() {
    let mut kb = ParsedData::new();
    assert_eq!(kb.lookup_object("a.o"), None);
    let a = kb.register_object("a.o");
    let b = kb.register_object("dir/b.o");
    assert_eq!(a, ObjectID(0));
    assert_eq!(b, ObjectID(1));
    assert_eq!(kb.register_object("a.o"), a);
    assert_eq!(kb.object_count(), 2);
    assert_eq!(kb.lookup_object("dir/b.o"), Some(b));
    assert_eq!(kb.object_name(b), Some(&ObjectName { path: "dir/b.o".to_owned() }));
    assert_eq!(kb.object_name(ObjectID(2)), None);
    assert_eq!(kb.is_parsed(a), Some(false));
    assert_eq!(kb.is_parsed(ObjectID(2)), None);
    assert_eq!(kb.functions_of(a), Some(&vec![]));
    assert_eq!(kb.functions_of(ObjectID(2)), None);
}

#[test]
fn identities_are_interned_once() {
    let mut kb = ParsedData::new();
    let a = kb.register_object("a.o");
    let b = kb.register_object("b.o");
    let g = kb.intern_function(global("f")).unwrap();
    let la = kb.intern_function(local(a, "f")).unwrap();
    let lb = kb.intern_function(local(b, "f")).unwrap();
    assert_eq!((g, la, lb), (FunctionID(0), FunctionID(1), FunctionID(2)));
    assert_eq!(kb.intern_function(global("f")), Ok(g));
    assert_eq!(kb.intern_function(local(a, "f")), Ok(la));
    assert_eq!(kb.intern_function(local(b, "f")), Ok(lb));
    assert_eq!(kb.function_count(), 3);
    assert_eq!(kb.lookup_function(&local(b, "f")), Some(lb));
    assert_eq!(kb.lookup_function(&local(b, "g")), None);
    assert_eq!(kb.function_name(la), Some(&local(a, "f")));
    assert_eq!(kb.function_name(FunctionID(3)), None);
    assert_eq!(kb.instructions_of(g), Some(0));
}

#[test]
fn local_identity_needs_a_registered_object() {
    let mut kb = ParsedData::new();
    assert_eq!(kb.intern_function(local(ObjectID(0), "f")), Err(NotFound));
    assert_eq!(kb.function_count(), 0);
    assert_eq!(kb.lookup_function(&local(ObjectID(0), "f")), None);
}

#[test]
fn calls_are_recorded_in_both_directions() {
    let mut kb = ParsedData::new();
    let f = kb.intern_function(global("f")).unwrap();
    let g = kb.intern_function(global("g")).unwrap();
    assert_eq!(kb.record_call(f, g), Ok(()));
    assert_eq!(kb.record_call(f, g), Ok(()));
    assert_eq!(kb.record_call(g, g), Ok(()));
    assert_eq!(kb.callees_of(f), Some(&vec![g, g]));
    assert_eq!(kb.callers_of(g), Some(&vec![f, f, g]));
    assert_eq!(kb.callees_of(g), Some(&vec![g]));
    assert_eq!(kb.callers_of(f), Some(&vec![]));
    assert_eq!(kb.record_call(f, FunctionID(2)), Err(NotFound));
    assert_eq!(kb.record_call(FunctionID(2), f), Err(NotFound));
    assert_eq!(kb.callees_of(f), Some(&vec![g, g]));
    assert_eq!(kb.callees_of(FunctionID(2)), None);
    assert_eq!(kb.callers_of(FunctionID(2)), None);
}

#[test]
fn definitions_are_recorded_once() {
    let mut kb = ParsedData::new();
    let a = kb.register_object("a.o");
    let b = kb.register_object("b.o");
    let f = kb.intern_function(global("f")).unwrap();
    assert_eq!(kb.attach_function(f, b), Ok(()));
    assert_eq!(kb.attach_function(f, a), Ok(()));
    assert_eq!(kb.attach_function(f, b), Ok(()));
    assert_eq!(kb.objects_of(f), Some(&vec![b, a]));
    assert_eq!(kb.functions_of(a), Some(&vec![f]));
    assert_eq!(kb.functions_of(b), Some(&vec![f]));
    assert_eq!(kb.attach_function(FunctionID(1), a), Err(NotFound));
    assert_eq!(kb.attach_function(f, ObjectID(2)), Err(NotFound));
    assert_eq!(kb.objects_of(f), Some(&vec![b, a]));
    assert_eq!(kb.objects_of(FunctionID(1)), None);
}

#[test]
fn instruction_counts_add_up_and_stop_at_the_limit() {
    let mut kb = ParsedData::new();
    let f = kb.intern_function(global("f")).unwrap();
    assert_eq!(kb.count_instructions(f, 2), Ok(()));
    assert_eq!(kb.count_instructions(f, 3), Ok(()));
    assert_eq!(kb.instructions_of(f), Some(5));
    assert_eq!(kb.count_instructions(f, usize::MAX - 5), Ok(()));
    assert_eq!(kb.instructions_of(f), Some(usize::MAX));
    assert_eq!(kb.count_instructions(f, 1), Ok(()));
    assert_eq!(kb.instructions_of(f), Some(usize::MAX));
    assert_eq!(kb.count_instructions(FunctionID(1), 1), Err(NotFound));
    assert_eq!(kb.instructions_of(FunctionID(1)), None);
}

#[test]
fn default_base_is_empty() {
    let kb = ParsedData::default();
    assert_eq!(kb.object_count(), 0);
    assert_eq!(kb.function_count(), 0);
    assert_eq!(kb.lookup_function(&global("f")), None);
    assert_eq!(kb.lookup_object(""), None);
}
