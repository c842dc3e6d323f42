use chappie::function::{lookup, register, FunctionFn, FunctionPlugin, FunctionRegistry, Plugin};

#[test]
fn register_then_lookup_finds_function() {
    let mut registry = FunctionRegistry::new();
    assert_eq!(lookup(&registry, "hello"), None);
    register(&mut registry, "hello", FunctionFn::Hello);
    register(&mut registry, "items", FunctionFn::ItemData);
    assert_eq!(lookup(&registry, "hello"), Some(FunctionFn::Hello));
    assert_eq!(lookup(&registry, "items"), Some(FunctionFn::ItemData));
    assert_eq!(lookup(&registry, "other"), None);
    register(&mut registry, "hello", FunctionFn::PgHeapTuple);
    assert_eq!(lookup(&registry, "hello"), Some(FunctionFn::PgHeapTuple));
    assert_eq!(lookup(&registry, "items"), Some(FunctionFn::ItemData));
}

#[test]
fn plugin_lists_builtins_sorted() {
    let plugin = FunctionPlugin::new();
    assert_eq!(
        plugin.list(),
        "* format_va_extinfo\n* format_varatt_external\n* hello\n* item_data\n* pg_heap_tuple\n* pg_page_header"
    );
    let mut names = plugin.list_registered_functions();
    names.sort();
    assert_eq!(
        names,
        vec![
            "format_va_extinfo",
            "format_varatt_external",
            "hello",
            "item_data",
            "pg_heap_tuple",
            "pg_page_header"
        ]
    );
}

#[test]
fn plugin_eval_runs_named_function() {
    let plugin = FunctionPlugin::new();
    assert_eq!(plugin.eval("hello", &[1, 2, 3]), "hello");
    assert_eq!(plugin.eval("nothing", &[1, 2, 3]), "no function call");
    assert_eq!(plugin.eval("item_data", &[1, 2]), "item_ids < 4");
    assert_eq!(plugin.eval("format_varatt_external", &[0; 4]), "buf < 18");
    assert_eq!(plugin.eval("pg_page_header", &[0; 8]), "pg_page_header < 24");
    assert_eq!(plugin.eval("pg_heap_tuple", &[0; 8]), "heap_tuple_header < 23");
    assert_eq!(plugin.eval("format_va_extinfo", &[0; 2]), "buf < 4");
}

#[test]
fn function_call_matches_registered_call() {
    let buf = [0u8; 30];
    let plugin = FunctionPlugin::new();
    assert_eq!(plugin.eval("pg_page_header", &buf), FunctionFn::PgPageHeader.call(&buf));
}
