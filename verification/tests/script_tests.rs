use luat::script_processor::process_script_content;
use luat::sourcemap::BundleSourceMap;

#[test]
fn test_process_basic_magic_function() {
    let input = "local ok = $state(false)";
    let expected = "-- LUAT magic function $state will be implemented in future\nlocal ok = false";
    assert_eq!(process_script_content(input), expected);
}

#[test]
fn test_process_magic_function_with_default() {
    let input = "let conditionalok = $state(hello, \"no value\")";
    let expected = "-- LUAT magic function $state will be implemented in future\nlet conditionalok = hello or \"no value\"";
    assert_eq!(process_script_content(input), expected);
}

#[test]
fn test_process_derived_function() {
    let input = "local calc = $derived(function() return \"Calculated: \" .. ok end)";
    let expected = "-- LUAT magic function $derived will be implemented in future\nlocal calc = function() return \"Calculated: \" .. ok end";
    assert_eq!(process_script_content(input), expected);
}

#[test]
fn test_process_empty_magic_function() {
    let input = "local something = $init()";
    let expected = "-- LUAT magic function $init will be implemented in future\nlocal something = nil";
    assert_eq!(process_script_content(input), expected);
}

#[test]
fn test_bundle_source_map_find_module() {
    let mut source_map = BundleSourceMap::new();

    source_map.add_module("ModuleA", "path/to/A.luat", 10, "line1\nline2\nline3");
    source_map.add_module("ModuleB", "path/to/B.luat", 20, "line1\nline2\nline3\nline4\nline5");

    let result = source_map.find_module_by_line(12);
    assert!(result.is_some());
    let (name, _info, relative_line) = result.unwrap();
    assert_eq!(name, "ModuleA");
    assert_eq!(relative_line, 3);

    let result = source_map.find_module_by_line(22);
    assert!(result.is_some());
    let (name, _info, relative_line) = result.unwrap();
    assert_eq!(name, "ModuleB");
    assert_eq!(relative_line, 3);
}
