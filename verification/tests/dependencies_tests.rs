use luat::dependencies::{normalize_module_name, order_sources, topo_sort};

#[test]
fn test_normalize_module_name() {
    assert_eq!(normalize_module_name("test"), "test");
    assert_eq!(normalize_module_name("test.lua"), "test");
    assert_eq!(normalize_module_name("test.luat"), "test");
    assert_eq!(normalize_module_name("path/to/module.luat"), "path/to/module");
}

#[test]
fn test_topo_sort_simple() {
    let deps = vec![
        ("A".to_string(), vec!["B".to_string(), "C".to_string()]),
        ("B".to_string(), vec!["C".to_string()]),
        ("C".to_string(), vec![]),
    ];

    let sorted = topo_sort(&deps).unwrap();

    let c_pos = sorted.iter().position(|x| x == "C").unwrap();
    let b_pos = sorted.iter().position(|x| x == "B").unwrap();
    let a_pos = sorted.iter().position(|x| x == "A").unwrap();

    assert!(c_pos < b_pos, "C should come before B in topological order");
    assert!(b_pos < a_pos, "B should come before A in topological order");
}

#[test]
fn test_topo_sort_cycle() {
    let deps = vec![
        ("A".to_string(), vec!["B".to_string()]),
        ("B".to_string(), vec!["C".to_string()]),
        ("C".to_string(), vec!["A".to_string()]),
    ];

    let result = topo_sort(&deps);
    assert!(result.is_err());
}

#[test]
fn test_order_sources_with_extensions() {
    let sources = vec![
        ("app.luat".to_string(),
         "local Header = require('components/Header.luat')\nreturn {}".to_string()),
        ("components/Header.luat".to_string(),
         "return {}".to_string()),
    ];

    let ordered = order_sources(sources).unwrap();

    assert_eq!(ordered[0].0, "components/Header.luat");
    assert_eq!(ordered[1].0, "app.luat");
}

#[test]
fn test_order_sources_with_mixed_extensions() {
    let sources = vec![
        ("app.luat".to_string(),
         "local Header = require('components/Header')\nreturn {}".to_string()),
        ("components/Header.luat".to_string(),
         "return {}".to_string()),
    ];

    let ordered = order_sources(sources).unwrap();

    assert_eq!(ordered[0].0, "components/Header.luat");
    assert_eq!(ordered[1].0, "app.luat");
}
