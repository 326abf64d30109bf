use olang::ast::Value;
use olang::module_cache::{reachable_from, ModuleDependencyTracker};
use olang::errors::InterpreterError;
use olang::module_store::{enter_module_load, leave_module_load, loading_cycle, ModuleStore};

fn module_value() -> Value {
    Value::Struct {
        struct_name: "Module".to_string(),
        fields: Vec::new(),
    }
}

fn creation_and_retrieval() {
    let mut store = ModuleStore::new();
    assert_eq!(store.module_cache.len(), 0);
    assert!(!store.is_module_cached("test_module"));
    store.cache_module("test_module".to_string(), module_value(), None, Vec::new(), 0);
    assert!(store.is_module_cached("test_module"));
    let cached = store.get_cached_module("test_module", 1, None).unwrap();
    assert_eq!(cached.dependencies.len(), 0);
    let (cached_modules, _, _) = store.get_module_cache_stats();
    assert_eq!(cached_modules, 1);
}

fn dependency_tracking() {
    let mut tracker = ModuleDependencyTracker::new();
    tracker.add_dependency("A".to_string(), "B".to_string());
    tracker.add_dependency("A".to_string(), "C".to_string());
    tracker.add_dependency("B".to_string(), "D".to_string());
    assert_eq!(tracker.dependencies.get("A").unwrap().len(), 2);
    assert!(tracker.dependencies.get("A").unwrap().contains(&"B".to_string()));
    assert!(tracker.dependencies.get("A").unwrap().contains(&"C".to_string()));
    assert_eq!(tracker.dependents.get("B").unwrap().len(), 1);
    assert!(tracker.dependents.get("B").unwrap().contains(&"A".to_string()));
    assert!(!tracker.check_circular_dependency("A", "D"));
    assert!(tracker.check_circular_dependency("D", "A"));
}

fn cache_invalidation() {
    let mut store = ModuleStore::new();
    store.cache_module("module_a".to_string(), module_value(), None, Vec::new(), 0);
    store.cache_module("module_b".to_string(), module_value(), None, Vec::new(), 0);
    store
        .dependency_tracker
        .add_dependency("module_b".to_string(), "module_a".to_string());
    assert!(store.is_module_cached("module_a"));
    assert!(store.is_module_cached("module_b"));
    store.invalidate_module("module_a");
    assert!(!store.is_module_cached("module_a"));
    assert!(!store.is_module_cached("module_b"));
}

fn chain_analysis() {
    let mut store = ModuleStore::new();
    store.dependency_tracker.add_dependency("A".to_string(), "B".to_string());
    store.dependency_tracker.add_dependency("B".to_string(), "C".to_string());
    store.dependency_tracker.add_dependency("C".to_string(), "D".to_string());
    let chain = store.get_dependency_chain("A");
    assert!(chain.contains(&"B".to_string()));
    assert!(chain.contains(&"C".to_string()));
    assert!(chain.contains(&"D".to_string()));
    let graph = store.export_dependency_graph();
    assert!(graph.contains_key("A"));
    assert!(graph.contains_key("B"));
    assert!(graph.contains_key("C"));
}

fn cache_clearing() {
    let mut store = ModuleStore::new();
    store.cache_module("module1".to_string(), module_value(), None, Vec::new(), 0);
    store.cache_module("module2".to_string(), module_value(), None, Vec::new(), 0);
    store
        .dependency_tracker
        .add_dependency("module1".to_string(), "module2".to_string());
    assert!(store.is_module_cached("module1"));
    assert!(store.is_module_cached("module2"));
    assert!(!store.dependency_tracker.dependencies.is_empty());
    store.clear_module_cache();
    assert!(!store.is_module_cached("module1"));
    assert!(!store.is_module_cached("module2"));
    assert!(store.dependency_tracker.dependencies.is_empty());
    assert!(store.dependency_tracker.dependents.is_empty());
}

fn would_create_cycle() {
    let mut store = ModuleStore::new();
    store.dependency_tracker.add_dependency("A".to_string(), "B".to_string());
    store.dependency_tracker.add_dependency("B".to_string(), "C".to_string());
    assert!(!store.would_create_circular_dependency("A", "D"));
    assert!(!store.would_create_circular_dependency("D", "E"));
    assert!(store.would_create_circular_dependency("C", "A"));
    assert!(store.would_create_circular_dependency("C", "B"));
    assert!(store.would_create_circular_dependency("B", "A"));
}

#[test]
fn interpreter_test_module_cache_creation_and_retrieval() {
    creation_and_retrieval();
}

#[test]
fn mod_test_module_cache_creation_and_retrieval() {
    creation_and_retrieval();
}

#[test]
fn interpreter_test_module_dependency_tracking() {
    dependency_tracking();
}

#[test]
fn mod_test_module_dependency_tracking() {
    dependency_tracking();
}

#[test]
fn interpreter_test_module_cache_invalidation() {
    cache_invalidation();
}

#[test]
fn mod_test_module_cache_invalidation() {
    cache_invalidation();
}

#[test]
fn interpreter_test_dependency_chain_analysis() {
    chain_analysis();
}

#[test]
fn mod_test_dependency_chain_analysis() {
    chain_analysis();
}

#[test]
fn interpreter_test_module_cache_clearing() {
    cache_clearing();
}

#[test]
fn mod_test_module_cache_clearing() {
    cache_clearing();
}

#[test]
fn interpreter_test_would_create_circular_dependency() {
    would_create_cycle();
}

#[test]
fn mod_test_would_create_circular_dependency() {
    would_create_cycle();
}

#[test]
fn invalidation_follows_dependents_transitively_and_stops() {
    let mut store = ModuleStore::new();
    for m in ["core", "mid", "top", "other"] {
        store.cache_module(m.to_string(), module_value(), None, Vec::new(), 0);
    }
    store.dependency_tracker.add_dependency("mid".to_string(), "core".to_string());
    store.dependency_tracker.add_dependency("top".to_string(), "mid".to_string());
    // a cycle through the dependents must not keep the invalidation going forever
    store.dependency_tracker.add_dependency("core".to_string(), "top".to_string());
    store.invalidate_module("mid");
    assert!(!store.is_module_cached("mid"));
    assert!(!store.is_module_cached("top"));
    assert!(!store.is_module_cached("core"));
    assert!(store.is_module_cached("other"));
}

#[test]
fn chain_lists_each_dependency_once_in_post_order() {
    let mut store = ModuleStore::new();
    store.dependency_tracker.add_dependency("A".to_string(), "B".to_string());
    store.dependency_tracker.add_dependency("A".to_string(), "C".to_string());
    store.dependency_tracker.add_dependency("B".to_string(), "C".to_string());
    store.dependency_tracker.add_dependency("C".to_string(), "A".to_string());
    let chain = store.get_dependency_chain("A");
    assert_eq!(chain, vec!["A".to_string(), "C".to_string(), "B".to_string()]);
}

#[test]
fn cycles_found_are_cycles() {
    let mut tracker = ModuleDependencyTracker::new();
    tracker.add_dependency("a".to_string(), "b".to_string());
    tracker.add_dependency("b".to_string(), "c".to_string());
    tracker.add_dependency("c".to_string(), "a".to_string());
    tracker.add_dependency("d".to_string(), "d".to_string());
    let cycles = tracker.find_all_cycles();
    assert_eq!(cycles.len(), 2);
    assert_eq!(
        cycles[0],
        vec!["a".to_string(), "b".to_string(), "c".to_string(), "a".to_string()]
    );
    assert_eq!(cycles[1], vec!["d".to_string(), "d".to_string()]);
}

#[test]
fn reachable_set_includes_start() {
    let mut tracker = ModuleDependencyTracker::new();
    tracker.add_dependency("x".to_string(), "y".to_string());
    let r = reachable_from(&tracker.dependencies, "x");
    assert_eq!(r, vec!["x".to_string(), "y".to_string()]);
    let r = reachable_from(&tracker.dependencies, "z");
    assert_eq!(r, vec!["z".to_string()]);
}

#[test]
fn stale_content_hash_invalidates_on_lookup() {
    let mut store = ModuleStore::new();
    store.cache_module("m".to_string(), module_value(), None, Vec::new(), 5);
    assert!(store.get_cached_module("missing", 6, None).is_none());
    assert_eq!(store.cache_misses, 1);
    let hit = store.get_cached_module("m", 7, None).unwrap();
    assert_eq!(hit.access_count, 2);
    assert_eq!(hit.last_accessed, 7);
    assert!(store.get_cached_module("m", 8, Some("different".to_string())).is_none());
    assert_eq!(store.invalidations, 1);
    assert!(!store.is_module_cached("m"));
    assert_eq!(store.cache_hits, 2);
}

#[test]
fn stats_count_edges_from_both_sides() {
    let mut store = ModuleStore::new();
    store.dependency_tracker.add_dependency("a".to_string(), "b".to_string());
    store.dependency_tracker.add_dependency("a".to_string(), "c".to_string());
    assert_eq!(store.get_module_cache_stats(), (0, 2, 2));
    assert_eq!(store.get_module_dependents("b"), vec!["a".to_string()]);
    assert_eq!(store.get_module_dependents("a"), Vec::<String>::new());
}

#[test]
fn diamond_graph_has_no_cycle() {
    let mut tracker = ModuleDependencyTracker::new();
    tracker.add_dependency("app".to_string(), "left".to_string());
    tracker.add_dependency("app".to_string(), "right".to_string());
    tracker.add_dependency("left".to_string(), "base".to_string());
    tracker.add_dependency("right".to_string(), "base".to_string());
    assert!(tracker.find_all_cycles().is_empty());
    tracker.add_dependency("base".to_string(), "app".to_string());
    assert!(!tracker.find_all_cycles().is_empty());
}

#[test]
fn total_cache_memory_sums_estimates() {
    let mut store = ModuleStore::new();
    assert_eq!(store.calculate_total_cache_memory(), 0);
    let two_fields = Value::Struct {
        struct_name: "Module".to_string(),
        fields: vec![
            ("a".to_string(), Value::Integer(1)),
            ("b".to_string(), Value::Integer(2)),
        ],
    };
    store.cache_module("m1".to_string(), two_fields, None, Vec::new(), 0);
    store.cache_module("m2".to_string(), Value::Integer(7), None, Vec::new(), 0);
    assert_eq!(store.calculate_total_cache_memory(), 128 + 64);
}

#[test]
fn loading_a_module_again_reports_the_cycle() {
    let stack = vec!["main".to_string(), "a".to_string(), "b".to_string()];
    match loading_cycle(&stack, "a") {
        Some(InterpreterError::CircularDependencyDetected { cycle_path }) => {
            assert_eq!(cycle_path, "a → b → a")
        }
        _ => panic!("expected a cycle"),
    }
    assert!(loading_cycle(&stack, "c").is_none());
    assert!(loading_cycle(&Vec::new(), "a").is_none());
}

#[test]
fn intelligent_cleanup_evicts_down_to_four_fifths() {
    let mut store = ModuleStore::new();
    for name in ["a", "b", "c", "d", "e", "f"] {
        store.cache_module(name.to_string(), Value::Integer(1), None, Vec::new(), 0);
    }
    assert_eq!(store.intelligent_cleanup_count(100, 10), 0);
    assert_eq!(store.intelligent_cleanup_count(100, 5), 2);
    assert_eq!(store.intelligent_cleanup_count(0, 10), 0);
    assert_eq!(store.intelligent_cleanup_count(0, 3), 4);
}

#[test]
fn dependents_mirror_dependencies() {
    let mut tracker = ModuleDependencyTracker::new();
    tracker.add_dependency("a".to_string(), "b".to_string());
    tracker.add_dependency("a".to_string(), "c".to_string());
    tracker.add_dependency("d".to_string(), "b".to_string());
    tracker.add_dependency("a".to_string(), "b".to_string());
    assert_eq!(
        tracker.dependents.get("b"),
        Some(&vec!["a".to_string(), "d".to_string(), "a".to_string()])
    );
    assert_eq!(tracker.dependents.get("c"), Some(&vec!["a".to_string()]));
    assert_eq!(tracker.dependents.get("a"), None);
}

#[test]
fn cycles_are_simple_and_self_loops_are_listed() {
    let mut tracker = ModuleDependencyTracker::new();
    tracker.add_dependency("A".to_string(), "B".to_string());
    tracker.add_dependency("A".to_string(), "C".to_string());
    tracker.add_dependency("B".to_string(), "C".to_string());
    tracker.add_dependency("C".to_string(), "A".to_string());
    tracker.add_dependency("B".to_string(), "B".to_string());
    let cycles = tracker.find_all_cycles();
    assert!(cycles.contains(&vec!["B".to_string(), "B".to_string()]));
    assert!(cycles.contains(&vec!["A".to_string(), "B".to_string(), "C".to_string(), "A".to_string()]));
    for c in &cycles {
        let body = &c[..c.len() - 1];
        for i in 0..body.len() {
            for j in i + 1..body.len() {
                assert_ne!(body[i], body[j]);
            }
        }
    }
}

#[test]
fn chain_lists_dependencies_before_their_dependents() {
    let mut store = ModuleStore::new();
    store.dependency_tracker.add_dependency("A".to_string(), "B".to_string());
    store.dependency_tracker.add_dependency("B".to_string(), "C".to_string());
    store.dependency_tracker.add_dependency("C".to_string(), "D".to_string());
    assert_eq!(
        store.get_dependency_chain("A"),
        vec!["D".to_string(), "C".to_string(), "B".to_string()]
    );
}

#[test]
fn loading_stack_is_entered_and_left() {
    let mut stack: Vec<String> = Vec::new();
    let h1 = enter_module_load(&mut stack, "main").ok().unwrap();
    let h2 = enter_module_load(&mut stack, "a").ok().unwrap();
    assert_eq!((h1, h2), (1, 2));
    assert!(matches!(
        enter_module_load(&mut stack, "main"),
        Err(InterpreterError::CircularDependencyDetected { .. })
    ));
    assert_eq!(stack, vec!["main".to_string(), "a".to_string()]);
    leave_module_load(&mut stack, h2);
    assert_eq!(stack, vec!["main".to_string()]);
    leave_module_load(&mut stack, h2);
    assert_eq!(stack, vec!["main".to_string()]);
    leave_module_load(&mut stack, h1);
    assert!(stack.is_empty());
}

#[test]
fn disjoint_cycles_are_both_reported() {
    let mut tracker = ModuleDependencyTracker::new();
    tracker.add_dependency("a".to_string(), "b".to_string());
    tracker.add_dependency("b".to_string(), "a".to_string());
    tracker.add_dependency("c".to_string(), "d".to_string());
    tracker.add_dependency("d".to_string(), "c".to_string());
    let cycles = tracker.find_all_cycles();
    assert_eq!(cycles.len(), 2);
    assert!(cycles.iter().any(|c| c.contains(&"a".to_string())));
    assert!(cycles.iter().any(|c| c.contains(&"c".to_string())));
}
