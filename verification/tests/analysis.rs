use code_depth::analyze::entry_flagged;
use code_depth::analyze::find_items_with_different_depths;
use code_depth::analyze::get_function_depths;
use code_depth::bootstrap::check_capabilities;
use code_depth::bootstrap::Capability;
use code_depth::graph::edges_for_target;
use code_depth::graph::find_roots;
use code_depth::graph::get_depths;
use code_depth::indexer::filter_project_files;
use code_depth::indexer::retry_budget;
use code_depth::indexer::retry_step;
use code_depth::indexer::workspace_queries;
use code_depth::indexer::RetryDecision;
use code_depth::indexer::INDEXING_ERROR_CODE;
use code_depth::item::same_item;
use code_depth::item::CallItem;
use code_depth::item::Pos;
use code_depth::item::Span;
use code_depth::item::SymKind;
use code_depth::names::build_call_hierarchy_item_name;
use code_depth::names::build_short_fn_depths;

fn span(line: u32) -> Span {
    Span {
        start: Pos { line, character: 4 },
        end: Pos { line, character: 8 },
    }
}

fn item(uri: &str, name: &str) -> CallItem {
    CallItem {
        uri: uri.as_bytes().to_vec(),
        name: name.as_bytes().to_vec(),
        kind: SymKind::Function,
        tags: None,
        detail: None,
        range: span(0),
        selection_range: span(0),
        data: None,
    }
}

fn path_names(path: &[CallItem]) -> Vec<Vec<u8>> {
    path.iter().map(|h| h.name.clone()).collect()
}

#[test]
fn identity_ignores_token_and_tags() {
    let a = item("file:///proj/a.rs", "f");
    let mut b = item("file:///proj/a.rs", "f");
    b.data = Some(b"opaque-token".to_vec());
    b.tags = Some(vec![1]);
    b.detail = Some(b"fn f()".to_vec());
    assert!(same_item(&a, &b));
}

#[test]
fn identity_separates_key_fields() {
    let a = item("file:///proj/a.rs", "f");
    let other_file = item("file:///proj/b.rs", "f");
    let other_name = item("file:///proj/a.rs", "g");
    let mut other_sel = item("file:///proj/a.rs", "f");
    other_sel.selection_range = span(7);
    assert!(!same_item(&a, &other_file));
    assert!(!same_item(&a, &other_name));
    assert!(!same_item(&a, &other_sel));
}

#[test]
fn roots_are_callers_never_called() {
    let a = item("file:///proj/a.rs", "A");
    let b = item("file:///proj/b.rs", "B");
    let c = item("file:///proj/c.rs", "C");
    let d = item("file:///proj/d.rs", "D");
    let edges = vec![
        (a.clone(), b.clone()),
        (b.clone(), c.clone()),
        (d.clone(), c.clone()),
    ];
    let roots = find_roots(&edges);
    let names: Vec<Vec<u8>> = roots.iter().map(|r| r.name.clone()).collect();
    assert_eq!(names, vec![b"A".to_vec(), b"D".to_vec()]);
}

#[test]
fn root_has_its_one_hop_path() {
    let a = item("file:///proj/a.rs", "A");
    let b = item("file:///proj/b.rs", "B");
    let edges = vec![(a.clone(), b.clone())];
    let depths = get_function_depths(&edges);
    let a_entry = depths.iter().find(|e| same_item(&e.0, &a)).unwrap();
    assert_eq!(a_entry.1.len(), 1);
    assert_eq!(a_entry.1[0].len(), 1);
    assert!(same_item(&a_entry.1[0][0], &a));
}

#[test]
fn cycle_traversal_terminates_with_simple_paths() {
    let r = item("file:///proj/r.rs", "R");
    let a = item("file:///proj/a.rs", "A");
    let b = item("file:///proj/b.rs", "B");
    let edges = vec![
        (r.clone(), a.clone()),
        (a.clone(), b.clone()),
        (b.clone(), a.clone()),
    ];
    let paths = get_depths(&edges);
    // paths: [R], [R,A], [R,A,B]; the cycle edge B->A cannot extend
    // [R,A,B] because A is already a hop
    assert_eq!(paths.len(), 3);
    for p in &paths {
        assert!(same_item(&p[0], &r));
        for x in 0..p.len() {
            for y in 0..p.len() {
                if x != y {
                    assert!(!same_item(&p[x], &p[y]));
                }
            }
        }
    }
}

#[test]
fn aggregation_unions_paths_across_roots() {
    let a = item("file:///proj/a.rs", "A");
    let b = item("file:///proj/b.rs", "B");
    let c = item("file:///proj/c.rs", "C");
    let edges = vec![(a.clone(), c.clone()), (b.clone(), c.clone())];
    let depths = get_function_depths(&edges);
    let c_entry = depths.iter().find(|e| same_item(&e.0, &c)).unwrap();
    let mut got: Vec<Vec<Vec<u8>>> = c_entry.1.iter().map(|p| path_names(p)).collect();
    got.sort();
    let mut want = vec![
        vec![b"A".to_vec(), b"C".to_vec()],
        vec![b"B".to_vec(), b"C".to_vec()],
    ];
    want.sort();
    assert_eq!(got, want);
}

#[test]
fn flags_lengths_2_2_3_with_fresh_hop() {
    let x = item("file:///proj/x.rs", "X");
    let r1 = item("file:///proj/r1.rs", "R1");
    let r2 = item("file:///proj/r2.rs", "R2");
    let r3 = item("file:///proj/r3.rs", "R3");
    let m = item("file:///proj/m.rs", "M");
    let paths = vec![
        vec![r1.clone(), x.clone()],
        vec![r2.clone(), x.clone()],
        vec![r3.clone(), m.clone(), x.clone()],
    ];
    assert!(entry_flagged(&x, &paths));
}

#[test]
fn does_not_flag_when_extra_hop_repeats() {
    let y = item("file:///proj/y.rs", "Y");
    let r = item("file:///proj/r.rs", "R");
    let m = item("file:///proj/m.rs", "M");
    let paths = vec![
        vec![m.clone(), y.clone()],
        vec![r.clone(), m.clone(), y.clone()],
    ];
    assert!(!entry_flagged(&y, &paths));
}

#[test]
fn full_scenario_flags_only_c() {
    // project root file:///proj/; A and D are roots; C is reached by
    // [A,B,C] (depth 3) and [D,C] (depth 2) with no shared hop
    let a = item("file:///proj/a.rs", "A");
    let b = item("file:///proj/b.rs", "B");
    let c = item("file:///proj/c.rs", "C");
    let d = item("file:///proj/d.rs", "D");
    let edges = vec![
        (a.clone(), b.clone()),
        (b.clone(), c.clone()),
        (d.clone(), c.clone()),
    ];
    let depths = get_function_depths(&edges);
    let c_entry = depths.iter().find(|e| same_item(&e.0, &c)).unwrap();
    let mut got: Vec<Vec<Vec<u8>>> = c_entry.1.iter().map(|p| path_names(p)).collect();
    got.sort();
    assert_eq!(
        got,
        vec![
            vec![b"A".to_vec(), b"B".to_vec(), b"C".to_vec()],
            vec![b"D".to_vec(), b"C".to_vec()],
        ]
    );
    let problems = find_items_with_different_depths(&depths);
    assert_eq!(problems.len(), 1);
    assert!(same_item(&problems[0], &c));
}

#[test]
fn callers_outside_root_never_become_edges() {
    let target = item("file:///proj/t.rs", "T");
    let inside = item("file:///proj/in.rs", "I");
    let outside = item("file:///lib/out.rs", "O");
    let root = b"file:///proj/".to_vec();
    let callers = vec![outside.clone(), inside.clone()];
    let edges = edges_for_target(&callers, &target, &root);
    assert_eq!(edges.len(), 1);
    assert!(same_item(&edges[0].0, &inside));
    assert!(same_item(&edges[0].1, &target));
}

#[test]
fn project_file_filter_dedups_and_bounds() {
    let root = b"file:///proj/".to_vec();
    let uris = vec![
        b"file:///proj/a.rs".to_vec(),
        b"file:///lib/core.rs".to_vec(),
        b"file:///proj/a.rs".to_vec(),
        b"file:///proj/b.rs".to_vec(),
    ];
    let kept = filter_project_files(&uris, &root);
    assert_eq!(kept, vec![b"file:///proj/a.rs".to_vec(), b"file:///proj/b.rs".to_vec()]);
}

#[test]
fn exactly_five_retries_for_500ms_at_100ms() {
    let mut left = retry_budget(500, 100);
    assert_eq!(left, 5);
    let mut retries = 0;
    loop {
        let (decision, next) = retry_step(left, INDEXING_ERROR_CODE);
        left = next;
        match decision {
            RetryDecision::Retry => retries += 1,
            RetryDecision::Timeout => break,
            RetryDecision::Fatal => panic!("unexpected fatal"),
        }
    }
    assert_eq!(retries, 5);
}

#[test]
fn unexpected_error_code_is_fatal_not_retried() {
    let (decision, left) = retry_step(5, -32601);
    assert_eq!(decision, RetryDecision::Fatal);
    assert_eq!(left, 5);
}

#[test]
fn query_plan_is_marker_empty_then_letters() {
    let queries = workspace_queries();
    assert_eq!(queries.len(), 28);
    assert_eq!(queries[0], b"#".to_vec());
    assert_eq!(queries[1], b"".to_vec());
    assert_eq!(queries[2], b"a".to_vec());
    assert_eq!(queries[27], b"z".to_vec());
}

#[test]
fn bootstrap_requires_all_three_capabilities() {
    assert!(check_capabilities(
        &Capability::Flag(true),
        &Capability::WithOptions,
        &Capability::Flag(true),
    ));
    assert!(!check_capabilities(
        &Capability::Flag(true),
        &Capability::Flag(true),
        &Capability::Absent,
    ));
    assert!(!check_capabilities(
        &Capability::Flag(false),
        &Capability::Flag(true),
        &Capability::Flag(true),
    ));
}

#[test]
fn short_name_trims_root_and_parameter_list() {
    let it = item("file:///proj/src/a.rs", "method(x: u32)");
    let root = b"file:///proj/".to_vec();
    let name = build_call_hierarchy_item_name(&it, &root);
    assert_eq!(name, b"src/a.rs:method".to_vec());
    // a file outside the root keeps its full URI
    let out = item("file:///lib/b.rs", "free");
    let name2 = build_call_hierarchy_item_name(&out, &root);
    assert_eq!(name2, b"file:///lib/b.rs:free".to_vec());
}

#[test]
fn short_depths_project_every_hop() {
    let a = item("file:///proj/a.rs", "A");
    let b = item("file:///proj/b.rs", "B");
    let edges = vec![(a.clone(), b.clone())];
    let root = b"file:///proj/".to_vec();
    let depths = get_function_depths(&edges);
    let short = build_short_fn_depths(&root, &depths);
    assert_eq!(short.len(), depths.len());
    let b_short = short
        .iter()
        .find(|e| e.0 == b"b.rs:B".to_vec())
        .expect("entry for B");
    assert!(b_short
        .1
        .iter()
        .any(|p| p == &vec![b"a.rs:A".to_vec(), b"b.rs:B".to_vec()]));
}
