use lisa::header::{build_header_tree, get_included_sys_header, get_layer_child, is_a_lib_header, parse_dependency_tree, TraceError, TreeNode};
use lisa::include_graph::{get_include_lib_headers, get_include_sys_headers, get_include_sys_headers_str, get_independent_headers, greedy_cover, HeaderCache, IncludeGraph};

fn names_of(t: &TreeNode) -> Vec<(usize, String)> {
    (0..t.size()).map(|k| (t.depth_at(k), t.name_at(k).clone())).collect()
}

#[test]
fn test_get_independent_headers() {
    let mut root1 = TreeNode::new("header1.h".to_string());
    let mut child1 = TreeNode::new("child1.h".to_string());
    let child2 = TreeNode::new("child2.h".to_string());
    child1.add_child(child2);
    root1.add_child(child1);

    let mut root2 = TreeNode::new("header2.h".to_string());
    let child3 = TreeNode::new("child3.h".to_string());
    root2.add_child(child3);

    let trees = vec![root1, root2];
    let result = get_independent_headers(&trees);

    assert_eq!(result.len(), 2);
    assert!(result.contains(&"header1.h".to_string()));
    assert!(result.contains(&"header2.h".to_string()));
    assert!(!result.contains(&"child1.h".to_string()));
    assert!(!result.contains(&"child2.h".to_string()));
    assert!(!result.contains(&"child3.h".to_string()));
}

#[test]
fn test_get_independent_headers_complex() {
    let mut root1 = TreeNode::new("main.h".to_string());
    let mut common = TreeNode::new("common.h".to_string());
    let util1 = TreeNode::new("util1.h".to_string());
    let util2 = TreeNode::new("util2.h".to_string());
    common.add_child(util1);
    common.add_child(util2);
    root1.add_child(common);

    let mut root2 = TreeNode::new("secondary.h".to_string());
    let mut helper = TreeNode::new("helper.h".to_string());
    let base = TreeNode::new("base.h".to_string());
    helper.add_child(base);
    root2.add_child(helper);

    let trees = vec![root1, root2];
    let result = get_independent_headers(&trees);

    assert_eq!(result.len(), 2);
    assert!(result.contains(&"main.h".to_string()));
    assert!(result.contains(&"secondary.h".to_string()));
    assert!(!result.contains(&"common.h".to_string()));
    assert!(!result.contains(&"util1.h".to_string()));
    assert!(!result.contains(&"util2.h".to_string()));
    assert!(!result.contains(&"helper.h".to_string()));
    assert!(!result.contains(&"base.h".to_string()));
}

#[test]
fn test_get_independent_headers_circular() {
    let mut node_a = TreeNode::new("A.h".to_string());
    let mut node_b = TreeNode::new("B.h".to_string());
    let mut node_c = TreeNode::new("C.h".to_string());
    node_c.add_child(TreeNode::new("A.h".to_string()));
    node_b.add_child(node_c);
    node_a.add_child(node_b);

    let mut node_d = TreeNode::new("D.h".to_string());
    let node_e = TreeNode::new("E.h".to_string());
    node_d.add_child(node_e);

    let trees = vec![node_a, node_d];
    let result = get_independent_headers(&trees);

    assert!(!result.is_empty());
    assert!(result.contains(&"D.h".to_string()));
    println!("Circular dependency test result: {:?}", result);
}

#[test]
fn test_get_independent_headers_all_circular() {
    let mut node_x = TreeNode::new("X.h".to_string());
    let mut node_y = TreeNode::new("Y.h".to_string());
    let mut node_z = TreeNode::new("Z.h".to_string());
    node_z.add_child(TreeNode::new("X.h".to_string()));
    node_y.add_child(node_z);
    node_x.add_child(node_y);

    let mut node_p = TreeNode::new("P.h".to_string());
    let mut node_q = TreeNode::new("Q.h".to_string());
    node_q.add_child(TreeNode::new("P.h".to_string()));
    node_p.add_child(node_q);

    let trees = vec![node_x, node_p];
    let result = get_independent_headers(&trees);

    assert!(!result.is_empty());
    assert!(result.len() <= 2);
    println!("All circular dependency test result: {:?}", result);
    let has_main_tree_coverage = result.contains(&"X.h".to_string())
        || result.contains(&"Y.h".to_string())
        || result.contains(&"Z.h".to_string());
    let has_second_tree_coverage =
        result.contains(&"P.h".to_string()) || result.contains(&"Q.h".to_string());
    assert!(has_main_tree_coverage, "Should cover the main dependency tree");
    assert!(has_second_tree_coverage, "Should cover the second dependency tree");
}

#[test]
fn independent_headers_come_sorted() {
    let trees = vec![
        TreeNode::new("zeta.h".to_string()),
        TreeNode::new("alpha.h".to_string()),
        TreeNode::new("mid.h".to_string()),
        TreeNode::new("alpha.h".to_string()),
    ];
    let result = get_independent_headers(&trees);
    assert_eq!(result, vec!["alpha.h".to_string(), "mid.h".to_string(), "zeta.h".to_string()]);
}

#[test]
fn independent_headers_of_empty_forest() {
    let trees: Vec<TreeNode> = Vec::new();
    assert!(get_independent_headers(&trees).is_empty());
}

#[test]
fn all_circular_single_cycle_is_one_header() {
    // A includes B includes A: one header covers the whole cycle.
    let mut a = TreeNode::new("A.h".to_string());
    let mut b = TreeNode::new("B.h".to_string());
    b.add_child(TreeNode::new("A.h".to_string()));
    a.add_child(b);
    let result = get_independent_headers(&vec![a]);
    assert_eq!(result, vec!["A.h".to_string()]);
}

#[test]
fn greedy_cover_prefers_widest_reach() {
    // X -> Y -> Z -> X, and W -> Y: every header is included by another.
    let mut x = TreeNode::new("X.h".to_string());
    let mut y = TreeNode::new("Y.h".to_string());
    let mut z = TreeNode::new("Z.h".to_string());
    z.add_child(TreeNode::new("X.h".to_string()));
    y.add_child(z);
    x.add_child(y);
    let mut w = TreeNode::new("W.h".to_string());
    w.add_child(TreeNode::new("Y.h".to_string()));
    let mut y2 = TreeNode::new("Y.h".to_string());
    y2.add_child(TreeNode::new("W.h".to_string()));
    let trees = vec![x, w, y2];
    let g = IncludeGraph::from_trees(&trees);
    let cover = greedy_cover(&g);
    assert_eq!(cover.len(), 1);
    let result = get_independent_headers(&trees);
    assert_eq!(result.len(), 1);
}

#[test]
fn two_headers_one_including_the_other() {
    // a.h is empty; b.h includes a.h.
    let a = build_header_tree("", "./a.h", "/lib/include").ok().unwrap();
    let b = build_header_tree(". /lib/include/a.h\n", "./b.h", "/lib/include").ok().unwrap();
    assert_eq!(b.get_name(), "b.h");
    assert_eq!(names_of(&b), vec![(0, "b.h".to_string()), (1, "a.h".to_string())]);
    let required = get_include_lib_headers(&vec![a, b]);
    assert_eq!(required, vec!["b.h".to_string()]);
}

#[test]
fn trace_line_without_space_is_refused() {
    let r = parse_dependency_tree(". /inc/a.h\nbroken\n", "./x.h", "/inc");
    assert_eq!(r.err(), Some(TraceError::MissingSpace("broken".to_string())));
}

#[test]
fn trace_keeps_only_headers_under_the_directory() {
    let trace = ". /inc/a.h\n.. /usr/include/stdio.h\n.. /inc/b.hpp\n. /inc/c.txt\n. /inc/d.hxx\n";
    let t = parse_dependency_tree(trace, "./top.h", "/inc").ok().unwrap();
    assert_eq!(
        names_of(&t),
        vec![
            (0, "top.h".to_string()),
            (1, "/inc/a.h".to_string()),
            (2, "/inc/b.hpp".to_string()),
            (1, "/inc/d.hxx".to_string()),
        ]
    );
}

#[test]
fn cleaned_names_round_trip_to_the_directory() {
    let trace = ". /inc/sub/a.h\n.. /inc/b.h\n";
    let t = build_header_tree(trace, "./top.h", "/inc").ok().unwrap();
    for k in 1..t.size() {
        let n = t.name_at(k);
        assert!(!n.starts_with('/'));
        assert!(format!("/inc/{}", n) == "/inc/sub/a.h" || format!("/inc/{}", n) == "/inc/b.h");
    }
    assert_eq!(t.name_at(1), "sub/a.h");
    assert_eq!(t.name_at(2), "b.h");
}

#[test]
fn layers_rebuild_nesting() {
    let nodes = vec![
        (1, "a.h".to_string()),
        (3, "b.h".to_string()),
        (3, "c.h".to_string()),
        (2, "d.h".to_string()),
        (1, "./e.h".to_string()),
    ];
    let trees = get_layer_child(nodes, 1);
    assert_eq!(trees.len(), 2);
    assert_eq!(
        names_of(&trees[0]),
        vec![
            (0, "a.h".to_string()),
            (1, "b.h".to_string()),
            (2, "c.h".to_string()),
            (1, "d.h".to_string()),
        ]
    );
    assert_eq!(names_of(&trees[1]), vec![(0, "e.h".to_string())]);
}

#[test]
fn invalid_tree_is_recognised() {
    let t = TreeNode::new_invalid();
    assert!(t.is_invalid());
    let mut u = TreeNode::new("x.h".to_string());
    assert!(!u.is_invalid());
    u.set_name("y.h".to_string());
    assert_eq!(u.get_name(), "y.h");
}

#[test]
fn node_names_lose_dot_slash() {
    let t = TreeNode::new("./dir/./x.h".to_string());
    assert_eq!(t.get_name(), "dir/x.h");
}

#[test]
fn lib_and_sys_headers_are_told_apart() {
    assert!(is_a_lib_header("png.h"));
    assert!(!is_a_lib_header("/usr/include/stdio.h"));
    assert!(is_a_lib_header(""));
}

#[test]
fn system_headers_of_library_headers() {
    let mut top = TreeNode::new("top.h".to_string());
    let mut inner = TreeNode::new("inner.h".to_string());
    let mut sys = TreeNode::new("/usr/include/stdint.h".to_string());
    sys.add_child(TreeNode::new("/usr/include/bits/types.h".to_string()));
    inner.add_child(sys);
    top.add_child(inner);
    top.add_child(TreeNode::new("/usr/lib/gcc/include/stddef.h".to_string()));
    top.add_child(TreeNode::new("/opt/weird.h".to_string()));
    top.add_child(TreeNode::new("/usr/include/stdint.h".to_string()));
    let direct = get_included_sys_header(&top);
    assert_eq!(
        direct,
        vec![
            "/usr/include/stdint.h".to_string(),
            "/usr/lib/gcc/include/stddef.h".to_string(),
            "/opt/weird.h".to_string(),
            "/usr/include/stdint.h".to_string(),
        ]
    );
    let trees = vec![top, TreeNode::new("other.h".to_string())];
    let lib = vec!["top.h".to_string()];
    let sys = get_include_sys_headers(&trees, &lib);
    assert_eq!(sys, vec!["stdint.h".to_string(), "stddef.h".to_string()]);
    assert_eq!(get_include_sys_headers_str(&trees, &lib), "stdint.h\nstddef.h");
    let none = get_include_sys_headers(&trees, &vec!["other.h".to_string()]);
    assert!(none.is_empty());
}

#[test]
fn cache_computes_once() {
    let mut top = TreeNode::new("top.h".to_string());
    top.add_child(TreeNode::new("/usr/include/stdio.h".to_string()));
    top.add_child(TreeNode::new("inner.h".to_string()));
    let mut cache = HeaderCache::new(vec![top, TreeNode::new("inner.h".to_string())]);
    let first = cache.lib_headers();
    assert_eq!(first, vec!["top.h".to_string()]);
    assert_eq!(cache.lib_headers(), first);
    let sys = cache.sys_headers();
    assert_eq!(sys, vec!["stdio.h".to_string()]);
    assert_eq!(cache.sys_headers(), sys);
}
