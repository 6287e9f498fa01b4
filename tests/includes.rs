use circom_includes::file_stack::{FileStack, IncludeError};
use circom_includes::includes_graph::IncludesGraph;
use circom_includes::path::{file_name_of, join_path_exec, normalize_path, parent_of};

fn strings(items: &[&str]) -> Vec<String> {
    items.iter().map(|s| s.to_string()).collect()
}

#[test]
fn normalize_resolves_dots() {
    assert_eq!(normalize_path("/a/./b/../c"), "/a/c");
    assert_eq!(normalize_path("a//b/"), "a/b");
    assert_eq!(normalize_path("./a/b"), "a/b");
    assert_eq!(normalize_path(""), "");
}

#[test]
fn normalize_discards_parent_past_start() {
    assert_eq!(normalize_path("a/b/../../.."), "");
    assert_eq!(normalize_path("/.."), "/");
    assert_eq!(normalize_path("/../x"), "/x");
    assert_eq!(normalize_path("../x"), "x");
}

#[test]
fn normalize_is_idempotent() {
    for p in ["/a/./b/../c", "x/../../y/z/", "/", "", "lib/circuits/../gates.circom"] {
        let once = normalize_path(p);
        assert_eq!(normalize_path(&once), once);
    }
}

#[test]
fn normalize_drops_dot_and_parent_segments() {
    assert_eq!(normalize_path("/p/./q.circom"), normalize_path("/p/q.circom"));
    assert_eq!(normalize_path("p/x/../q"), normalize_path("p/q"));
    assert_eq!(normalize_path("/p/x/../q/r"), "/p/q/r");
}

#[test]
fn joins_and_parents() {
    assert_eq!(join_path_exec("/proj", "x.circom"), "/proj/x.circom");
    assert_eq!(join_path_exec("/proj", "/abs/x.circom"), "/abs/x.circom");
    assert_eq!(join_path_exec("", "x.circom"), "x.circom");
    assert_eq!(parent_of("/a/b.circom"), "/a");
    assert_eq!(parent_of("b.circom"), "");
    assert_eq!(parent_of("/"), "/");
    assert_eq!(file_name_of("/a/b.circom"), "b.circom");
    assert_eq!(file_name_of("b.circom"), "b.circom");
    assert_eq!(file_name_of("/a/"), "");
}

#[test]
fn root_file_is_taken_once() {
    let mut fs = FileStack::new("/proj/./main.circom".to_string());
    assert_eq!(FileStack::take_next(&mut fs), Some("/proj/main.circom".to_string()));
    assert_eq!(FileStack::take_next(&mut fs), None);
}

#[test]
fn current_directory_takes_precedence() {
    let mut fs = FileStack::new("/proj/main.circom".to_string());
    FileStack::take_next(&mut fs);
    let libs = strings(&["/lib"]);
    let candidates = FileStack::include_candidates(&fs, "x.circom", &libs);
    assert_eq!(candidates, strings(&["/proj/x.circom", "/lib/x.circom"]));
    let r = FileStack::add_include(&mut fs, "x.circom".to_string(), &libs, &vec![true, true]);
    assert_eq!(r.ok(), Some("/proj/x.circom".to_string()));
    assert_eq!(FileStack::take_next(&mut fs), Some("/proj/x.circom".to_string()));
}

#[test]
fn library_root_used_when_current_lacks_file() {
    let mut fs = FileStack::new("/proj/main.circom".to_string());
    FileStack::take_next(&mut fs);
    let libs = strings(&["/lib", "/other"]);
    let r = FileStack::add_include(&mut fs, "../lib2/x.circom".to_string(), &libs, &vec![false, false, true]);
    assert_eq!(r.ok(), Some("/lib2/x.circom".to_string()));
}

#[test]
fn missing_include_reports_its_name() {
    let mut fs = FileStack::new("/proj/main.circom".to_string());
    FileStack::take_next(&mut fs);
    let libs = strings(&["/lib"]);
    match FileStack::add_include(&mut fs, "x.circom".to_string(), &libs, &vec![false, false]) {
        Err(IncludeError::IncludeNotFound { name }) => assert_eq!(name, "x.circom"),
        Ok(p) => panic!("resolved to {}", p),
    }
    let e = IncludeError::IncludeNotFound { name: "x.circom".to_string() };
    assert_eq!(e.message(), "Include not found: x.circom");
    assert_eq!(FileStack::take_next(&mut fs), None);
}

#[test]
fn diamond_file_taken_once() {
    let libs: Vec<String> = Vec::new();
    let mut fs = FileStack::new("/p/a.circom".to_string());
    let mut taken = Vec::new();
    while let Some(f) = FileStack::take_next(&mut fs) {
        let incs: Vec<&str> = match f.as_str() {
            "/p/a.circom" => vec!["b.circom", "c.circom"],
            "/p/b.circom" | "/p/c.circom" => vec!["d.circom"],
            _ => vec![],
        };
        for inc in incs {
            assert!(FileStack::add_include(&mut fs, inc.to_string(), &libs, &vec![true]).is_ok());
        }
        taken.push(f);
    }
    assert_eq!(taken, strings(&["/p/a.circom", "/p/c.circom", "/p/d.circom", "/p/b.circom"]));
}

#[test]
fn location_follows_taken_file() {
    let mut fs = FileStack::new("/p/main.circom".to_string());
    FileStack::take_next(&mut fs);
    let libs: Vec<String> = Vec::new();
    assert!(FileStack::add_include(&mut fs, "sub/x.circom".to_string(), &libs, &vec![true]).is_ok());
    assert_eq!(FileStack::take_next(&mut fs), Some("/p/sub/x.circom".to_string()));
    let c = FileStack::include_candidates(&fs, "y.circom", &libs);
    assert_eq!(c, strings(&["/p/sub/y.circom"]));
}

#[test]
fn single_user_without_pragma() {
    let mut g = IncludesGraph::new();
    g.add_node("/p/a.circom".to_string(), false, true);
    assert_eq!(g.get_problematic_paths(), vec![strings(&["/p/a.circom"])]);
}

#[test]
fn user_with_pragma_is_fine() {
    let mut g = IncludesGraph::new();
    g.add_node("/p/a.circom".to_string(), true, true);
    g.add_node("/p/b.circom".to_string(), false, false);
    assert!(g.add_edge("/p/c.circom".to_string()).is_ok());
    assert!(g.get_problematic_paths().is_empty());
}

#[test]
fn walk_continues_past_pragma_files() {
    let mut g = IncludesGraph::new();
    g.add_node("/p/a.circom".to_string(), false, true);
    g.add_node("/p/b.circom".to_string(), true, false);
    assert!(g.add_edge("/p/./a.circom".to_string()).is_ok());
    g.add_node("/p/c.circom".to_string(), false, false);
    assert!(g.add_edge("/p/b.circom".to_string()).is_ok());
    assert_eq!(
        g.get_problematic_paths(),
        vec![strings(&["/p/a.circom"]), strings(&["/p/a.circom", "/p/b.circom", "/p/c.circom"])]
    );
}

#[test]
fn cycle_terminates() {
    let mut g = IncludesGraph::new();
    g.add_node("/p/a.circom".to_string(), false, true);
    g.add_node("/p/b.circom".to_string(), false, false);
    assert!(g.add_edge("/p/a.circom".to_string()).is_ok());
    g.add_node("/p/a.circom".to_string(), false, false);
    assert!(g.add_edge("/p/b.circom".to_string()).is_ok());
    let paths = g.get_problematic_paths();
    assert_eq!(
        paths,
        vec![
            strings(&["/p/a.circom"]),
            strings(&["/p/a.circom", "/p/b.circom"]),
            strings(&["/p/a.circom", "/p/b.circom", "/p/a.circom"]),
            strings(&["/p/a.circom", "/p/b.circom", "/p/a.circom", "/p/b.circom"]),
        ]
    );
}

#[test]
fn diamond_reports_both_routes() {
    let mut g = IncludesGraph::new();
    g.add_node("/p/a.circom".to_string(), false, true);
    g.add_node("/p/b.circom".to_string(), false, false);
    assert!(g.add_edge("/p/a.circom".to_string()).is_ok());
    g.add_node("/p/c.circom".to_string(), false, false);
    assert!(g.add_edge("/p/a.circom".to_string()).is_ok());
    g.add_node("/p/d.circom".to_string(), false, false);
    assert!(g.add_edge("/p/b.circom".to_string()).is_ok());
    assert!(g.add_edge("/p/c.circom".to_string()).is_ok());
    let paths = g.get_problematic_paths();
    assert_eq!(
        paths,
        vec![
            strings(&["/p/a.circom"]),
            strings(&["/p/a.circom", "/p/b.circom"]),
            strings(&["/p/a.circom", "/p/b.circom", "/p/d.circom"]),
            strings(&["/p/a.circom", "/p/c.circom"]),
            strings(&["/p/a.circom", "/p/c.circom", "/p/d.circom"]),
        ]
    );
    let shown: Vec<String> = paths.iter().map(|p| IncludesGraph::display_path(p)).collect();
    assert_eq!(shown[2], "a.circom -> b.circom -> d.circom");
    assert_eq!(shown[4], "a.circom -> c.circom -> d.circom");
}

#[test]
fn display_single_and_bare_names() {
    assert_eq!(IncludesGraph::display_path(&strings(&["/x/a.circom"])), "a.circom");
    assert_eq!(IncludesGraph::display_path(&strings(&["a.circom", "/y/b.circom"])), "a.circom -> b.circom");
}
