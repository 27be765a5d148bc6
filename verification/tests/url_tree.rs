use ngx_laser::UrlTree;

#[test]
fn add_creates_a_node_per_component() {
    let mut t = UrlTree::new();
    assert_eq!(t.add("/a/b"), 2);
    // the children lists are never filled, so a second add makes new nodes
    assert_eq!(t.add("/a/b"), 4);
    assert_eq!(t.add("/c?x=1/2/3"), 5);
}

#[test]
fn add_of_no_component_is_the_root() {
    let mut t = UrlTree::new();
    assert_eq!(t.add(""), 0);
    assert_eq!(t.add("abc"), 0);
    assert_eq!(t.add("?a/b"), 0);
}

#[test]
fn add_skips_what_precedes_the_first_slash() {
    let mut t = UrlTree::new();
    assert_eq!(t.add("x/y"), 1);
    assert_eq!(t.add("/"), 2);
    assert_eq!(t.add("//"), 4);
}

#[test]
fn distinct_paths_get_distinct_nodes() {
    let mut t = UrlTree::new();
    let i = t.add("/a/b?q=1");
    let j = t.add("/a/c");
    let k = t.add("/a/b?q=2");
    assert_ne!(i, j);
    assert_ne!(j, k);
    assert_ne!(i, k);
}
