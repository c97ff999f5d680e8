use host::crawl::Crawl;

fn files(items: &[&str]) -> Vec<String> {
    items.iter().map(|s| s.to_string()).collect()
}

/// Crawls a graph given as (file, imports) pairs, compiling whatever the
/// graph names and failing anything it does not.
fn crawl(entry: &str, graph: &[(&str, &[&str])]) -> Vec<String> {
    let mut crawl = Crawl::new(entry);
    while let Some(file) = crawl.next() {
        match graph.iter().find(|(f, _)| *f == file) {
            Some((_, imports)) => crawl.compiled_with(files(imports)),
            None => crawl.failed(),
        }
    }
    crawl.finish()
}

#[test]
fn a_graph_is_crawled_from_its_entry_each_file_once() {
    let graph: &[(&str, &[&str])] = &[
        ("/p/index.tsx", &["/p/a.ts", "/p/b.ts"]),
        ("/p/a.ts", &["/n/react.js"]),
        ("/p/b.ts", &["/n/react.js", "/p/a.ts"]),
        ("/n/react.js", &[]),
    ];
    assert_eq!(crawl("/p/index.tsx", graph), ["/p/index.tsx", "/p/b.ts", "/p/a.ts", "/n/react.js"]);
}

#[test]
fn a_file_that_does_not_compile_is_dropped_not_counted() {
    let graph: &[(&str, &[&str])] = &[("/p/index.tsx", &["/p/broken.ts", "/p/ok.ts"]), ("/p/ok.ts", &[])];
    assert_eq!(crawl("/p/index.tsx", graph), ["/p/index.tsx", "/p/ok.ts"]);
    assert!(crawl("/p/missing.tsx", graph).is_empty());
}

#[test]
fn a_report_without_a_file_out_changes_nothing() {
    let mut c = Crawl::new("/e.ts");
    c.compiled_with(files(&["/x.ts"]));
    assert_eq!(c.next().as_deref(), Some("/e.ts"));
    c.compiled_with(files(&["/e.ts"]));
    assert_eq!(c.next(), None, "the entry, once compiled, is passed over");
    assert_eq!(c.finish(), ["/e.ts"]);
}
