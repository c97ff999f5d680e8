use host::url::{encode_segment, percent_decode};
use host::serve::{
    candidates, located, mime, module_imports, module_url, quoted_specifiers, respond,
    route, shell, styles_url, transpiled, warm_page, warm_url, Answer, Route, Served, ORIGIN,
};

#[test]
fn a_process_id_routes_to_its_shell_and_a_path_to_its_file() {
    assert_eq!(route("/p_1"), Route::Shell("p_1".into()));
    assert_eq!(route("/p_1/styles.css"), Route::Styles("p_1".into()));
    assert_eq!(route("/mod/Users/a/index.tsx"), Route::Module("/Users/a/index.tsx".into()));
    assert_eq!(route("/"), Route::Unknown);
    // A module path is always absolute; anything else is not a module.
    assert_eq!(route("/modest"), Route::Shell("modest".into()));
    // A file called `styles.css` inside the tree is still a module.
    assert_eq!(route("/mod/Users/a/styles.css"), Route::Module("/Users/a/styles.css".into()));
    // The shell's own URL round-trips through the stylesheet it links.
    let uri = styles_url("p_1");
    assert_eq!(route(uri.strip_prefix(ORIGIN).expect("one origin")), Route::Styles("p_1".into()));
}

#[test]
fn a_url_survives_the_round_trip_through_the_path_it_names() {
    for path in ["/Users/a/@x/night/host/programs/read-tile/src/index.tsx", "/a b/c%d/e.ts"] {
        let url = module_url(path);
        let uri_path = url.strip_prefix(ORIGIN).expect("one origin");
        assert_eq!(route(uri_path), Route::Module(path.to_string()), "{url}");
    }
    // The characters a URL would otherwise read as structure are encoded.
    assert!(module_url("/a b/@x").contains("%20"));
    assert!(module_url("/a b/@x").contains("%40"));
}

#[test]
fn the_shell_is_one_stylesheet_the_entry_and_the_page_s_own_identity() {
    let page = shell("ol://app/p_1/styles.css", "ol://app/mod/x/index.tsx");
    assert!(page.contains(r#"<script type="module" src="ol://app/mod/x/index.tsx"></script>"#), "{page}");
    assert!(page.contains(r#"<link rel="stylesheet" href="ol://app/p_1/styles.css">"#), "{page}");
    assert!(page.contains("<body></body>"), "nothing is mounted for the program: {page}");
    assert!(!page.contains("id=\"root\""), "the program mounts the body itself: {page}");
    assert!(!page.contains("<style"), "every rule arrives through the link: {page}");
    // Identity comes off the URL, not the markup: the same shell text is
    // true for every process, so a recycled webview self-stamps.
    assert!(
        page.contains("window.__openlight_process = decodeURIComponent(location.pathname.slice(1));"),
        "the page derives its process from its own URL: {page}"
    );
    assert!(!page.contains("p_1</script>"), "no process id is baked into the markup: {page}");
}

#[test]
fn a_shell_and_its_stylesheet_are_served_only_to_the_process_they_belong_to() {
    let dir = "/tmp/ol-serve-shell";
    let entry = "/tmp/ol-serve-shell/src/index.tsx";
    let Answer::Ready(mine) = respond(dir, "p_1", entry, "/p_1") else {
        panic!("a shell is answered whole");
    };
    assert_eq!((mine.status, mine.mime), (200, "text/html"));
    let page = String::from_utf8(mine.body).unwrap();
    assert!(page.contains(&module_url(entry)));
    assert!(page.contains(&styles_url("p_1")), "the shell links its own stylesheet: {page}");

    // The stylesheet is compiled from the tree the entry lies in.
    let Answer::Styles(source) = respond(dir, "p_1", entry, "/p_1/styles.css") else {
        panic!("a stylesheet is compiled, not read off disk");
    };
    assert_eq!(source, "/tmp/ol-serve-shell/src");

    for other in ["/p_2", "/p_2/styles.css"] {
        let Answer::Ready(refused) = respond(dir, "p_1", entry, other) else {
            panic!("another process's page is refused, not looked up");
        };
        assert_eq!(refused.status, 404, "{other}");
    }
}

#[test]
fn what_the_transpiler_owns_and_what_is_served_as_it_lies() {
    assert!(transpiled("/a/b.tsx") && transpiled("/a/b.CJS"));
    assert!(!transpiled("/a/b.css") && !transpiled("/a/b"));
    assert_eq!(mime("/a/b.css"), "text/css");
    assert_eq!(mime("/a/b.png"), "image/png");
}

#[test]
fn the_warm_route_is_reserved_and_its_page_never_runs_the_program() {
    assert_eq!(route("/warm"), Route::Warm);
    // A name that merely starts the same is still a shell.
    assert_eq!(route("/warmer"), Route::Shell("warmer".into()));
    let url = warm_url();
    assert_eq!(route(url.strip_prefix(ORIGIN).expect("one origin")), Route::Warm);

    let files = vec![
        "/proj/programs/menu/src/index.tsx".to_string(),
        "/proj/programs/menu/src/menu.tsx".to_string(),
        "/proj/node_modules/react/index.js".to_string(),
        "/proj/node_modules/react-dom/client.js".to_string(),
    ];
    let page = warm_page(&files);
    assert!(page.contains(r#"import "ol://app/mod/proj/node_modules/react/index.js";"#), "{page}");
    assert!(page.contains(r#"import "ol://app/mod/proj/node_modules/react-dom/client.js";"#), "{page}");
    for own in ["index.tsx", "menu.tsx"] {
        assert!(
            page.contains(&format!("<link rel=\"modulepreload\" href=\"ol://app/mod/proj/programs/menu/src/{own}\">")),
            "{own} is preloaded: {page}"
        );
        assert!(!page.contains(&format!("import \"ol://app/mod/proj/programs/menu/src/{own}\"")), "{own} is never imported: {page}");
    }
    assert!(!page.contains("__openlight_process"), "{page}");
    assert!(!page.contains("stylesheet"), "{page}");
    assert!(page.contains("<body></body>"), "{page}");

    // The warm answer resolves before any file is read.
    let entry = "/proj/programs/menu/src/index.tsx".to_string();
    assert_eq!(respond("/proj", "p_1", &entry, "/warm"), Answer::Warm(entry));
}

#[test]
fn the_warmer_follows_both_url_and_relative_imports() {
    let code = r#"import { a } from "ol://app/mod/Users/x/node_modules/react/index.js";
import { b } from "./sidebar.tsx";
import "../shared/base.css";
const later = import("./lazy.ts");
export const nothing = "from \" a string, not an import";"#;
    let found = module_imports(code, "/proj/src/index.tsx");
    assert!(found.contains(&"/Users/x/node_modules/react/index.js".to_string()), "{found:?}");
    assert!(found.contains(&"/proj/src/./sidebar.tsx".to_string()), "{found:?}");
    assert!(found.contains(&"/proj/src/../shared/base.css".to_string()), "{found:?}");
    assert!(found.contains(&"/proj/src/./lazy.ts".to_string()), "{found:?}");
}

#[test]
fn a_module_outside_the_project_is_never_opened() {
    let dir = "/tmp/ol-serve-outside";
    let answer = respond(dir, "p_1", "/tmp/ol-serve-outside/index.tsx", "/mod/etc/passwd");
    let Answer::Ready(served) = answer else { panic!("refused before the file is reached") };
    assert_eq!(served.status, 404, "{served:?}");
}

#[test]
fn a_failure_reaches_the_console_as_a_module_that_throws() {
    let served = Served::broken("transpiling /a/b.tsx", "Unexpected }");
    assert_eq!(served.mime, "text/javascript");
    let body = String::from_utf8(served.body).unwrap();
    assert!(body.contains("console.error"), "{body}");
    assert!(body.contains("Unexpected }"), "{body}");
    assert!(body.contains("throw new Error"), "{body}");
}

#[test]
fn a_failure_module_is_written_exactly() {
    let served = Served::broken("reading /a \"b\"", "no such file");
    assert_eq!(served.status, 200);
    assert_eq!(
        String::from_utf8(served.body).unwrap(),
        "console.error(\"ol: reading /a \\\"b\\\"\\nno such file\");\nthrow new Error(\"reading /a \\\"b\\\"\");\n"
    );
    let missing = Served::missing("route");
    assert_eq!((missing.status, missing.mime), (404, "text/plain"));
    assert_eq!(missing.body, b"ol: no route".to_vec());
    let sheet = Served::unstyled("styles for /p", "bad");
    assert_eq!((sheet.status, sheet.mime), (200, "text/css"));
    assert_eq!(String::from_utf8(sheet.body).unwrap(), "/* ol: styles for /p\nbad */\n");
}

#[test]
fn urls_are_encoded_byte_by_byte_as_encode_uri_component_does() {
    assert_eq!(styles_url("a b"), "ol://app/a%20b/styles.css");
    assert_eq!(module_url("/é/x y"), "ol://app/mod/%C3%A9/x%20y");
    assert_eq!(encode_segment("-_.!~*'()/?#"), "-_.!~*'()%2F%3F%23");
    assert_eq!(warm_url(), "ol://app/warm");
}

#[test]
fn decoding_reads_escapes_the_way_from_str_radix_does() {
    assert_eq!(route("/a%2Fb"), Route::Shell("a/b".into()));
    assert_eq!(route("/a%zz"), Route::Shell("a%zz".into()));
    assert_eq!(route("/a%+41"), Route::Shell("a\u{4}1".into()));
    assert_eq!(route("/a%4"), Route::Shell("a%4".into()));
    assert_eq!(route("/a%c3%a9"), Route::Shell("aé".into()));
    assert_eq!(route("/%ff"), Route::Shell("\u{fffd}".into()));
    assert_eq!(route("//p_1"), Route::Shell("p_1".into()));
    assert_eq!(route("/styles.css"), Route::Shell("styles.css".into()));
    assert_eq!(route("/mod"), Route::Shell("mod".into()));
    assert_eq!(route("/mod/styles.css"), Route::Module("/styles.css".into()));
    assert_eq!(route(""), Route::Unknown);
}

#[test]
fn the_specifiers_after_each_import_keyword_are_found_in_keyword_order() {
    let code = "import \"a\";\nexport { x } from \"b\";\nconst c = import(\"c\");\nimport \"d";
    assert_eq!(quoted_specifiers(code), vec!["b", "a", "d", "c"]);
}

#[test]
fn an_extensionless_import_is_tried_beside_itself_then_as_a_directory() {
    assert_eq!(
        candidates("/p/tile").unwrap(),
        vec![
            "/p/tile.ts", "/p/tile.tsx", "/p/tile.js", "/p/tile.jsx", "/p/tile.mjs",
            "/p/tile/index.ts", "/p/tile/index.tsx", "/p/tile/index.js",
        ]
    );
    assert_eq!(candidates("/"), None);
}

#[test]
fn the_warm_page_is_written_in_url_order() {
    let page = warm_page(&vec![
        "/p/node_modules/z.js".to_string(),
        "/p/src/b.tsx".to_string(),
        "/p/node_modules/a.js".to_string(),
        "/p/src/a.tsx".to_string(),
        "/p/node_modulesx/c.js".to_string(),
    ]);
    assert_eq!(
        page,
        "<!doctype html>\n<html><head><meta charset=\"utf-8\">\n\
<link rel=\"modulepreload\" href=\"ol://app/mod/p/node_modulesx/c.js\">\n\
<link rel=\"modulepreload\" href=\"ol://app/mod/p/src/a.tsx\">\n\
<link rel=\"modulepreload\" href=\"ol://app/mod/p/src/b.tsx\">\n\
<script type=\"module\">\n\
import \"ol://app/mod/p/node_modules/a.js\";\n\
import \"ol://app/mod/p/node_modules/z.js\";\n\
</script>\n</head><body></body></html>"
    );
}

#[test]
fn attributes_escape_their_quotes_and_markup() {
    let page = shell("a\"b", "c&d<e");
    assert!(page.contains(r#"href="a&quot;b""#), "{page}");
    assert!(page.contains(r#"src="c&amp;d&lt;e""#), "{page}");
}

#[test]
fn an_unknown_route_and_a_missing_source_tree_are_refusals() {
    let Answer::Ready(refused) = respond("/p", "p_1", "/p/index.tsx", "/") else { panic!() };
    assert_eq!(String::from_utf8(refused.body).unwrap(), "ol: no route");
    assert_eq!(respond("/p", "p_1", "/p/x.tsx", "/mod/p/x.tsx"), Answer::Module("/p/x.tsx".into()));
}

#[test]
fn a_looked_up_module_is_the_file_found_or_a_refusal_naming_the_request() {
    assert_eq!(located("/p/tile", Some("/p/tile.tsx".into())), Answer::Module("/p/tile.tsx".into()));
    let Answer::Ready(refused) = located("/p/nothing", None) else { panic!() };
    assert_eq!(refused.status, 404);
    assert_eq!(String::from_utf8(refused.body).unwrap(), "ol: no module /p/nothing");
}

#[test]
fn percent_decoding_undoes_encoding() {
    for text in ["plain", "a b/c", "é€😀", "%41", ""] {
        assert_eq!(percent_decode(&encode_segment(text)), text);
    }
}
