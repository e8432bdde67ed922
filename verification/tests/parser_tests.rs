use fastn_resolver::p1::Kind;
use fastn_resolver::scanner::Scanner;
use fastn_resolver::section::Document;
use fastn_resolver::unresolved;

fn rem(sc: &Scanner<()>) -> String {
    sc.remaining().iter().collect::<String>()
}

fn ident_case(source: &str, expected: Option<&str>, remaining: &str) {
    let mut sc = Scanner::new(source, ());
    let got = fastn_resolver::p1::identifier(&mut sc);
    match (got, expected) {
        (Some(id), Some(nm)) => assert_eq!(id.name, nm, "name for {:?}", source),
        (None, None) => {}
        (g, e) => panic!("mismatch for {:?}: got {:?}, want {:?}", source, g.map(|i| i.name), e),
    }
    assert_eq!(rem(&sc), remaining, "remaining for {:?}", source);
}

#[test]
fn identifier() {
    // identifiers can't start with a space
    ident_case(" foo", None, " foo");
    ident_case("foo", Some("foo"), "");
    ident_case("foo bar", Some("foo"), " bar");
    ident_case("_foo bar", Some("_foo"), " bar");
    ident_case("_foo-bar", Some("_foo-bar"), "");
    ident_case("नम", Some("नम"), "");
    ident_case("_नम-जन ", Some("_नम-जन"), " ");
    ident_case("_नाम-जाने", Some("_नाम-जाने"), "");
    ident_case("_नाम-जाने ", Some("_नाम-जाने"), " ");
    // emoji is not a valid identifier
    ident_case("नम😦", Some("नम"), "😦");
    ident_case("नम 😦", Some("नम"), " 😦");
    ident_case("😦नम ", None, "😦नम ");
}

enum K {
    N(&'static str),
    A(&'static str, Vec<K>),
}

fn check_kind(k: &Kind, want: &K) {
    match want {
        K::N(n) => {
            assert_eq!(&k.name, n);
            assert!(k.args.is_none(), "expected no args on {}", n);
        }
        K::A(n, args) => {
            assert_eq!(&k.name, n);
            let got = k.args.as_ref().expect("expected args");
            assert_eq!(got.len(), args.len(), "arg count on {}", n);
            for (g, w) in got.iter().zip(args.iter()) {
                check_kind(g, w);
            }
        }
    }
}

fn kind_case(source: &str, want: Option<K>, remaining: &str) {
    let mut sc = Scanner::new(source, ());
    let got = fastn_resolver::p1::kind(&mut sc);
    match (&got, &want) {
        (Some(k), Some(w)) => check_kind(k, w),
        (None, None) => {}
        _ => panic!("kind mismatch for {:?}", source),
    }
    assert_eq!(rem(&sc), remaining, "remaining for {:?}", source);
}

#[test]
fn kind() {
    kind_case("string", Some(K::N("string")), "");
    kind_case("list<string>", Some(K::A("list", vec![K::N("string")])), "");
    kind_case("foo<a, b>", Some(K::A("foo", vec![K::N("a"), K::N("b")])), "");
    kind_case(
        "foo<bar   <k >>",
        Some(K::A("foo", vec![K::A("bar", vec![K::N("k")])])),
        "",
    );
    kind_case(
        "foo \t <a, b< asd                 >, c, d>",
        Some(K::A(
            "foo",
            vec![K::N("a"), K::A("b", vec![K::N("asd")]), K::N("c"), K::N("d")],
        )),
        "",
    );
    kind_case(
        "foo<a        , b\t,\tc, d, e>",
        Some(K::A(
            "foo",
            vec![K::N("a"), K::N("b"), K::N("c"), K::N("d"), K::N("e")],
        )),
        "",
    );
    kind_case(
        "foo < bar<k>> ",
        Some(K::A("foo", vec![K::A("bar", vec![K::N("k")])])),
        " ",
    );
    kind_case(
        "foo<bar<k>>  moo",
        Some(K::A("foo", vec![K::A("bar", vec![K::N("k")])])),
        "  moo",
    );
    kind_case(" string", None, " string");
}

#[test]
fn section() {
    let mut sc = Scanner::new("-- foo: Hello World", Document::new());
    let sec = fastn_resolver::section::section(&mut sc).expect("section should parse");
    assert_eq!(sec.init.name.name, "foo");
    assert!(sec.init.name.kind.is_none());
    assert_eq!(sec.caption.as_deref(), Some("Hello World"));
    assert!(sec.headers.is_empty());
    assert!(sec.body.is_none());
}

#[test]
fn document() {
    let d = Document::parse("-- foo: Hello World");
    assert_eq!(d.sections.len(), 1);
    assert_eq!(d.sections[0].init.name.name, "foo");
    assert_eq!(d.sections[0].caption.as_deref(), Some("Hello World"));

    let d = Document::parse("-- foo: Hello World from foo\n-- bar: Hello World from bar");
    assert_eq!(d.sections.len(), 2);
    assert_eq!(d.sections[0].init.name.name, "foo");
    assert_eq!(d.sections[0].caption.as_deref(), Some("Hello World from foo"));
    assert_eq!(d.sections[1].init.name.name, "bar");
    assert_eq!(d.sections[1].caption.as_deref(), Some("Hello World from bar"));
}

fn import_case(source: &str, package: &str, module: &str, alias: Option<&str>) {
    let parsed = Document::parse(source);
    assert_eq!(parsed.sections.len(), 1, "section count for {:?}", source);
    let mut d = unresolved::Document::new();
    let mut sections = parsed.sections;
    fastn_resolver::import::import(sections.remove(0), &mut d);
    assert!(d.content.is_empty());
    assert!(d.definitions.is_empty());
    assert_eq!(d.imports.len(), 1, "import count for {:?}", source);
    assert!(d.errors.is_empty(), "errors for {:?}: {:?}", source, d.errors);
    let i = &d.imports[0];
    assert_eq!(i.module.package.0, package, "package for {:?}", source);
    assert_eq!(i.module.name.name, module, "module for {:?}", source);
    match (&i.alias, alias) {
        (Some(a), Some(x)) => assert_eq!(a.name, x),
        (None, None) => {}
        _ => panic!("alias mismatch for {:?}", source),
    }
    assert!(i.export.is_none());
    assert!(i.exposing.is_none());
}

#[test]
fn import() {
    import_case("-- import: foo", "", "foo", None);
    import_case("-- import: foo.fifthtry.site/bar", "foo.fifthtry.site", "bar", None);
    import_case("-- import: foo as f", "", "foo", Some("f"));
}
