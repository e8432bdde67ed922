use fastn_resolver::continuation::ContinuationResult;
use fastn_resolver::defs::DefinitionKind;
use fastn_resolver::mail::Mailer;
use fastn_resolver::manifest::{extract_github_details, get_zipball_url};
use fastn_resolver::reader::{FileList, Package};
use fastn_resolver::sub_section::{Header, SubSection, SubSections};
use fastn_resolver::tdoc::TDoc;
use fastn_resolver::{Arena, Document, ResolvedDefinition, SectionError, SectionWarning};

#[test]
fn arena_interning_is_idempotent() {
    let mut arena = Arena::new();
    let a = arena.intern("ftd.text");
    let b = arena.intern("ftd.row");
    let c = arena.intern("ftd.text");
    assert_eq!(a, c);
    assert_ne!(a, b);
    assert_eq!(arena.name_of(a), "ftd.text");
    assert_eq!(arena.name_of(b), "ftd.row");
    assert_eq!(arena.len(), 2);
}

#[test]
fn zipball_url_for_github_pages() {
    let url = get_zipball_url("someone.github.io/site".to_string());
    assert_eq!(
        url.as_deref(),
        Some("https://codeload.github.com/someone/site/zip/refs/heads/main"),
    );
    let parts = extract_github_details("someone.github.io/site".to_string());
    assert_eq!(
        parts,
        Some(("someone".to_string(), "site".to_string())),
    );
}

#[test]
fn zipball_url_for_fifthtry_site() {
    let url = get_zipball_url("demo.fifthtry.site".to_string());
    assert_eq!(
        url.as_deref(),
        Some("https://fifthtry.com/ft2/api/site/download?site-slug=demo"),
    );
}

#[test]
fn zipball_url_for_unknown_host() {
    assert!(get_zipball_url("example.com/pkg".to_string()).is_none());
    assert!(extract_github_details("example.com/pkg".to_string()).is_none());
}

#[test]
fn reader_reads_package_name() {
    let r = Package::reader();
    let out = r.consume_fn(|names: Vec<String>| {
        names
            .into_iter()
            .map(|n| {
                if n == "FASTN.ftd" {
                    (n, Some("-- name: hello-world".to_string()))
                } else {
                    (n, None)
                }
            })
            .collect::<Vec<_>>()
    });
    let (package, warnings) = out.expect("manifest present");
    assert_eq!(package.name, "hello-world");
    assert!(warnings.is_empty());
}

#[test]
fn reader_with_provider() {
    let provider = FileList {
        files: vec![("FASTN.ftd".to_string(), "-- name: demo".to_string())],
    };
    let out = Package::reader().consume(provider);
    let (package, _warnings) = out.expect("manifest present");
    assert_eq!(package.name, "demo");
}

#[test]
fn reader_with_context_function() {
    let out = Package::reader().consume_with_fn(|state, names: Vec<String>| {
        let found = names
            .into_iter()
            .map(|n| (n, Some("-- name: ctx".to_string())))
            .collect::<Vec<_>>();
        (state, found)
    });
    let (package, _warnings) = out.expect("manifest present");
    assert_eq!(package.name, "ctx");
}

#[test]
fn reader_missing_manifest_fails() {
    let provider = FileList { files: vec![] };
    let out = Package::reader().consume(provider);
    assert!(out.is_err());
}

#[test]
fn reader_is_stuck_on_the_manifest_first() {
    match Package::reader() {
        ContinuationResult::Stuck(_state, needed) => {
            assert_eq!(needed, vec!["FASTN.ftd".to_string()]);
        }
        ContinuationResult::Done(_) => panic!("the reader must start stuck"),
    }
}

#[test]
fn subsection_builders() {
    let s = SubSection::with_name("greeting")
        .and_caption("hello")
        .add_header("lang", "en")
        .add_optional_header_bool("draft", Some(true))
        .add_optional_header("author", &Some("ada".to_string()))
        .add_header_if_not_equal("kind", "note", "note")
        .and_body("body text");
    assert_eq!(s.name, "greeting");
    assert_eq!(s.caption.as_deref(), Some("hello"));
    assert_eq!(s.header.0.len(), 3);
    assert_eq!(s.header.0[0], (0, "lang".to_string(), "en".to_string()));
    assert_eq!(s.header.0[1], (0, "draft".to_string(), "true".to_string()));
    assert_eq!(s.header.0[2], (0, "author".to_string(), "ada".to_string()));
    assert_eq!(s.body, Some((0, "body text".to_string())));

    let cleared = s.without_line_number();
    assert_eq!(cleared.line_number, 0);
    assert_eq!(cleared.name, "greeting");
}

#[test]
fn subsection_caption_and_body_errors() {
    let s = SubSection::with_name("empty");
    assert!(s.caption("doc").is_err());
    assert!(s.body("doc").is_err());
    let s = s.and_caption("cap").and_body("text");
    assert_eq!(s.caption("doc").unwrap(), "cap");
    assert_eq!(s.body("doc").unwrap(), "text");
}

#[test]
fn subsection_body_without_comment() {
    let commented = SubSection::with_name("a").and_body("/hidden");
    assert!(commented.body_without_comment().is_none());

    let blank = SubSection::with_name("b").and_body("   ");
    assert!(blank.body_without_comment().is_none());

    let escaped = SubSection::with_name("c").and_body(r"\/kept");
    assert_eq!(escaped.body_without_comment(), Some((0, "/kept".to_string())));

    let plain = SubSection::with_name("d").and_body("text  ");
    assert_eq!(plain.body_without_comment(), Some((0, "text".to_string())));
}

#[test]
fn subsections_by_name_skips_commented() {
    let mut all = SubSections(Vec::new());
    let mut hidden = SubSection::with_name("x");
    hidden.is_commented = true;
    all.add(hidden);
    all.add_body("x", "value");
    let found = all.by_name(3, "x", "doc").expect("must find the visible one");
    assert!(!found.is_commented);
    assert_eq!(all.body_for(3, "x", "doc").unwrap(), "value");
    assert!(all.by_name(3, "missing", "doc").is_err());
}

#[test]
fn uncommented_headers_filters() {
    let h = Header(vec![
        (1, "keep".to_string(), "a".to_string()),
        (2, "/drop".to_string(), "b".to_string()),
        (3, "also".to_string(), "c".to_string()),
    ]);
    let kept = h.uncommented_headers();
    assert_eq!(kept.len(), 2);
    assert_eq!(kept[0].1, "keep");
    assert_eq!(kept[1].1, "also");
}

#[test]
fn tdoc_prefers_definitions_over_builtins() {
    let doc = TDoc {
        name: "main".to_string(),
        definitions: vec![(1, ResolvedDefinition { symbol: 1, kind: DefinitionKind::Record })],
        builtins: vec![
            (1, ResolvedDefinition { symbol: 1, kind: DefinitionKind::Function }),
            (2, ResolvedDefinition { symbol: 2, kind: DefinitionKind::Component }),
        ],
    };
    assert_eq!(doc.get(1).unwrap().kind, DefinitionKind::Record);
    assert_eq!(doc.get(2).unwrap().kind, DefinitionKind::Component);
    assert!(doc.get(3).is_none());
    assert!(doc.get_opt_record(1).is_some());
    assert!(doc.get_opt_function(1).is_none());
    assert!(doc.get_opt_component(2).is_some());
    assert_eq!(doc.name(), "main");
}

#[test]
fn document_merge_appends_diagnostics() {
    let mut d = Document::new();
    d.merge(vec![SectionError::BodyNotAllowed], vec![], vec!["note".to_string()]);
    d.merge(
        vec![SectionError::ExtraHeaderFound],
        vec![SectionWarning::PackageNameNotInCaption],
        vec![],
    );
    assert_eq!(
        d.errors,
        vec![SectionError::BodyNotAllowed, SectionError::ExtraHeaderFound],
    );
    assert_eq!(d.warnings, vec![SectionWarning::PackageNameNotInCaption]);
    assert_eq!(d.comments, vec!["note".to_string()]);
}

#[test]
fn mailer_mock_flips_the_switch() {
    let mut m = Mailer {
        smtp_username: "u".to_string(),
        smtp_password: "p".to_string(),
        smtp_host: "h".to_string(),
        sender_email: "e@example.com".to_string(),
        sender_name: None,
        mock: false,
    };
    m.mock();
    assert!(m.mock);
}
