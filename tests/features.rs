use texlab::bibtex_features::{find_bibtex_symbols, find_string_reference_hover, goto_string_definition, BibtexSymbolKind};
use texlab::database::Database;
use texlab::features::{complete_user_commands, complete_user_environments, find_component_hover, find_label_references, goto_command_definition};
use texlab::lexer::Language;
use texlab::text::TextRange;

fn language_of(name: &str) -> Language {
    if name.ends_with(".bib") {
        Language::Bibtex
    } else if name.ends_with(".tex") {
        Language::Latex
    } else {
        Language::Other
    }
}

fn uri_of(name: &str) -> String {
    format!("file:///tmp/{}", name)
}

fn setup(files: &[(&str, &str)], main: &str) -> (Database, usize) {
    let mut db = Database::new();
    for (name, text) in files {
        db.upsert_document(&uri_of(name), text.trim(), language_of(name));
    }
    let doc = db.document_id(&uri_of(main)).unwrap();
    (db, doc)
}

fn offset(db: &Database, doc: usize, line: usize, character: usize) -> usize {
    db.offset_at(doc, line, character).unwrap()
}

fn line_col(db: &Database, doc: usize, range: TextRange) -> (usize, usize, usize, usize) {
    let r = db.line_col_range(doc, range).unwrap();
    (r.start.line, r.start.character, r.end.line, r.end.character)
}

fn references(files: &[(&str, &str)], main: &str, line: usize, character: usize, with_declarations: bool) -> Vec<(String, (usize, usize, usize, usize))> {
    let (mut db, doc) = setup(files, main);
    let off = offset(&db, doc, line, character);
    let found = find_label_references(&mut db, doc, off, with_declarations);
    let mut out: Vec<(String, (usize, usize, usize, usize))> = found
        .iter()
        .map(|loc| (db.uri(loc.document), line_col(&db, loc.document, loc.range)))
        .collect();
    out.sort();
    out
}

#[test]
fn user_command_test_empty_latex_document() {
    let (mut db, doc) = setup(&[("main.tex", "")], "main.tex");
    let items = complete_user_commands(&mut db, doc, 0);
    assert!(items.is_empty());
}

#[test]
fn user_command_test_empty_bibtex_document() {
    let (mut db, doc) = setup(&[("main.bib", "")], "main.bib");
    let items = complete_user_commands(&mut db, doc, 0);
    assert!(items.is_empty());
}

#[test]
fn user_command_test_latex_simple() {
    let (mut db, doc) = setup(&[("main.tex", "\\foo\\bar")], "main.tex");
    let off = offset(&db, doc, 0, 4);
    let items = complete_user_commands(&mut db, doc, off);
    assert_eq!(items.len(), 1);
    for item in items {
        assert_eq!(item.range, TextRange::new(1, 4));
    }
}

#[test]
fn user_environment_test_empty_latex_document() {
    let (mut db, doc) = setup(&[("main.tex", "")], "main.tex");
    let items = complete_user_environments(&mut db, doc, 0);
    assert!(items.is_empty());
}

#[test]
fn user_environment_test_empty_bibtex_document() {
    let (mut db, doc) = setup(&[("main.bib", "")], "main.bib");
    let items = complete_user_environments(&mut db, doc, 0);
    assert!(items.is_empty());
}

#[test]
fn user_environment_test_latex_simple() {
    let (mut db, doc) = setup(&[("main.tex", "\\begin{foo}\\end{foo} \\begin{bar}\\end{bar}")], "main.tex");
    let off = offset(&db, doc, 0, 7);
    let items = complete_user_environments(&mut db, doc, off);
    assert_eq!(items.len(), 1);
    for item in items {
        assert_eq!(item.range, TextRange::new(7, 10));
    }
}

#[test]
fn command_test_empty_latex_document() {
    let (mut db, doc) = setup(&[("main.tex", "")], "main.tex");
    assert!(goto_command_definition(&mut db, doc, 0).is_none());
}

#[test]
fn command_test_empty_bibtex_document() {
    let (mut db, doc) = setup(&[("main.bib", "")], "main.bib");
    assert!(goto_command_definition(&mut db, doc, 0).is_none());
}

#[test]
fn test_command_definition() {
    let (mut db, doc) = setup(&[("main.tex", "\\DeclareMathOperator{\\foo}{foo}\n\\foo\n")], "main.tex");
    let off = offset(&db, doc, 1, 2);
    let link = goto_command_definition(&mut db, doc, off).unwrap();
    assert_eq!(db.uri(link.target), uri_of("main.tex"));
    assert_eq!(line_col(&db, doc, link.origin_range), (1, 0, 1, 4));
    assert_eq!(line_col(&db, link.target, link.target_range), (0, 0, 0, 31));
    assert_eq!(line_col(&db, link.target, link.target_selection_range), (0, 21, 0, 25));
}

#[test]
fn string_test_empty_latex_document() {
    let (mut db, doc) = setup(&[("main.tex", "")], "main.tex");
    assert!(goto_string_definition(&mut db, doc, 0).is_none());
}

#[test]
fn string_test_empty_bibtex_document() {
    let (mut db, doc) = setup(&[("main.bib", "")], "main.bib");
    assert!(goto_string_definition(&mut db, doc, 0).is_none());
}

fn string_definition_case(text: &str, line: usize, character: usize) -> Option<((usize, usize, usize, usize), (usize, usize, usize, usize), (usize, usize, usize, usize), String)> {
    let (mut db, doc) = setup(&[("main.bib", text)], "main.bib");
    let off = offset(&db, doc, line, character);
    goto_string_definition(&mut db, doc, off).map(|link| {
        (
            line_col(&db, doc, link.origin_range),
            line_col(&db, link.target, link.target_range),
            line_col(&db, link.target, link.target_selection_range),
            db.uri(link.target),
        )
    })
}

#[test]
fn test_simple() {
    let found = string_definition_case("@string{foo = {bar}}\n@article{bar, author = foo}\n", 1, 24).unwrap();
    assert_eq!(found, ((1, 23, 1, 26), (0, 0, 0, 20), (0, 8, 0, 11), uri_of("main.bib")));
}

#[test]
fn concat() {
    let found = string_definition_case("@string{foo = {bar}}\n@article{bar, author = foo # \"bar\"}\n", 1, 24).unwrap();
    assert_eq!(found, ((1, 23, 1, 26), (0, 0, 0, 20), (0, 8, 0, 11), uri_of("main.bib")));
}

#[test]
fn test_field() {
    let found = string_definition_case("@string{foo = {bar}}\n@article{bar, author = foo}\n", 1, 18);
    assert!(found.is_none());
}

fn known_components() -> Vec<(String, String)> {
    vec![("amsmath".to_string(), "The amsmath package provides mathematical typesetting.".to_string())]
}

#[test]
fn component_test_empty_latex_document() {
    let (mut db, doc) = setup(&[("main.tex", "")], "main.tex");
    assert_eq!(find_component_hover(&mut db, doc, 0, &known_components()), None);
}

#[test]
fn component_test_empty_bibtex_document() {
    let (mut db, doc) = setup(&[("main.bib", "")], "main.bib");
    assert_eq!(find_component_hover(&mut db, doc, 0, &known_components()), None);
}

#[test]
fn test_known_package() {
    let (mut db, doc) = setup(&[("main.tex", "\\usepackage{amsmath}")], "main.tex");
    let off = offset(&db, doc, 0, 15);
    let hover = find_component_hover(&mut db, doc, off, &known_components()).unwrap();
    assert_eq!(line_col(&db, doc, hover.range), (0, 12, 0, 19));
}

#[test]
fn test_unknown_class() {
    let (mut db, doc) = setup(&[("main.tex", "\\documentclass{abcdefghijklmnop}")], "main.tex");
    let off = offset(&db, doc, 0, 20);
    assert_eq!(find_component_hover(&mut db, doc, off, &known_components()), None);
}

#[test]
fn string_ref_test_empty_latex_document() {
    let (mut db, doc) = setup(&[("main.tex", "")], "main.tex");
    assert_eq!(find_string_reference_hover(&mut db, doc, 0), None);
}

#[test]
fn string_ref_test_empty_bibtex_document() {
    let (mut db, doc) = setup(&[("main.bib", "")], "main.bib");
    assert_eq!(find_string_reference_hover(&mut db, doc, 0), None);
}

const STRINGS: &str = "@string{foo = \"Foo\"}\n@string{bar = \"Bar\"}\n@article{baz, author = bar}\n";

#[test]
fn test_inside_reference() {
    let (mut db, doc) = setup(&[("main.bib", STRINGS)], "main.bib");
    let off = offset(&db, doc, 2, 24);
    let hover = find_string_reference_hover(&mut db, doc, off).unwrap();
    assert_eq!(hover.text, "\"Bar\"");
    assert_eq!(line_col(&db, doc, hover.range), (2, 23, 2, 26));
}

#[test]
fn test_inside_field() {
    let (mut db, doc) = setup(&[("main.bib", STRINGS)], "main.bib");
    let off = offset(&db, doc, 2, 20);
    assert_eq!(find_string_reference_hover(&mut db, doc, off), None);
}

#[test]
fn test_definition() {
    let found = references(&[("foo.tex", "\\label{foo}"), ("bar.tex", "\\ref{foo}\\input{foo.tex}")], "foo.tex", 0, 8, false);
    assert_eq!(found, vec![(uri_of("bar.tex"), (0, 5, 0, 8))]);
}

#[test]
fn test_definition_include_declaration() {
    let found = references(&[("foo.tex", "\\label{foo}\\input{bar.tex}"), ("bar.tex", "\\ref{foo}")], "foo.tex", 0, 9, true);
    assert_eq!(found, vec![(uri_of("bar.tex"), (0, 5, 0, 8)), (uri_of("foo.tex"), (0, 7, 0, 10))]);
}

#[test]
fn test_reference() {
    let found = references(
        &[("foo.tex", "\\label{foo}\\input{bar.tex}"), ("bar.tex", "\\ref{foo}"), ("baz.tex", "\\ref{foo}\\input{bar.tex}")],
        "bar.tex",
        0,
        7,
        false,
    );
    assert_eq!(found, vec![(uri_of("bar.tex"), (0, 5, 0, 8)), (uri_of("baz.tex"), (0, 5, 0, 8))]);
}

#[test]
fn test_reference_include_declaration() {
    let found = references(&[("foo.tex", "\\label{foo}"), ("bar.tex", "\\ref{foo}\\input{foo.tex}")], "bar.tex", 0, 7, true);
    assert_eq!(found, vec![(uri_of("bar.tex"), (0, 5, 0, 8)), (uri_of("foo.tex"), (0, 7, 0, 10))]);
}

#[test]
fn label_test_empty_latex_document() {
    let (mut db, doc) = setup(&[("main.tex", "")], "main.tex");
    assert!(find_label_references(&mut db, doc, 0, false).is_empty());
}

#[test]
fn label_test_empty_bibtex_document() {
    let (mut db, doc) = setup(&[("main.bib", "")], "main.bib");
    assert!(find_label_references(&mut db, doc, 0, false).is_empty());
}

#[test]
fn bibtex_symbols_of_strings_and_entries() {
    let (mut db, doc) = setup(&[("main.bib", "@string{foo = {bar}}\n@article{key, author = foo, title = {T}}\n")], "main.bib");
    let symbols = find_bibtex_symbols(&mut db, doc);
    assert_eq!(symbols.len(), 2);
    assert_eq!(symbols[0].kind, BibtexSymbolKind::String);
    assert_eq!(symbols[0].name, "foo");
    assert_eq!(symbols[1].kind, BibtexSymbolKind::Entry);
    assert_eq!(symbols[1].name, "key");
    assert_eq!(symbols[1].entry_type, "article");
    let fields: Vec<&str> = symbols[1].children.iter().map(|f| f.name.as_str()).collect();
    assert_eq!(fields, vec!["author", "title"]);
}

#[test]
fn command_definition_found_in_included_document() {
    let (mut db, doc) = setup(
        &[("main.tex", "\\input{defs}\n\\foo"), ("defs.tex", "\\newcommand{\\foo}{bar}")],
        "main.tex",
    );
    let off = offset(&db, doc, 1, 2);
    let link = goto_command_definition(&mut db, doc, off).unwrap();
    assert_eq!(db.uri(link.target), uri_of("defs.tex"));
    assert_eq!(link.target_selection_range, TextRange::new(12, 16));
}
