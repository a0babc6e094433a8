use texlab::database::Database;
use texlab::extras::{analyze, ExplicitLinkKind, ExplicitLink};
use texlab::lexer::{tokenize, Language, TokenKind};
use texlab::line_index::{LineCol, LineIndex};
use texlab::options::{default_build_args, default_build_executable, default_diagnostics_delay, BibtexFormatter, LatexFormatter};
use texlab::syntax::parse;
use texlab::text::{to_chars, TextRange};
use texlab::tree::NodeKind;
use texlab::bibtex_features::find_string_reference_hover;
use texlab::features::find_label_references;

fn chars(s: &str) -> Vec<char> {
    s.chars().collect()
}

fn concat_tokens(text: &str, lang: Language) -> String {
    let tree = parse(text, lang);
    tree.tokens.iter().map(|t| tree.text[t.start..t.end].iter().collect::<String>()).collect()
}

const SAMPLES: &[&str] = &[
    "",
    "\\documentclass{article}\n% comment\n\\begin{document}\nHello $x$ world\\\\ \\label{a}\n\\end{document}\n",
    "}}} { [ ] \\begin{foo} \\end{bar} \\",
    "@string{a = \"X\"}\n@article{k, author = a # {B {C}}, title = \"T\"}\njunk @",
    "\\newlabel{sec:intro}{{1}{2}}",
];

#[test]
fn token_texts_reproduce_the_source() {
    for text in SAMPLES {
        for lang in [Language::Latex, Language::Bibtex, Language::Other] {
            assert_eq!(concat_tokens(text, lang), *text);
        }
    }
}

#[test]
fn every_character_lies_in_one_token() {
    for text in SAMPLES {
        let tree = parse(text, Language::Latex);
        let n = tree.text.len();
        let mut covered = vec![0usize; n];
        for t in &tree.tokens {
            assert!(t.start < t.end);
            for p in t.start..t.end {
                covered[p] += 1;
            }
        }
        assert!(covered.iter().all(|c| *c == 1));
    }
}

#[test]
fn tokens_of_a_command_and_group() {
    let toks = tokenize(&chars("\\label{foo} % x"), Language::Latex);
    let kinds: Vec<TokenKind> = toks.iter().map(|t| t.kind).collect();
    assert_eq!(
        kinds,
        vec![TokenKind::CommandName, TokenKind::LCurly, TokenKind::Word, TokenKind::RCurly, TokenKind::Whitespace, TokenKind::Comment]
    );
    assert_eq!((toks[0].start, toks[0].end), (0, 6));
}

#[test]
fn bibtex_tokens() {
    let toks = tokenize(&chars("@article{k,"), Language::Bibtex);
    let kinds: Vec<TokenKind> = toks.iter().map(|t| t.kind).collect();
    assert_eq!(kinds, vec![TokenKind::EntryType, TokenKind::LCurly, TokenKind::Word, TokenKind::Comma]);
}

#[test]
fn root_spans_every_token() {
    let tree = parse("\\section{A} text {group}", Language::Latex);
    assert_eq!(tree.nodes[0].kind, NodeKind::Root);
    assert_eq!(tree.nodes[0].first, 0);
    assert_eq!(tree.nodes[0].last, tree.tokens.len());
    assert_eq!(tree.nodes[0].end, tree.nodes.len());
}

fn uri(name: &str) -> String {
    format!("file:///project/{}", name)
}

fn extras_of(text: &str, name: &str) -> texlab::extras::Extras {
    let tree = parse(text, Language::Latex);
    analyze(&tree, &to_chars(&uri(name)), &vec![to_chars(&uri(name))])
}

#[test]
fn single_label_definition() {
    let extras = extras_of("\\label{foo}", "main.tex");
    assert_eq!(extras.label_names.len(), 1);
    assert_eq!(extras.label_names[0].text, "foo");
    assert!(extras.label_names[0].is_definition);
    assert_eq!(extras.label_names[0].range, TextRange::new(7, 10));
}

#[test]
fn label_references_split_on_commas() {
    let extras = extras_of("\\cref{a, b}", "main.tex");
    let names: Vec<(&str, bool)> = extras.label_names.iter().map(|l| (l.text.as_str(), l.is_definition)).collect();
    assert_eq!(names, vec![("a", false), ("b", false)]);
    assert_eq!(extras.label_names[1].range, TextRange::new(9, 10));
}

#[test]
fn input_links_resolve_to_known_documents() {
    let mut db = Database::new();
    let a = db.upsert_document(&uri("A.tex"), "\\input{B}", Language::Latex);
    let b = db.upsert_document(&uri("B.tex"), "\\label{x}", Language::Latex);
    let extras = db.extras(a);
    assert_eq!(extras.explicit_links.len(), 1);
    assert_eq!(extras.explicit_links[0].stem, "B");
    assert_eq!(extras.explicit_links[0].kind, ExplicitLinkKind::Latex);
    assert_eq!(extras.explicit_links[0].targets, vec![b]);
    let unit = db.compilation_unit(a);
    assert_eq!(unit, vec![a, b]);
    let off = db.offset_at(a, 0, 0).unwrap();
    let _ = off;
}

#[test]
fn reference_resolves_against_included_labels() {
    let mut db = Database::new();
    let a = db.upsert_document(&uri("A.tex"), "\\input{B}\\ref{x}", Language::Latex);
    let b = db.upsert_document(&uri("B.tex"), "\\label{x}", Language::Latex);
    let refs = find_label_references(&mut db, a, 14, true);
    let mut found: Vec<(usize, TextRange)> = refs.iter().map(|l| (l.document, l.range)).collect();
    found.sort_by_key(|(d, r)| (*d, r.start));
    assert_eq!(found, vec![(a, TextRange::new(14, 15)), (b, TextRange::new(7, 8))]);
}

#[test]
fn unclosed_environment_still_parses() {
    let text = "\\begin{foo}\n\\label{after}\n\\section{Rest}";
    let tree = parse(text, Language::Latex);
    assert!(tree.nodes.iter().any(|n| n.kind == NodeKind::Environment));
    let extras = extras_of(text, "main.tex");
    assert!(!extras.has_document_environment);
    assert_eq!(extras.label_names.len(), 1);
    assert_eq!(extras.label_names[0].text, "after");
    assert!(extras.command_names.contains(&"\\section".to_string()));
}

#[test]
fn document_environment_is_detected() {
    let extras = extras_of("\\begin{foo}\\begin{document}x\\end{document}", "main.tex");
    assert!(extras.has_document_environment);
    assert_eq!(extras.environment_names, vec!["foo".to_string(), "document".to_string()]);
}

#[test]
fn string_reference_resolves_to_its_value() {
    let mut db = Database::new();
    let doc = db.upsert_document(&uri("refs.bib"), "@string{a = \"X\"}\n@article{k, author = a}", Language::Bibtex);
    let off = db.offset_at(doc, 1, 21).unwrap();
    let hover = find_string_reference_hover(&mut db, doc, off).unwrap();
    assert_eq!(hover.text, "\"X\"");
}

#[test]
fn reads_follow_the_latest_edit() {
    let mut db = Database::new();
    let doc = db.upsert_document(&uri("main.tex"), "\\label{first}", Language::Latex);
    let tree = db.syntax_tree(doc);
    assert_eq!(tree.text.iter().collect::<String>(), "\\label{first}");
    assert_eq!(db.extras(doc).label_names[0].text, "first");
    let again = db.upsert_document(&uri("main.tex"), "\\label{second}", Language::Latex);
    assert_eq!(again, doc);
    let tree = db.syntax_tree(doc);
    assert_eq!(tree.text.iter().collect::<String>(), "\\label{second}");
    assert_eq!(db.extras(doc).label_names[0].text, "second");
    assert_eq!(db.text(doc), "\\label{second}");
}

#[test]
fn new_documents_resolve_earlier_links() {
    let mut db = Database::new();
    let a = db.upsert_document(&uri("A.tex"), "\\input{B}", Language::Latex);
    assert!(db.extras(a).explicit_links[0].targets.is_empty());
    let b = db.upsert_document(&uri("B.tex"), "", Language::Latex);
    assert_eq!(db.extras(a).explicit_links[0].targets, vec![b]);
}

#[test]
fn units_are_symmetric() {
    let mut db = Database::new();
    let a = db.upsert_document(&uri("A.tex"), "\\include{B}", Language::Latex);
    let b = db.upsert_document(&uri("B.tex"), "text", Language::Latex);
    let c = db.upsert_document(&uri("C.tex"), "other", Language::Latex);
    assert!(db.compilation_unit(a).contains(&b));
    assert!(db.compilation_unit(b).contains(&a));
    assert_eq!(db.compilation_unit(c), vec![c]);
}

#[test]
fn cyclic_links_terminate() {
    let mut db = Database::new();
    let a = db.upsert_document(&uri("A.tex"), "\\input{B}", Language::Latex);
    let b = db.upsert_document(&uri("B.tex"), "\\input{A}", Language::Latex);
    let mut unit = db.compilation_unit(a);
    unit.sort();
    assert_eq!(unit, vec![a, b]);
}

#[test]
fn unit_root_prefers_document_environment() {
    let mut db = Database::new();
    let chapter = db.upsert_document(&uri("chapter.tex"), "\\section{S}", Language::Latex);
    let main = db.upsert_document(&uri("main.tex"), "\\begin{document}\\input{chapter}\\end{document}", Language::Latex);
    assert_eq!(db.compilation_unit_root(chapter), main);
    let lone = db.upsert_document(&uri("lone.tex"), "x", Language::Latex);
    assert_eq!(db.compilation_unit_root(lone), lone);
}

#[test]
fn analyze_twice_gives_the_same_extras() {
    let tree = parse(SAMPLES[1], Language::Latex);
    let u = to_chars(&uri("main.tex"));
    let first = analyze(&tree, &u, &vec![u.clone()]);
    let second = analyze(&tree, &u, &vec![u.clone()]);
    assert_eq!(first, second);
}

#[test]
fn implicit_links_replace_the_extension() {
    let extras = extras_of("", "dir.v1/main.tex");
    assert_eq!(extras.implicit_links.aux, vec![uri("dir.v1/main.aux")]);
    assert_eq!(extras.implicit_links.log, vec![uri("dir.v1/main.log")]);
    assert_eq!(extras.implicit_links.pdf, vec![uri("dir.v1/main.pdf")]);
    let plain = extras_of("", "dir.v1/README");
    assert_eq!(plain.implicit_links.pdf, vec![uri("dir.v1/README.pdf")]);
}

#[test]
fn packages_and_classes_lose_their_extension() {
    let extras = extras_of("\\documentclass{article}\\usepackage{amsmath, foo.sty}", "main.tex");
    let stems: Vec<(&str, ExplicitLinkKind)> = extras.explicit_links.iter().map(|l| (l.stem.as_str(), l.kind)).collect();
    assert_eq!(stems, vec![("article", ExplicitLinkKind::Class), ("amsmath", ExplicitLinkKind::Package), ("foo", ExplicitLinkKind::Package)]);
    assert_eq!(extras.explicit_links[0].as_component_name(), Some("article.cls".to_string()));
    assert_eq!(extras.explicit_links[1].as_component_name(), Some("amsmath.sty".to_string()));
}

#[test]
fn input_links_have_no_component_name() {
    let link = ExplicitLink { stem: "chapter".to_string(), stem_range: TextRange::new(0, 7), targets: Vec::new(), kind: ExplicitLinkKind::Latex };
    assert_eq!(link.as_component_name(), None);
}

#[test]
fn theorem_graphics_and_numbers() {
    let extras = extras_of(
        "\\newtheorem{lemma}[theorem]{Lemma}\\graphicspath{{figs/}{img/}{figs/}}\\newlabel{sec:a}{{2.1}{3}}\\foo\\foo",
        "main.tex",
    );
    assert_eq!(extras.theorem_environments.len(), 1);
    assert_eq!(extras.theorem_environments[0].name, "lemma");
    assert_eq!(extras.theorem_environments[0].description, "Lemma");
    assert_eq!(extras.graphics_paths, vec!["figs/".to_string(), "img/".to_string()]);
    assert_eq!(extras.label_numbers.len(), 1);
    assert_eq!(extras.label_numbers[0].name, "sec:a");
    assert_eq!(extras.label_numbers[0].number, "2.1");
    assert_eq!(extras.command_names.iter().filter(|c| c.as_str() == "\\foo").count(), 1);
}

#[test]
fn line_index_round_trip() {
    let index = LineIndex::new(&chars("ab\ncd\n"));
    assert_eq!(index.starts, vec![0, 3, 6]);
    let lc = index.line_col(4);
    assert_eq!((lc.line, lc.character), (1, 1));
    assert_eq!(index.offset(LineCol { line: 1, character: 1 }), Some(4));
    assert_eq!(index.offset(LineCol { line: 0, character: 3 }), None);
    assert_eq!(index.offset(LineCol { line: 3, character: 0 }), None);
}

#[test]
fn visibility_is_kept_across_edits() {
    let mut db = Database::new();
    let doc = db.upsert_document(&uri("main.tex"), "a", Language::Latex);
    db.set_visibility(doc, false);
    db.upsert_document(&uri("main.tex"), "b", Language::Latex);
    assert_eq!(db.len(), 1);
    assert_eq!(db.text(doc), "b");
}

#[test]
fn option_defaults() {
    assert_eq!(default_diagnostics_delay(), 300);
    assert_eq!(default_build_executable(), "latexmk");
    assert_eq!(default_build_args(), vec!["-pdf", "-interaction=nonstopmode", "-synctex=1", "%f"]);
    assert_eq!(BibtexFormatter::default(), BibtexFormatter::Texlab);
    assert_eq!(LatexFormatter::default(), LatexFormatter::Latexindent);
}

#[test]
fn label_number_is_set_once_per_name() {
    let tree = parse("\\newlabel{a}{{1}{2}}\\newlabel{a}{{3}{4}}", Language::Latex);
    let u = to_chars(&uri("main.aux"));
    let extras = analyze(&tree, &u, &vec![u.clone()]);
    assert_eq!(extras.label_numbers.len(), 1);
    assert_eq!(extras.label_numbers[0].number, "3");
    let node = tree.nodes.iter().position(|n| n.kind == NodeKind::Command).unwrap();
    let mut again = extras.clone();
    assert_eq!(texlab::extras::analyze_label_number(&mut again, &tree, node), Some(()));
    assert_eq!(again.label_numbers.len(), 1);
    assert_eq!(again.label_numbers[0].number, "1");
    let once = again.clone();
    texlab::extras::analyze_label_number(&mut again, &tree, node);
    assert_eq!(again, once);
}

#[test]
fn label_number_may_be_a_bracket_group() {
    let extras = extras_of("\\newlabel{eq}{[A]}", "main.aux");
    assert_eq!(extras.label_numbers.len(), 1);
    assert_eq!(extras.label_numbers[0].number, "[A]");
}

#[test]
fn references_from_the_label_command() {
    let mut db = Database::new();
    let doc = db.upsert_document(&uri("main.tex"), "\\label{foo}\\ref{foo}", Language::Latex);
    let refs = find_label_references(&mut db, doc, 2, true);
    let mut ranges: Vec<TextRange> = refs.iter().map(|l| l.range).collect();
    ranges.sort_by_key(|r| r.start);
    assert_eq!(ranges, vec![TextRange::new(7, 10), TextRange::new(16, 19)]);
}

#[test]
fn string_features_ignore_latex_documents() {
    let mut db = Database::new();
    let doc = db.upsert_document(&uri("main.tex"), "@string{a = \"X\"} a", Language::Latex);
    assert_eq!(find_string_reference_hover(&mut db, doc, 17), None);
}

#[test]
fn completion_follows_the_latest_edit() {
    let mut db = Database::new();
    let doc = db.upsert_document(&uri("main.tex"), "\\foo\\bar", Language::Latex);
    let first = texlab::features::complete_user_commands(&mut db, doc, 4);
    assert_eq!(first.iter().map(|i| i.name.as_str()).collect::<Vec<_>>(), vec!["\\bar"]);
    db.upsert_document(&uri("main.tex"), "\\foo\\baz", Language::Latex);
    let second = texlab::features::complete_user_commands(&mut db, doc, 4);
    assert_eq!(second.iter().map(|i| i.name.as_str()).collect::<Vec<_>>(), vec!["\\baz"]);
    assert_eq!(second[0].range, TextRange::new(1, 4));
}
