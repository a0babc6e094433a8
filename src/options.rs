//! The client's configuration snapshot.
use vstd::prelude::*;

verus! {

/// Relies on `std::path::PathBuf` only to hold a path; nothing here reads it.
#[verifier::external_type_specification]
#[verifier::external_body]
pub struct ExPathBuf(std::path::PathBuf);

/// Relies on `regex::Regex` only to hold a compiled pattern; nothing here
/// reads it.
#[verifier::external_type_specification]
#[verifier::external_body]
pub struct ExRegex(regex::Regex);

#[derive(Debug, Default)]
pub struct Options {
    pub root_directory: Option<std::path::PathBuf>,
    pub aux_directory: Option<std::path::PathBuf>,
    pub bibtex_formatter: BibtexFormatter,
    pub latex_formatter: LatexFormatter,
    pub formatter_line_length: Option<i32>,
    pub diagnostics: DiagnosticsOptions,
    pub diagnostics_delay: u64,
    pub build: BuildOptions,
    pub chktex: ChktexOptions,
    pub latexindent: LatexindentOptions,
    pub forward_search: ForwardSearchOptions,
}

/// The delay, in milliseconds, before diagnostics are computed.
pub fn default_diagnostics_delay() -> (r: u64)
    ensures
        r == 300,
{
    300
}

#[derive(Debug, PartialEq, Eq, Clone, Copy, Structural)]
pub enum BibtexFormatter {
    Texlab,
    Latexindent,
}

impl Default for BibtexFormatter {
    fn default() -> (r: Self)
        ensures
            r == BibtexFormatter::Texlab,
    {
        BibtexFormatter::Texlab
    }
}

#[derive(Debug, PartialEq, Eq, Clone, Copy, Structural)]
pub enum LatexFormatter {
    Texlab,
    Latexindent,
}

impl Default for LatexFormatter {
    fn default() -> (r: Self)
        ensures
            r == LatexFormatter::Latexindent,
    {
        LatexFormatter::Latexindent
    }
}

#[derive(Debug, PartialEq, Eq, Clone, Default)]
pub struct LatexindentOptions {
    pub local: Option<String>,
    pub modify_line_breaks: bool,
}

#[derive(Debug, PartialEq, Eq, Clone, Default)]
pub struct BuildOptions {
    pub executable: String,
    pub args: Vec<String>,
    pub is_continuous: bool,
    pub on_save: bool,
    pub forward_search_after: bool,
}

/// The build program used when none is configured.
pub fn default_build_executable() -> (r: String)
    ensures
        r@ == "latexmk"@,
{
    crate::text::string_from_chars(crate::text::to_chars("latexmk").as_slice())
}

/// The build arguments used when none are configured; `%f` stands for the
/// file to build.
pub fn default_build_args() -> (r: Vec<String>)
    ensures
        r@.map_values(|s: String| s@) == seq!["-pdf"@, "-interaction=nonstopmode"@, "-synctex=1"@, "%f"@],
{
    let a = crate::text::string_from_chars(crate::text::to_chars("-pdf").as_slice());
    let b = crate::text::string_from_chars(crate::text::to_chars("-interaction=nonstopmode").as_slice());
    let c = crate::text::string_from_chars(crate::text::to_chars("-synctex=1").as_slice());
    let d = crate::text::string_from_chars(crate::text::to_chars("%f").as_slice());
    let r = vec![a, b, c, d];
    assert(r@.map_values(|s: String| s@) =~= seq!["-pdf"@, "-interaction=nonstopmode"@, "-synctex=1"@, "%f"@]);
    r
}

#[derive(Debug, PartialEq, Eq, Clone, Default)]
pub struct ChktexOptions {
    pub on_open_and_save: bool,
    pub on_edit: bool,
}

#[derive(Debug, PartialEq, Eq, Clone, Default)]
pub struct ForwardSearchOptions {
    pub executable: Option<String>,
    pub args: Option<Vec<String>>,
}

#[derive(Debug, Default)]
pub struct DiagnosticsOptions {
    pub allowed_patterns: Vec<DiagnosticsPattern>,
    pub ignored_patterns: Vec<DiagnosticsPattern>,
}

/// A pattern that selects diagnostics by their message.
#[derive(Debug)]
pub struct DiagnosticsPattern(pub regex::Regex);

} // verus!
