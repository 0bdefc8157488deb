//! The project configuration: inputs, output, and the compiler and lint
//! options.

use vstd::prelude::*;

verus! {

/// The configuration of a project.
#[derive(Debug, Clone, PartialEq, Eq)]
pub struct TokrConfig {
    pub schema: Option<String>,
    pub input: Vec<String>,
    pub output: Option<String>,
    pub options: ConfigOptions,
}

/// The letter case that hex colors must use.
#[derive(Debug, Clone, Copy, Default, PartialEq, Eq, Structural)]
pub enum HexCase {
    #[default]
    Lower,
    Upper,
}

/// The name of a hex case, as messages print it.
pub open spec fn hex_case_name(case: HexCase) -> Seq<char> {
    match case {
        HexCase::Lower => "Lower"@,
        HexCase::Upper => "Upper"@,
    }
}

impl HexCase {
    /// The name of the case, as messages print it.
    pub fn name(&self) -> (r: &'static str)
        ensures
            r@ == hex_case_name(*self),
    {
        match self {
            HexCase::Lower => "Lower",
            HexCase::Upper => "Upper",
        }
    }
}

/// Which lint rules run: variable names in kebab case (on unless turned
/// off), and hex colors in one case (only when a case is given).
#[derive(Debug, Clone, Default, PartialEq, Eq)]
pub struct LintConfig {
    pub kebab_case_vars: Option<bool>,
    pub hex_case: Option<HexCase>,
}

/// The kind of module to write.
#[derive(Debug, Clone, Copy, Default, PartialEq, Eq, Structural)]
pub enum OutputFormat {
    #[default]
    Ts,
    Js,
}

/// The compiler options of a project. `order` gives, for object paths
/// (dotted, `""` for the root), the order of their keys.
#[derive(Debug, Clone, Default, PartialEq, Eq)]
pub struct ConfigOptions {
    pub strict: bool,
    pub format: OutputFormat,
    pub declaration: bool,
    pub order: Option<Vec<(String, Vec<String>)>>,
    pub allow_name_mismatch: bool,
    pub lint: LintConfig,
}

} // verus!
