//! The generator's configuration: the tokens to scan for and where the
//! output goes.
use vstd::prelude::*;
use crate::base::template::expander::TemplateMap;

verus! {

#[derive(Debug)]
pub struct Config {
    pub scanner_name: Option<String>,
    pub output_file: Option<String>,
    pub template_file: Option<String>,
    pub templates: Option<TemplateMap>,
    pub patterns: Vec<PatternDef>,
    pub skip_regexes: Vec<String>,
}

/// A token and the regular expression that recognises it.
#[derive(Debug, Clone)]
pub struct PatternDef {
    pub token: String,
    pub regex: String,
}

} // verus!
