use vstd::prelude::*;
use crate::chars::{chars_eq, chars_of};
use crate::symbol::Kind;

verus! {

/// Everything the indexer knows about one language: its identifier, the
/// file extensions that select it, whether its files carry an embedded
/// script region to cut out first, the grammar, and the compiled structural
/// queries that extract each kind of symbol, in configuration order.
pub struct LanguageConfig {
    pub name: String,
    pub extensions: Vec<String>,
    pub embedded_script: bool,
    pub language: tree_sitter::Language,
    pub symbol_queries: Vec<(Kind, Vec<tree_sitter::Query>)>,
}

/// The immutable whole-process configuration: one entry per language.
/// Constructed once at startup and only ever read afterwards.
pub struct Config {
    pub languages: Vec<LanguageConfig>,
}

/// Whether `lc` claims the file extension `ext`.
pub open spec fn spec_has_ext(lc: &LanguageConfig, ext: Seq<char>) -> bool {
    exists|j: int| 0 <= j < lc.extensions@.len() && (#[trigger] lc.extensions@[j])@ == ext
}

impl LanguageConfig {
    /// Whether this language claims the extension.
    pub fn has_extension(&self, ext: &Vec<char>) -> (r: bool)
        ensures
            r == spec_has_ext(self, ext@),
    {
        let mut j: usize = 0;
        while j < self.extensions.len()
            invariant
                j <= self.extensions@.len(),
                forall|k: int| 0 <= k < j ==> (#[trigger] self.extensions@[k])@ != ext@,
            decreases self.extensions.len() - j,
        {
            let e = chars_of(self.extensions[j].as_str());
            if chars_eq(&e, ext) {
                return true;
            }
            j = j + 1;
        }
        false
    }
}

impl Config {
    /// The first configured language claiming `ext`, if any.
    pub fn language_for(&self, ext: &Vec<char>) -> (r: Option<&LanguageConfig>)
        ensures
            match r {
                Some(lc) => exists|i: int|
                    {
                        &&& 0 <= i < self.languages@.len()
                        &&& lc == &self.languages@[i]
                        &&& spec_has_ext(&self.languages@[i], ext@)
                        &&& forall|k: int|
                            0 <= k < i ==> !spec_has_ext(&self.languages@[k], ext@)
                    },
                None => forall|i: int|
                    0 <= i < self.languages@.len() ==> !spec_has_ext(&self.languages@[i], ext@),
            },
    {
        let mut i: usize = 0;
        while i < self.languages.len()
            invariant
                i <= self.languages@.len(),
                forall|k: int| 0 <= k < i ==> !spec_has_ext(&self.languages@[k], ext@),
            decreases self.languages.len() - i,
        {
            if self.languages[i].has_extension(ext) {
                return Some(&self.languages[i]);
            }
            i = i + 1;
        }
        None
    }
}

} // verus!
