//! The front matter of a markdown model: identifiers, prefixes, namespace
//! map, repository, prefix and imports.

use vstd::prelude::*;
use crate::text;

verus! {

/// Represents different types of model imports: a remote URL or a local
/// file path.
#[derive(Debug, Clone, PartialEq)]
pub enum ImportType {
    /// A remote URL pointing to a model.
    Remote(String),
    /// A local file path to a model.
    Local(String),
}

/// Locations that start with `http://` or `https://` are remote.
pub open spec fn is_remote_location(s: Seq<char>) -> bool {
    text::starts_with(s, "http://"@) || text::starts_with(s, "https://"@)
}

impl ImportType {
    /// Classifies an import location: URLs starting with `http://` or
    /// `https://` are remote, anything else is a local path.
    pub fn from_location(s: String) -> (r: ImportType)
        ensures
            is_remote_location(s@) ==> r == ImportType::Remote(s),
            !is_remote_location(s@) ==> r == ImportType::Local(s),
    {
        let cs = text::chars_of(s.as_str());
        let http = text::chars_of("http://");
        let https = text::chars_of("https://");
        if text::has_prefix(&cs, &http) || text::has_prefix(&cs, &https) {
            ImportType::Remote(s)
        } else {
            ImportType::Local(s)
        }
    }
}

/// Represents the front matter data of a markdown file. Key-value maps are
/// kept as lists of pairs in the order they were given.
#[derive(Debug, Clone, PartialEq)]
pub struct FrontMatter {
    /// Identifier field of the model.
    pub id: Option<String>,
    /// Whether identifier fields are generated (`id-field`).
    pub id_field: bool,
    /// Optional prefixes, as (prefix, IRI) pairs.
    pub prefixes: Option<Vec<(String, String)>>,
    /// Optional namespace map, as (prefix, IRI) pairs.
    pub nsmap: Option<Vec<(String, String)>>,
    /// The repository URL.
    pub repo: String,
    /// The prefix.
    pub prefix: String,
    /// Imported models, by prefix.
    pub imports: Vec<(String, ImportType)>,
    /// Allow empty models (`allow-empty`).
    pub allow_empty: bool,
}

/// Provides the default value for the `id_field`: `true`.
pub fn default_id_field() -> (r: bool)
    ensures
        r,
{
    true
}

/// Provides the default value for the `prefix`: `"md"`.
pub fn default_prefix() -> (r: String)
    ensures
        r@ == "md"@,
{
    String::from_str("md")
}

/// Provides the default value for the `repo`: `"http://mdmodel.net/"`.
pub fn default_repo() -> (r: String)
    ensures
        r@ == "http://mdmodel.net/"@,
{
    String::from_str("http://mdmodel.net/")
}

/// Provides the default value for `allow_empty`: `false`.
pub fn default_allow_empty() -> (r: bool)
    ensures
        !r,
{
    false
}

/// No key occurs twice among the pairs.
pub open spec fn pair_keys_distinct(p: Seq<(Seq<char>, Seq<char>)>) -> bool {
    forall|i: int, j: int| 0 <= i < j < p.len() ==> #[trigger] p[i].0 != #[trigger] p[j].0
}

impl FrontMatter {
    /// Each of the prefixes, the namespace map and the imports holds a key
    /// at most once, as the maps they stand for do.
    pub open spec fn wf(self) -> bool {
        &&& (self.prefixes matches Some(p) ==> pair_keys_distinct(text::pairs_view(p@)))
        &&& (self.nsmap matches Some(n) ==> pair_keys_distinct(text::pairs_view(n@)))
        &&& forall|i: int, j: int|
            0 <= i < j < self.imports@.len() ==> #[trigger] self.imports@[i].0@ != #[trigger] self.imports@[j].0@
    }

    /// The front matter that a model without one has: no id, prefixes,
    /// namespace map or imports, `id-field` on, empty models refused, and
    /// the default repository and prefix.
    pub open spec fn is_default(self) -> bool {
        &&& self.id is None
        &&& self.id_field
        &&& self.prefixes is None
        &&& self.nsmap is None
        &&& self.repo@ == "http://mdmodel.net/"@
        &&& self.prefix@ == "md"@
        &&& self.imports@.len() == 0
        &&& !self.allow_empty
    }

    /// Creates the default front matter.
    pub fn new() -> (r: Self)
        ensures
            r.is_default(),
            r.wf(),
    {
        FrontMatter {
            id: None,
            id_field: default_id_field(),
            prefixes: None,
            nsmap: None,
            repo: default_repo(),
            prefix: default_prefix(),
            imports: Vec::new(),
            allow_empty: default_allow_empty(),
        }
    }

    /// The default front matter.
    pub fn default() -> (r: Self)
        ensures
            r.is_default(),
            r.wf(),
    {
        Self::new()
    }

    /// Returns the value of the `id_field`.
    pub fn id_field(&self) -> (r: bool)
        ensures
            r == self.id_field,
    {
        self.id_field
    }

    /// Returns a copy of the prefixes as (prefix, IRI) pairs, if any.
    pub fn prefixes(&self) -> (r: Option<Vec<(String, String)>>)
        ensures
            match self.prefixes {
                None => r is None,
                Some(p) => r matches Some(q) && text::pairs_view(q@) == text::pairs_view(p@),
            },
            self.wf() && r is Some ==> pair_keys_distinct(text::pairs_view(r.unwrap()@)),
    {
        match &self.prefixes {
            None => None,
            Some(p) => Some(text::clone_pairs(p)),
        }
    }

    /// Returns a reference to the namespace map.
    pub fn nsmap(&self) -> (r: &Option<Vec<(String, String)>>)
        ensures
            r == &self.nsmap,
    {
        &self.nsmap
    }
}

} // verus!
