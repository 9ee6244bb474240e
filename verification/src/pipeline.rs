//! Generation pipelines: a description of which outputs to generate from
//! which model files, and the decisions taken for each of them.

use vstd::prelude::*;
use vstd::string::*;
use crate::exporters::{self, Templates};
use crate::text;

verus! {

// ---------------------------------------------------------------------------
// Paths
// ---------------------------------------------------------------------------

/// `base` joined with `p` by the rules of `Path::join` on Unix: an absolute
/// `p` replaces `base`; otherwise a separator is put between them unless
/// `base` is empty or already ends with one.
pub open spec fn path_join(base: Seq<char>, p: Seq<char>) -> Seq<char> {
    if p.len() > 0 && p[0] == '/' {
        p
    } else if base.len() == 0 || base.last() == '/' {
        base + p
    } else {
        base + "/"@ + p
    }
}

/// Joins two paths (see [`path_join`]).
pub fn join_path(base: &str, p: &str) -> (r: String)
    ensures
        r@ == path_join(base@, p@),
{
    let bc = text::chars_of(base);
    let pc = text::chars_of(p);
    if pc.len() > 0 && pc[0] == '/' {
        String::from_str(p)
    } else if bc.len() == 0 || bc[bc.len() - 1] == '/' {
        let mut r = String::from_str(base);
        r.append(p);
        r
    } else {
        let mut r = String::from_str(base);
        r.append("/");
        r.append(p);
        r
    }
}

/// A path whose last segment is a file name: the path does not end with a
/// separator and its last segment is neither `.` nor `..`.
pub open spec fn names_file(p: Seq<char>) -> bool {
    let f = file_name_of(p);
    &&& f.len() > 0
    &&& f != "."@
    &&& f != ".."@
}

/// The last segment of a path: what follows its last separator.
pub open spec fn file_name_of(p: Seq<char>) -> Seq<char> {
    match text::last_index_of(p, '/') {
        Some(k) => p.skip(k + 1),
        None => p,
    }
}

/// The directory of a path whose last segment is a file name: the root for
/// a file directly under it, and the empty path for a bare file name.
pub open spec fn parent_of(p: Seq<char>) -> Seq<char> {
    match text::last_index_of(p, '/') {
        Some(k) => if k == 0 {
            "/"@
        } else {
            p.take(k)
        },
        None => Seq::empty(),
    }
}

/// What `^.+/\*\.[a-zA-Z0-9]+$` matches: at least one character other than
/// a line feed, a separator, `*.`, and then one or more ASCII letters or
/// digits up to the end.
pub open spec fn wildcard_form(s: Seq<char>) -> bool {
    exists|i: int|
        #![trigger s[i]]
        0 < i && i + 3 < s.len() && (forall|j: int| 0 <= j < i ==> s[j] != '\n') && s[i] == '/'
            && s[i + 1] == '*' && s[i + 2] == '.' && (forall|j: int|
            i + 3 <= j < s.len() ==> text::ascii_letter(#[trigger] s[j]) || text::ascii_digit(
                s[j],
            ))
}

/// Matches `path` against the regular expression `^.+/\*\.[a-zA-Z0-9]+$`
/// with the `regex` crate; the contract states the language of that
/// expression.
#[verifier::external_body]
fn wildcard_regex_match(path: &str) -> (r: bool)
    ensures
        r == wildcard_form(path@),
{
    regex::Regex::new(r"^.+/\*\.[a-zA-Z0-9]+$").unwrap().is_match(path)
}

/// Checks if the given path has a wildcard file name, such as
/// `path/to/*.json`.
pub fn has_wildcard_fname(path: &str) -> (r: bool)
    ensures
        r == wildcard_form(path@),
{
    wildcard_regex_match(path)
}

/// The last segment of a path.
fn file_name(p: &str) -> (r: Vec<char>)
    ensures
        r@ == file_name_of(p@),
{
    let pc = text::chars_of(p);
    match text::rfind_char(&pc, '/') {
        Some(k) => {
            let n = pc.len();
            text::sub_chars(&pc, k + 1, n)
        },
        None => pc,
    }
}

/// The file name of a path without its extensions: the last segment up to
/// its first `.`.
pub open spec fn spec_file_stem(p: Seq<char>) -> Seq<char> {
    text::before_first(file_name_of(p), '.')
}

/// Gets the file name without the extension.
pub fn get_file_name(path: &str) -> (r: String)
    requires
        names_file(path@),
    ensures
        r@ == spec_file_stem(path@),
{
    let f = file_name(path);
    let mut i: usize = 0;
    assert(f@.skip(0) =~= f@);
    assert(f@.take(0) + f@ =~= f@);
    while i < f.len() && f[i] != '.'
        invariant
            i <= f@.len(),
            f@ == file_name_of(path@),
            forall|j: int| 0 <= j < i ==> f@[j] != '.',
            text::before_first(f@, '.') == f@.take(i as int) + text::before_first(f@.skip(i as int), '.'),
        decreases f.len() - i,
    {
        assert(f@.skip(i as int).skip(1) =~= f@.skip(i + 1));
        assert(f@.take(i + 1) =~= f@.take(i as int) + seq![f@[i as int]]);
        i = i + 1;
    }
    if i < f.len() {
        assert(text::before_first(f@.skip(i as int), '.') == Seq::<char>::empty());
    } else {
        assert(f@.skip(i as int) =~= Seq::<char>::empty());
    }
    assert(text::before_first(f@, '.') =~= f@.take(i as int));
    let stem = text::sub_chars(&f, 0, i);
    text::string_of(&stem)
}

/// The path with the `*` of its file name replaced by `name`.
pub open spec fn spec_replace_wildcard(path: Seq<char>, name: Seq<char>) -> Seq<char> {
    path_join(parent_of(path), text::replace_char_by(file_name_of(path), '*', name))
}

/// Replaces the wildcard in the file name of `path` with `name`.
pub fn replace_wildcard_fname(path: &str, name: &str) -> (r: String)
    requires
        names_file(path@),
    ensures
        r@ == spec_replace_wildcard(path@, name@),
{
    let pc = text::chars_of(path);
    let f = text::string_of(&file_name(path));
    let new_name = text::replace_char_str(f.as_str(), '*', name);
    let parent = match text::rfind_char(&pc, '/') {
        Some(k) => if k == 0 {
            String::from_str("/")
        } else {
            text::string_of(&text::sub_chars(&pc, 0, k))
        },
        None => String::new(),
    };
    proof {
        reveal_strlit("/");
    }
    join_path(parent.as_str(), new_name.as_str())
}

// ---------------------------------------------------------------------------
// Templates of a pipeline
// ---------------------------------------------------------------------------

/// Represents metadata for the template.
#[derive(Debug, Clone, PartialEq)]
pub struct Meta {
    pub name: Option<String>,
    pub description: Option<String>,
    pub paths: Vec<String>,
}

/// Represents generation specifications for a template.
#[derive(Debug, Clone, PartialEq)]
pub struct GenSpecs {
    pub description: Option<String>,
    pub out: String,
    pub root: Option<String>,
    pub per_spec: Option<bool>,
    pub config: Vec<(String, String)>,
}

/// Represents a template with metadata and generation specifications, one
/// for each output format named.
#[derive(Debug, Clone, PartialEq)]
pub struct GenTemplate {
    pub meta: Meta,
    pub generate: Vec<(String, GenSpecs)>,
}

/// `new` is `old` with its output path put under `root`.
pub open spec fn rooted_specs(new: GenSpecs, old: GenSpecs, root: Seq<char>) -> bool {
    &&& new.out@ == path_join(root, old.out@)
    &&& new.description == old.description
    &&& new.root == old.root
    &&& new.per_spec == old.per_spec
    &&& new.config == old.config
}

impl GenSpecs {
    /// Puts the output path under `path`. The caller makes sure that `path`
    /// is a directory: the pipeline refuses a root that is a file.
    pub fn prepend_root(&mut self, path: &str)
        ensures
            rooted_specs(*final(self), *old(self), path@),
    {
        self.out = join_path(path, self.out.as_str());
    }
}

impl GenTemplate {
    /// Puts every model path and every output path under `path`.
    pub fn prepend_root(&mut self, path: &str)
        ensures
            final(self).meta.name == old(self).meta.name,
            final(self).meta.description == old(self).meta.description,
            final(self).meta.paths@.len() == old(self).meta.paths@.len(),
            forall|i: int|
                0 <= i < old(self).meta.paths@.len() ==> #[trigger] final(self).meta.paths@[i]@
                    == path_join(path@, old(self).meta.paths@[i]@),
            final(self).generate@.len() == old(self).generate@.len(),
            forall|i: int|
                0 <= i < old(self).generate@.len() ==> #[trigger] final(self).generate@[i].0
                    == old(self).generate@[i].0 && rooted_specs(
                    final(self).generate@[i].1,
                    old(self).generate@[i].1,
                    path@,
                ),
    {
        let mut pending: Vec<(String, GenSpecs)> = Vec::new();
        std::mem::swap(&mut pending, &mut self.generate);
        let ghost orig = pending@;
        let mut done: Vec<(String, GenSpecs)> = Vec::new();
        while pending.len() > 0
            invariant
                orig == old(self).generate@,
                done@.len() + pending@.len() == orig.len(),
                pending@ == orig.skip(done@.len() as int),
                forall|i: int|
                    0 <= i < done@.len() ==> #[trigger] done@[i].0 == orig[i].0 && rooted_specs(
                        done@[i].1,
                        orig[i].1,
                        path@,
                    ),
                self.meta == old(self).meta,
            decreases pending@.len(),
        {
            let ghost k = done@.len() as int;
            let (name, mut specs) = pending.remove(0);
            assert(orig[k] == (name, specs));
            specs.prepend_root(path);
            done.push((name, specs));
            assert(pending@ =~= orig.skip(done@.len() as int));
        }
        self.generate = done;
        let mut paths: Vec<String> = Vec::new();
        let mut i: usize = 0;
        while i < self.meta.paths.len()
            invariant
                i <= self.meta.paths@.len(),
                self.meta == old(self).meta,
                paths@.len() == i,
                forall|j: int|
                    0 <= j < i ==> #[trigger] paths@[j]@ == path_join(
                        path@,
                        old(self).meta.paths@[j]@,
                    ),
            decreases self.meta.paths.len() - i,
        {
            let p = join_path(path, self.meta.paths[i].as_str());
            paths.push(p);
            i = i + 1;
        }
        self.meta.paths = paths;
    }
}

// ---------------------------------------------------------------------------
// Decisions of the pipeline
// ---------------------------------------------------------------------------

/// State that determines whether the models are merged before an output
/// is generated, or each is generated on its own.
#[derive(Debug, Clone, Copy, PartialEq, Eq, Structural)]
pub enum MergeState {
    Merge,
    NoMerge,
}

impl MergeState {
    /// The state for the `per-spec` setting: one output per model file when
    /// set, one merged output otherwise.
    pub fn from_per_spec(per_spec: bool) -> (r: MergeState)
        ensures
            r == (if per_spec {
                MergeState::NoMerge
            } else {
                MergeState::Merge
            }),
    {
        if per_spec {
            MergeState::NoMerge
        } else {
            MergeState::Merge
        }
    }
}

/// What the pipeline does for one entry of its `generate` table.
#[derive(Debug, Clone, PartialEq)]
pub enum GenerationStep {
    /// One JSON schema, rooted at the given object.
    JsonSchema { root: Option<String>, out: String, merge: MergeState },
    /// A JSON schema for every object, into the directory `out`.
    JsonSchemaAll { out: String, merge: MergeState },
    /// The internal schema.
    Internal { out: String, merge: MergeState },
    /// A rendering through the template, with its configuration.
    ByTemplate {
        template: Templates,
        out: String,
        merge: MergeState,
        config: Vec<(String, String)>,
    },
}

/// The key `k` is set in `config`.
pub open spec fn has_key(config: Seq<(String, String)>, k: Seq<char>) -> bool {
    exists|i: int| 0 <= i < config.len() && (#[trigger] config[i]).0@ == k
}

/// Whether `config` sets the key `k`.
pub fn contains_key(config: &Vec<(String, String)>, k: &str) -> (r: bool)
    ensures
        r == has_key(config@, k@),
{
    let mut i: usize = 0;
    while i < config.len()
        invariant
            i <= config@.len(),
            forall|j: int| 0 <= j < i ==> (#[trigger] config@[j]).0@ != k@,
        decreases config.len() - i,
    {
        if text::str_eq(config[i].0.as_str(), k) {
            return true;
        }
        i = i + 1;
    }
    false
}

/// The message for a per-spec rendering whose output has no wildcard.
pub open spec fn wildcard_message() -> Seq<char> {
    "\n                    Output file name must contain a wildcard.\n                    For example, a valid wildcard is 'path/to/*.json'"@
}

/// The merge state of a specification: merging unless `per-spec` is set.
pub open spec fn spec_merge_of(specs: GenSpecs) -> MergeState {
    match specs.per_spec {
        Some(true) => MergeState::NoMerge,
        _ => MergeState::Merge,
    }
}

/// The step for the entry `name` of the `generate` table, or why it cannot
/// be taken: the name must be a template; a per-spec rendering through a
/// template needs a wildcard in its output file name; MkDocs rendered from
/// merged models gets `nav = false` unless it sets `nav` itself.
pub open spec fn spec_generation_step(name: Seq<char>, specs: GenSpecs) -> Result<
    GenerationStepView,
    Seq<char>,
> {
    let merge = spec_merge_of(specs);
    match exporters::spec_template(name) {
        None => Err("Invalid template type: "@ + name),
        Some(Templates::JsonSchema) => Ok(GenerationStepView::JsonSchema),
        Some(Templates::JsonSchemaAll) => Ok(GenerationStepView::JsonSchemaAll),
        Some(Templates::Internal) => Ok(GenerationStepView::Internal),
        Some(t) => if merge == MergeState::NoMerge && !wildcard_form(specs.out@) {
            Err(wildcard_message())
        } else if t == Templates::MkDocs && merge == MergeState::Merge && !has_key(
            specs.config@,
            "nav"@,
        ) {
            Ok(GenerationStepView::ByTemplate(t, true))
        } else {
            Ok(GenerationStepView::ByTemplate(t, false))
        },
    }
}

/// The kind of a [`GenerationStep`]; for a rendering through a template,
/// the template and whether `nav = false` was added to its configuration.
pub enum GenerationStepView {
    JsonSchema,
    JsonSchemaAll,
    Internal,
    ByTemplate(Templates, bool),
}

/// The step matches its kind, takes its output path and merge state from
/// the specification, and carries the configuration (with `nav = false`
/// added where the kind says so).
pub open spec fn step_matches(
    step: GenerationStep,
    kind: GenerationStepView,
    specs: GenSpecs,
) -> bool {
    let merge = spec_merge_of(specs);
    match step {
        GenerationStep::JsonSchema { root, out, merge: m } => kind is JsonSchema && root
            == specs.root && out == specs.out && m == merge,
        GenerationStep::JsonSchemaAll { out, merge: m } => kind is JsonSchemaAll && out
            == specs.out && m == merge,
        GenerationStep::Internal { out, merge: m } => kind is Internal && out == specs.out && m
            == merge,
        GenerationStep::ByTemplate { template, out, merge: m, config } => match kind {
            GenerationStepView::ByTemplate(t, nav) => template == t && out == specs.out && m
                == merge && text::pairs_view(config@) == (if nav {
                text::pairs_view(specs.config@).push(("nav"@, "false"@))
            } else {
                text::pairs_view(specs.config@)
            }),
            _ => false,
        },
    }
}

/// Decides what the pipeline does for the entry `name` of its `generate`
/// table (see [`spec_generation_step`]).
pub fn generation_step(name: &str, specs: &GenSpecs) -> (r: Result<GenerationStep, String>)
    ensures
        match r {
            Ok(step) => match spec_generation_step(name@, *specs) {
                Ok(kind) => step_matches(step, kind, *specs),
                Err(_) => false,
            },
            Err(e) => spec_generation_step(name@, *specs) == Err::<GenerationStepView, Seq<char>>(
                e@,
            ),
        },
{
    let template = match Templates::from_str(name) {
        Ok(t) => t,
        Err(e) => return Err(e),
    };
    let merge = MergeState::from_per_spec(
        match specs.per_spec {
            Some(b) => b,
            None => false,
        },
    );
    let out = specs.out.clone();
    match template {
        Templates::JsonSchema => {
            let root = match &specs.root {
                Some(r) => Some(r.clone()),
                None => None,
            };
            Ok(GenerationStep::JsonSchema { root, out, merge })
        },
        Templates::JsonSchemaAll => Ok(GenerationStep::JsonSchemaAll { out, merge }),
        Templates::Internal => Ok(GenerationStep::Internal { out, merge }),
        _ => {
            if merge == MergeState::NoMerge && !has_wildcard_fname(specs.out.as_str()) {
                return Err(
                    String::from_str(
                        "\n                    Output file name must contain a wildcard.\n                    For example, a valid wildcard is 'path/to/*.json'",
                    ),
                );
            }
            let mut config = text::clone_pairs(&specs.config);
            if template == Templates::MkDocs && merge == MergeState::Merge && !contains_key(
                &specs.config,
                "nav",
            ) {
                let ghost before = config@;
                config.push((String::from_str("nav"), String::from_str("false")));
                assert(text::pairs_view(config@) =~= text::pairs_view(before).push(
                    ("nav"@, "false"@),
                ));
            }
            Ok(GenerationStep::ByTemplate { template, out, merge, config })
        },
    }
}

/// The root object a single JSON schema is generated for: refused for
/// per-spec generation and when no root is given.
pub fn json_schema_root(root: &Option<String>, merge: MergeState) -> (r: Result<String, String>)
    ensures
        merge == MergeState::NoMerge ==> r is Err && r->Err_0@
            == "Per spec is not supported for single JSON schema generation at the moment."@,
        merge == MergeState::Merge && root is None ==> r is Err && r->Err_0@
            == "Root object has to be specified"@,
        merge == MergeState::Merge && root is Some ==> r is Ok && r->Ok_0@ == root->Some_0@,
{
    if merge == MergeState::NoMerge {
        return Err(
            String::from_str(
                "Per spec is not supported for single JSON schema generation at the moment.",
            ),
        );
    }
    match root {
        Some(r) => Ok(r.clone()),
        None => Err(String::from_str("Root object has to be specified")),
    }
}

/// Whether the internal schema can be generated: only from merged models.
pub fn internal_schema_allowed(merge: MergeState) -> (r: Result<(), String>)
    ensures
        merge == MergeState::Merge <==> r is Ok,
        r is Err ==> r->Err_0@
            == "Per spec is not supported for internal schema generation at the moment."@,
{
    match merge {
        MergeState::Merge => Ok(()),
        MergeState::NoMerge => Err(
            String::from_str(
                "Per spec is not supported for internal schema generation at the moment.",
            ),
        ),
    }
}

} // verus!
