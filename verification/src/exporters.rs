//! The output formats a model can be exported to.

use vstd::prelude::*;
use vstd::string::*;
use crate::text;
use crate::attribute::{self, AttrOption, Attribute, AttributeView, DataType, DataValue};
use crate::datamodel::DataModel;
use crate::object::{self, enums_view, EnumView, Enumeration, Mappings, Object, ObjectView};
use crate::tree;
use convert_case::Casing;

verus! {

/// Enumeration of available templates.
#[derive(Debug, Clone, Copy, PartialEq, Eq, Structural)]
pub enum Templates {
    /// XML Schema
    XmlSchema,
    /// Markdown
    Markdown,
    /// Compact Markdown
    CompactMarkdown,
    /// SHACL
    Shacl,
    /// JSON Schema
    JsonSchema,
    /// JSON Schema All
    JsonSchemaAll,
    /// ShEx
    Shex,
    /// Python Dataclass
    PythonDataclass,
    /// Python Pydantic XML
    PythonPydanticXML,
    /// Python Pydantic
    PythonPydantic,
    /// MkDocs
    MkDocs,
    /// Internal
    Internal,
    /// Typescript (io-ts)
    Typescript,
    /// Typescript (Zod)
    TypescriptZod,
    /// Rust
    Rust,
    /// Protobuf
    Protobuf,
    /// Graphql
    Graphql,
    /// Golang
    Golang,
    /// Linkml
    Linkml,
    /// Julia
    Julia,
    /// Mermaid class diagram
    Mermaid,
}

/// The name under which a template is displayed.
pub open spec fn template_name(t: Templates) -> Seq<char> {
    match t {
        Templates::PythonDataclass => "python-dataclass"@,
        Templates::PythonPydantic => "python-pydantic"@,
        Templates::PythonPydanticXML => "python-pydantic-xml"@,
        Templates::XmlSchema => "xml-schema"@,
        Templates::Markdown => "markdown"@,
        Templates::CompactMarkdown => "compact-markdown"@,
        Templates::Shacl => "shacl"@,
        Templates::JsonSchema => "json-schema"@,
        Templates::JsonSchemaAll => "json-schema-all"@,
        Templates::Shex => "shex"@,
        Templates::MkDocs => "mk-docs"@,
        Templates::Internal => "internal"@,
        Templates::Typescript => "typescript"@,
        Templates::TypescriptZod => "typescript-zod"@,
        Templates::Rust => "rust"@,
        Templates::Protobuf => "protobuf"@,
        Templates::Graphql => "graphql"@,
        Templates::Golang => "golang"@,
        Templates::Linkml => "linkml"@,
        Templates::Julia => "julia"@,
        Templates::Mermaid => "mermaid"@,
    }
}

/// The template a name stands for: each displayed name, `mkdocs` for the
/// MkDocs template, and `python-sdrdm` for the pydantic-xml template.
pub open spec fn spec_template(s: Seq<char>) -> Option<Templates> {
    if s == "python-dataclass"@ {
        Some(Templates::PythonDataclass)
    } else if s == "python-sdrdm"@ {
        Some(Templates::PythonPydanticXML)
    } else if s == "python-pydantic"@ {
        Some(Templates::PythonPydantic)
    } else if s == "python-pydantic-xml"@ {
        Some(Templates::PythonPydanticXML)
    } else if s == "xml-schema"@ {
        Some(Templates::XmlSchema)
    } else if s == "markdown"@ {
        Some(Templates::Markdown)
    } else if s == "compact-markdown"@ {
        Some(Templates::CompactMarkdown)
    } else if s == "shacl"@ {
        Some(Templates::Shacl)
    } else if s == "json-schema"@ {
        Some(Templates::JsonSchema)
    } else if s == "json-schema-all"@ {
        Some(Templates::JsonSchemaAll)
    } else if s == "shex"@ {
        Some(Templates::Shex)
    } else if s == "mk-docs"@ {
        Some(Templates::MkDocs)
    } else if s == "internal"@ {
        Some(Templates::Internal)
    } else if s == "typescript"@ {
        Some(Templates::Typescript)
    } else if s == "typescript-zod"@ {
        Some(Templates::TypescriptZod)
    } else if s == "rust"@ {
        Some(Templates::Rust)
    } else if s == "protobuf"@ {
        Some(Templates::Protobuf)
    } else if s == "graphql"@ {
        Some(Templates::Graphql)
    } else if s == "golang"@ {
        Some(Templates::Golang)
    } else if s == "linkml"@ {
        Some(Templates::Linkml)
    } else if s == "julia"@ {
        Some(Templates::Julia)
    } else if s == "mermaid"@ {
        Some(Templates::Mermaid)
    } else if s == "mkdocs"@ {
        Some(Templates::MkDocs)
    } else {
        None
    }
}

/// Two character sequences differ where their lengths differ or where they
/// differ at an index.
proof fn lemma_seq_differ(a: Seq<char>, b: Seq<char>, i: int)
    requires
        a.len() != b.len() || (0 <= i < a.len() && i < b.len() && a[i] != b[i]),
    ensures
        a != b,
{
}

/// Reading the displayed name of a template gives the template back.
pub proof fn law_template_name_round_trip(t: Templates)
    ensures
        spec_template(template_name(t)) == Some(t),
{
    match t {
        Templates::PythonDataclass => {
            reveal_strlit("python-dataclass");
        },
        Templates::PythonPydantic => {
            reveal_strlit("python-pydantic");
            reveal_strlit("python-dataclass");
            lemma_seq_differ("python-pydantic"@, "python-dataclass"@, 0);
            reveal_strlit("python-sdrdm");
            lemma_seq_differ("python-pydantic"@, "python-sdrdm"@, 0);
        },
        Templates::PythonPydanticXML => {
            reveal_strlit("python-pydantic-xml");
            reveal_strlit("python-dataclass");
            lemma_seq_differ("python-pydantic-xml"@, "python-dataclass"@, 0);
            reveal_strlit("python-sdrdm");
            lemma_seq_differ("python-pydantic-xml"@, "python-sdrdm"@, 0);
            reveal_strlit("python-pydantic");
            lemma_seq_differ("python-pydantic-xml"@, "python-pydantic"@, 0);
        },
        Templates::XmlSchema => {
            reveal_strlit("xml-schema");
            reveal_strlit("python-dataclass");
            lemma_seq_differ("xml-schema"@, "python-dataclass"@, 0);
            reveal_strlit("python-sdrdm");
            lemma_seq_differ("xml-schema"@, "python-sdrdm"@, 0);
            reveal_strlit("python-pydantic");
            lemma_seq_differ("xml-schema"@, "python-pydantic"@, 0);
            reveal_strlit("python-pydantic-xml");
            lemma_seq_differ("xml-schema"@, "python-pydantic-xml"@, 0);
        },
        Templates::Markdown => {
            reveal_strlit("markdown");
            reveal_strlit("python-dataclass");
            lemma_seq_differ("markdown"@, "python-dataclass"@, 0);
            reveal_strlit("python-sdrdm");
            lemma_seq_differ("markdown"@, "python-sdrdm"@, 0);
            reveal_strlit("python-pydantic");
            lemma_seq_differ("markdown"@, "python-pydantic"@, 0);
            reveal_strlit("python-pydantic-xml");
            lemma_seq_differ("markdown"@, "python-pydantic-xml"@, 0);
            reveal_strlit("xml-schema");
            lemma_seq_differ("markdown"@, "xml-schema"@, 0);
        },
        Templates::CompactMarkdown => {
            reveal_strlit("compact-markdown");
            reveal_strlit("python-dataclass");
            lemma_seq_differ("compact-markdown"@, "python-dataclass"@, 0);
            reveal_strlit("python-sdrdm");
            lemma_seq_differ("compact-markdown"@, "python-sdrdm"@, 0);
            reveal_strlit("python-pydantic");
            lemma_seq_differ("compact-markdown"@, "python-pydantic"@, 0);
            reveal_strlit("python-pydantic-xml");
            lemma_seq_differ("compact-markdown"@, "python-pydantic-xml"@, 0);
            reveal_strlit("xml-schema");
            lemma_seq_differ("compact-markdown"@, "xml-schema"@, 0);
            reveal_strlit("markdown");
            lemma_seq_differ("compact-markdown"@, "markdown"@, 0);
        },
        Templates::Shacl => {
            reveal_strlit("shacl");
            reveal_strlit("python-dataclass");
            lemma_seq_differ("shacl"@, "python-dataclass"@, 0);
            reveal_strlit("python-sdrdm");
            lemma_seq_differ("shacl"@, "python-sdrdm"@, 0);
            reveal_strlit("python-pydantic");
            lemma_seq_differ("shacl"@, "python-pydantic"@, 0);
            reveal_strlit("python-pydantic-xml");
            lemma_seq_differ("shacl"@, "python-pydantic-xml"@, 0);
            reveal_strlit("xml-schema");
            lemma_seq_differ("shacl"@, "xml-schema"@, 0);
            reveal_strlit("markdown");
            lemma_seq_differ("shacl"@, "markdown"@, 0);
            reveal_strlit("compact-markdown");
            lemma_seq_differ("shacl"@, "compact-markdown"@, 0);
        },
        Templates::JsonSchema => {
            reveal_strlit("json-schema");
            reveal_strlit("python-dataclass");
            lemma_seq_differ("json-schema"@, "python-dataclass"@, 0);
            reveal_strlit("python-sdrdm");
            lemma_seq_differ("json-schema"@, "python-sdrdm"@, 0);
            reveal_strlit("python-pydantic");
            lemma_seq_differ("json-schema"@, "python-pydantic"@, 0);
            reveal_strlit("python-pydantic-xml");
            lemma_seq_differ("json-schema"@, "python-pydantic-xml"@, 0);
            reveal_strlit("xml-schema");
            lemma_seq_differ("json-schema"@, "xml-schema"@, 0);
            reveal_strlit("markdown");
            lemma_seq_differ("json-schema"@, "markdown"@, 0);
            reveal_strlit("compact-markdown");
            lemma_seq_differ("json-schema"@, "compact-markdown"@, 0);
            reveal_strlit("shacl");
            lemma_seq_differ("json-schema"@, "shacl"@, 0);
        },
        Templates::JsonSchemaAll => {
            reveal_strlit("json-schema-all");
            reveal_strlit("python-dataclass");
            lemma_seq_differ("json-schema-all"@, "python-dataclass"@, 0);
            reveal_strlit("python-sdrdm");
            lemma_seq_differ("json-schema-all"@, "python-sdrdm"@, 0);
            reveal_strlit("python-pydantic");
            lemma_seq_differ("json-schema-all"@, "python-pydantic"@, 0);
            reveal_strlit("python-pydantic-xml");
            lemma_seq_differ("json-schema-all"@, "python-pydantic-xml"@, 0);
            reveal_strlit("xml-schema");
            lemma_seq_differ("json-schema-all"@, "xml-schema"@, 0);
            reveal_strlit("markdown");
            lemma_seq_differ("json-schema-all"@, "markdown"@, 0);
            reveal_strlit("compact-markdown");
            lemma_seq_differ("json-schema-all"@, "compact-markdown"@, 0);
            reveal_strlit("shacl");
            lemma_seq_differ("json-schema-all"@, "shacl"@, 0);
            reveal_strlit("json-schema");
            lemma_seq_differ("json-schema-all"@, "json-schema"@, 0);
        },
        Templates::Shex => {
            reveal_strlit("shex");
            reveal_strlit("python-dataclass");
            lemma_seq_differ("shex"@, "python-dataclass"@, 0);
            reveal_strlit("python-sdrdm");
            lemma_seq_differ("shex"@, "python-sdrdm"@, 0);
            reveal_strlit("python-pydantic");
            lemma_seq_differ("shex"@, "python-pydantic"@, 0);
            reveal_strlit("python-pydantic-xml");
            lemma_seq_differ("shex"@, "python-pydantic-xml"@, 0);
            reveal_strlit("xml-schema");
            lemma_seq_differ("shex"@, "xml-schema"@, 0);
            reveal_strlit("markdown");
            lemma_seq_differ("shex"@, "markdown"@, 0);
            reveal_strlit("compact-markdown");
            lemma_seq_differ("shex"@, "compact-markdown"@, 0);
            reveal_strlit("shacl");
            lemma_seq_differ("shex"@, "shacl"@, 0);
            reveal_strlit("json-schema");
            lemma_seq_differ("shex"@, "json-schema"@, 0);
            reveal_strlit("json-schema-all");
            lemma_seq_differ("shex"@, "json-schema-all"@, 0);
        },
        Templates::MkDocs => {
            reveal_strlit("mk-docs");
            reveal_strlit("python-dataclass");
            lemma_seq_differ("mk-docs"@, "python-dataclass"@, 0);
            reveal_strlit("python-sdrdm");
            lemma_seq_differ("mk-docs"@, "python-sdrdm"@, 0);
            reveal_strlit("python-pydantic");
            lemma_seq_differ("mk-docs"@, "python-pydantic"@, 0);
            reveal_strlit("python-pydantic-xml");
            lemma_seq_differ("mk-docs"@, "python-pydantic-xml"@, 0);
            reveal_strlit("xml-schema");
            lemma_seq_differ("mk-docs"@, "xml-schema"@, 0);
            reveal_strlit("markdown");
            lemma_seq_differ("mk-docs"@, "markdown"@, 0);
            reveal_strlit("compact-markdown");
            lemma_seq_differ("mk-docs"@, "compact-markdown"@, 0);
            reveal_strlit("shacl");
            lemma_seq_differ("mk-docs"@, "shacl"@, 0);
            reveal_strlit("json-schema");
            lemma_seq_differ("mk-docs"@, "json-schema"@, 0);
            reveal_strlit("json-schema-all");
            lemma_seq_differ("mk-docs"@, "json-schema-all"@, 0);
            reveal_strlit("shex");
            lemma_seq_differ("mk-docs"@, "shex"@, 0);
        },
        Templates::Internal => {
            reveal_strlit("internal");
            reveal_strlit("python-dataclass");
            lemma_seq_differ("internal"@, "python-dataclass"@, 0);
            reveal_strlit("python-sdrdm");
            lemma_seq_differ("internal"@, "python-sdrdm"@, 0);
            reveal_strlit("python-pydantic");
            lemma_seq_differ("internal"@, "python-pydantic"@, 0);
            reveal_strlit("python-pydantic-xml");
            lemma_seq_differ("internal"@, "python-pydantic-xml"@, 0);
            reveal_strlit("xml-schema");
            lemma_seq_differ("internal"@, "xml-schema"@, 0);
            reveal_strlit("markdown");
            lemma_seq_differ("internal"@, "markdown"@, 0);
            reveal_strlit("compact-markdown");
            lemma_seq_differ("internal"@, "compact-markdown"@, 0);
            reveal_strlit("shacl");
            lemma_seq_differ("internal"@, "shacl"@, 0);
            reveal_strlit("json-schema");
            lemma_seq_differ("internal"@, "json-schema"@, 0);
            reveal_strlit("json-schema-all");
            lemma_seq_differ("internal"@, "json-schema-all"@, 0);
            reveal_strlit("shex");
            lemma_seq_differ("internal"@, "shex"@, 0);
            reveal_strlit("mk-docs");
            lemma_seq_differ("internal"@, "mk-docs"@, 0);
        },
        Templates::Typescript => {
            reveal_strlit("typescript");
            reveal_strlit("python-dataclass");
            lemma_seq_differ("typescript"@, "python-dataclass"@, 0);
            reveal_strlit("python-sdrdm");
            lemma_seq_differ("typescript"@, "python-sdrdm"@, 0);
            reveal_strlit("python-pydantic");
            lemma_seq_differ("typescript"@, "python-pydantic"@, 0);
            reveal_strlit("python-pydantic-xml");
            lemma_seq_differ("typescript"@, "python-pydantic-xml"@, 0);
            reveal_strlit("xml-schema");
            lemma_seq_differ("typescript"@, "xml-schema"@, 0);
            reveal_strlit("markdown");
            lemma_seq_differ("typescript"@, "markdown"@, 0);
            reveal_strlit("compact-markdown");
            lemma_seq_differ("typescript"@, "compact-markdown"@, 0);
            reveal_strlit("shacl");
            lemma_seq_differ("typescript"@, "shacl"@, 0);
            reveal_strlit("json-schema");
            lemma_seq_differ("typescript"@, "json-schema"@, 0);
            reveal_strlit("json-schema-all");
            lemma_seq_differ("typescript"@, "json-schema-all"@, 0);
            reveal_strlit("shex");
            lemma_seq_differ("typescript"@, "shex"@, 0);
            reveal_strlit("mk-docs");
            lemma_seq_differ("typescript"@, "mk-docs"@, 0);
            reveal_strlit("internal");
            lemma_seq_differ("typescript"@, "internal"@, 0);
        },
        Templates::TypescriptZod => {
            reveal_strlit("typescript-zod");
            reveal_strlit("python-dataclass");
            lemma_seq_differ("typescript-zod"@, "python-dataclass"@, 0);
            reveal_strlit("python-sdrdm");
            lemma_seq_differ("typescript-zod"@, "python-sdrdm"@, 0);
            reveal_strlit("python-pydantic");
            lemma_seq_differ("typescript-zod"@, "python-pydantic"@, 0);
            reveal_strlit("python-pydantic-xml");
            lemma_seq_differ("typescript-zod"@, "python-pydantic-xml"@, 0);
            reveal_strlit("xml-schema");
            lemma_seq_differ("typescript-zod"@, "xml-schema"@, 0);
            reveal_strlit("markdown");
            lemma_seq_differ("typescript-zod"@, "markdown"@, 0);
            reveal_strlit("compact-markdown");
            lemma_seq_differ("typescript-zod"@, "compact-markdown"@, 0);
            reveal_strlit("shacl");
            lemma_seq_differ("typescript-zod"@, "shacl"@, 0);
            reveal_strlit("json-schema");
            lemma_seq_differ("typescript-zod"@, "json-schema"@, 0);
            reveal_strlit("json-schema-all");
            lemma_seq_differ("typescript-zod"@, "json-schema-all"@, 0);
            reveal_strlit("shex");
            lemma_seq_differ("typescript-zod"@, "shex"@, 0);
            reveal_strlit("mk-docs");
            lemma_seq_differ("typescript-zod"@, "mk-docs"@, 0);
            reveal_strlit("internal");
            lemma_seq_differ("typescript-zod"@, "internal"@, 0);
            reveal_strlit("typescript");
            lemma_seq_differ("typescript-zod"@, "typescript"@, 0);
        },
        Templates::Rust => {
            reveal_strlit("rust");
            reveal_strlit("python-dataclass");
            lemma_seq_differ("rust"@, "python-dataclass"@, 0);
            reveal_strlit("python-sdrdm");
            lemma_seq_differ("rust"@, "python-sdrdm"@, 0);
            reveal_strlit("python-pydantic");
            lemma_seq_differ("rust"@, "python-pydantic"@, 0);
            reveal_strlit("python-pydantic-xml");
            lemma_seq_differ("rust"@, "python-pydantic-xml"@, 0);
            reveal_strlit("xml-schema");
            lemma_seq_differ("rust"@, "xml-schema"@, 0);
            reveal_strlit("markdown");
            lemma_seq_differ("rust"@, "markdown"@, 0);
            reveal_strlit("compact-markdown");
            lemma_seq_differ("rust"@, "compact-markdown"@, 0);
            reveal_strlit("shacl");
            lemma_seq_differ("rust"@, "shacl"@, 0);
            reveal_strlit("json-schema");
            lemma_seq_differ("rust"@, "json-schema"@, 0);
            reveal_strlit("json-schema-all");
            lemma_seq_differ("rust"@, "json-schema-all"@, 0);
            reveal_strlit("shex");
            lemma_seq_differ("rust"@, "shex"@, 0);
            reveal_strlit("mk-docs");
            lemma_seq_differ("rust"@, "mk-docs"@, 0);
            reveal_strlit("internal");
            lemma_seq_differ("rust"@, "internal"@, 0);
            reveal_strlit("typescript");
            lemma_seq_differ("rust"@, "typescript"@, 0);
            reveal_strlit("typescript-zod");
            lemma_seq_differ("rust"@, "typescript-zod"@, 0);
        },
        Templates::Protobuf => {
            reveal_strlit("protobuf");
            reveal_strlit("python-dataclass");
            lemma_seq_differ("protobuf"@, "python-dataclass"@, 0);
            reveal_strlit("python-sdrdm");
            lemma_seq_differ("protobuf"@, "python-sdrdm"@, 0);
            reveal_strlit("python-pydantic");
            lemma_seq_differ("protobuf"@, "python-pydantic"@, 0);
            reveal_strlit("python-pydantic-xml");
            lemma_seq_differ("protobuf"@, "python-pydantic-xml"@, 0);
            reveal_strlit("xml-schema");
            lemma_seq_differ("protobuf"@, "xml-schema"@, 0);
            reveal_strlit("markdown");
            lemma_seq_differ("protobuf"@, "markdown"@, 0);
            reveal_strlit("compact-markdown");
            lemma_seq_differ("protobuf"@, "compact-markdown"@, 0);
            reveal_strlit("shacl");
            lemma_seq_differ("protobuf"@, "shacl"@, 0);
            reveal_strlit("json-schema");
            lemma_seq_differ("protobuf"@, "json-schema"@, 0);
            reveal_strlit("json-schema-all");
            lemma_seq_differ("protobuf"@, "json-schema-all"@, 0);
            reveal_strlit("shex");
            lemma_seq_differ("protobuf"@, "shex"@, 0);
            reveal_strlit("mk-docs");
            lemma_seq_differ("protobuf"@, "mk-docs"@, 0);
            reveal_strlit("internal");
            lemma_seq_differ("protobuf"@, "internal"@, 0);
            reveal_strlit("typescript");
            lemma_seq_differ("protobuf"@, "typescript"@, 0);
            reveal_strlit("typescript-zod");
            lemma_seq_differ("protobuf"@, "typescript-zod"@, 0);
            reveal_strlit("rust");
            lemma_seq_differ("protobuf"@, "rust"@, 0);
        },
        Templates::Graphql => {
            reveal_strlit("graphql");
            reveal_strlit("python-dataclass");
            lemma_seq_differ("graphql"@, "python-dataclass"@, 0);
            reveal_strlit("python-sdrdm");
            lemma_seq_differ("graphql"@, "python-sdrdm"@, 0);
            reveal_strlit("python-pydantic");
            lemma_seq_differ("graphql"@, "python-pydantic"@, 0);
            reveal_strlit("python-pydantic-xml");
            lemma_seq_differ("graphql"@, "python-pydantic-xml"@, 0);
            reveal_strlit("xml-schema");
            lemma_seq_differ("graphql"@, "xml-schema"@, 0);
            reveal_strlit("markdown");
            lemma_seq_differ("graphql"@, "markdown"@, 0);
            reveal_strlit("compact-markdown");
            lemma_seq_differ("graphql"@, "compact-markdown"@, 0);
            reveal_strlit("shacl");
            lemma_seq_differ("graphql"@, "shacl"@, 0);
            reveal_strlit("json-schema");
            lemma_seq_differ("graphql"@, "json-schema"@, 0);
            reveal_strlit("json-schema-all");
            lemma_seq_differ("graphql"@, "json-schema-all"@, 0);
            reveal_strlit("shex");
            lemma_seq_differ("graphql"@, "shex"@, 0);
            reveal_strlit("mk-docs");
            lemma_seq_differ("graphql"@, "mk-docs"@, 0);
            reveal_strlit("internal");
            lemma_seq_differ("graphql"@, "internal"@, 0);
            reveal_strlit("typescript");
            lemma_seq_differ("graphql"@, "typescript"@, 0);
            reveal_strlit("typescript-zod");
            lemma_seq_differ("graphql"@, "typescript-zod"@, 0);
            reveal_strlit("rust");
            lemma_seq_differ("graphql"@, "rust"@, 0);
            reveal_strlit("protobuf");
            lemma_seq_differ("graphql"@, "protobuf"@, 0);
        },
        Templates::Golang => {
            reveal_strlit("golang");
            reveal_strlit("python-dataclass");
            lemma_seq_differ("golang"@, "python-dataclass"@, 0);
            reveal_strlit("python-sdrdm");
            lemma_seq_differ("golang"@, "python-sdrdm"@, 0);
            reveal_strlit("python-pydantic");
            lemma_seq_differ("golang"@, "python-pydantic"@, 0);
            reveal_strlit("python-pydantic-xml");
            lemma_seq_differ("golang"@, "python-pydantic-xml"@, 0);
            reveal_strlit("xml-schema");
            lemma_seq_differ("golang"@, "xml-schema"@, 0);
            reveal_strlit("markdown");
            lemma_seq_differ("golang"@, "markdown"@, 0);
            reveal_strlit("compact-markdown");
            lemma_seq_differ("golang"@, "compact-markdown"@, 0);
            reveal_strlit("shacl");
            lemma_seq_differ("golang"@, "shacl"@, 0);
            reveal_strlit("json-schema");
            lemma_seq_differ("golang"@, "json-schema"@, 0);
            reveal_strlit("json-schema-all");
            lemma_seq_differ("golang"@, "json-schema-all"@, 0);
            reveal_strlit("shex");
            lemma_seq_differ("golang"@, "shex"@, 0);
            reveal_strlit("mk-docs");
            lemma_seq_differ("golang"@, "mk-docs"@, 0);
            reveal_strlit("internal");
            lemma_seq_differ("golang"@, "internal"@, 0);
            reveal_strlit("typescript");
            lemma_seq_differ("golang"@, "typescript"@, 0);
            reveal_strlit("typescript-zod");
            lemma_seq_differ("golang"@, "typescript-zod"@, 0);
            reveal_strlit("rust");
            lemma_seq_differ("golang"@, "rust"@, 0);
            reveal_strlit("protobuf");
            lemma_seq_differ("golang"@, "protobuf"@, 0);
            reveal_strlit("graphql");
            lemma_seq_differ("golang"@, "graphql"@, 0);
        },
        Templates::Linkml => {
            reveal_strlit("linkml");
            reveal_strlit("python-dataclass");
            lemma_seq_differ("linkml"@, "python-dataclass"@, 0);
            reveal_strlit("python-sdrdm");
            lemma_seq_differ("linkml"@, "python-sdrdm"@, 0);
            reveal_strlit("python-pydantic");
            lemma_seq_differ("linkml"@, "python-pydantic"@, 0);
            reveal_strlit("python-pydantic-xml");
            lemma_seq_differ("linkml"@, "python-pydantic-xml"@, 0);
            reveal_strlit("xml-schema");
            lemma_seq_differ("linkml"@, "xml-schema"@, 0);
            reveal_strlit("markdown");
            lemma_seq_differ("linkml"@, "markdown"@, 0);
            reveal_strlit("compact-markdown");
            lemma_seq_differ("linkml"@, "compact-markdown"@, 0);
            reveal_strlit("shacl");
            lemma_seq_differ("linkml"@, "shacl"@, 0);
            reveal_strlit("json-schema");
            lemma_seq_differ("linkml"@, "json-schema"@, 0);
            reveal_strlit("json-schema-all");
            lemma_seq_differ("linkml"@, "json-schema-all"@, 0);
            reveal_strlit("shex");
            lemma_seq_differ("linkml"@, "shex"@, 0);
            reveal_strlit("mk-docs");
            lemma_seq_differ("linkml"@, "mk-docs"@, 0);
            reveal_strlit("internal");
            lemma_seq_differ("linkml"@, "internal"@, 0);
            reveal_strlit("typescript");
            lemma_seq_differ("linkml"@, "typescript"@, 0);
            reveal_strlit("typescript-zod");
            lemma_seq_differ("linkml"@, "typescript-zod"@, 0);
            reveal_strlit("rust");
            lemma_seq_differ("linkml"@, "rust"@, 0);
            reveal_strlit("protobuf");
            lemma_seq_differ("linkml"@, "protobuf"@, 0);
            reveal_strlit("graphql");
            lemma_seq_differ("linkml"@, "graphql"@, 0);
            reveal_strlit("golang");
            lemma_seq_differ("linkml"@, "golang"@, 0);
        },
        Templates::Julia => {
            reveal_strlit("julia");
            reveal_strlit("python-dataclass");
            lemma_seq_differ("julia"@, "python-dataclass"@, 0);
            reveal_strlit("python-sdrdm");
            lemma_seq_differ("julia"@, "python-sdrdm"@, 0);
            reveal_strlit("python-pydantic");
            lemma_seq_differ("julia"@, "python-pydantic"@, 0);
            reveal_strlit("python-pydantic-xml");
            lemma_seq_differ("julia"@, "python-pydantic-xml"@, 0);
            reveal_strlit("xml-schema");
            lemma_seq_differ("julia"@, "xml-schema"@, 0);
            reveal_strlit("markdown");
            lemma_seq_differ("julia"@, "markdown"@, 0);
            reveal_strlit("compact-markdown");
            lemma_seq_differ("julia"@, "compact-markdown"@, 0);
            reveal_strlit("shacl");
            lemma_seq_differ("julia"@, "shacl"@, 0);
            reveal_strlit("json-schema");
            lemma_seq_differ("julia"@, "json-schema"@, 0);
            reveal_strlit("json-schema-all");
            lemma_seq_differ("julia"@, "json-schema-all"@, 0);
            reveal_strlit("shex");
            lemma_seq_differ("julia"@, "shex"@, 0);
            reveal_strlit("mk-docs");
            lemma_seq_differ("julia"@, "mk-docs"@, 0);
            reveal_strlit("internal");
            lemma_seq_differ("julia"@, "internal"@, 0);
            reveal_strlit("typescript");
            lemma_seq_differ("julia"@, "typescript"@, 0);
            reveal_strlit("typescript-zod");
            lemma_seq_differ("julia"@, "typescript-zod"@, 0);
            reveal_strlit("rust");
            lemma_seq_differ("julia"@, "rust"@, 0);
            reveal_strlit("protobuf");
            lemma_seq_differ("julia"@, "protobuf"@, 0);
            reveal_strlit("graphql");
            lemma_seq_differ("julia"@, "graphql"@, 0);
            reveal_strlit("golang");
            lemma_seq_differ("julia"@, "golang"@, 0);
            reveal_strlit("linkml");
            lemma_seq_differ("julia"@, "linkml"@, 0);
        },
        Templates::Mermaid => {
            reveal_strlit("mermaid");
            reveal_strlit("python-dataclass");
            lemma_seq_differ("mermaid"@, "python-dataclass"@, 0);
            reveal_strlit("python-sdrdm");
            lemma_seq_differ("mermaid"@, "python-sdrdm"@, 0);
            reveal_strlit("python-pydantic");
            lemma_seq_differ("mermaid"@, "python-pydantic"@, 0);
            reveal_strlit("python-pydantic-xml");
            lemma_seq_differ("mermaid"@, "python-pydantic-xml"@, 0);
            reveal_strlit("xml-schema");
            lemma_seq_differ("mermaid"@, "xml-schema"@, 0);
            reveal_strlit("markdown");
            lemma_seq_differ("mermaid"@, "markdown"@, 0);
            reveal_strlit("compact-markdown");
            lemma_seq_differ("mermaid"@, "compact-markdown"@, 0);
            reveal_strlit("shacl");
            lemma_seq_differ("mermaid"@, "shacl"@, 0);
            reveal_strlit("json-schema");
            lemma_seq_differ("mermaid"@, "json-schema"@, 0);
            reveal_strlit("json-schema-all");
            lemma_seq_differ("mermaid"@, "json-schema-all"@, 0);
            reveal_strlit("shex");
            lemma_seq_differ("mermaid"@, "shex"@, 0);
            reveal_strlit("mk-docs");
            lemma_seq_differ("mermaid"@, "mk-docs"@, 1);
            reveal_strlit("internal");
            lemma_seq_differ("mermaid"@, "internal"@, 0);
            reveal_strlit("typescript");
            lemma_seq_differ("mermaid"@, "typescript"@, 0);
            reveal_strlit("typescript-zod");
            lemma_seq_differ("mermaid"@, "typescript-zod"@, 0);
            reveal_strlit("rust");
            lemma_seq_differ("mermaid"@, "rust"@, 0);
            reveal_strlit("protobuf");
            lemma_seq_differ("mermaid"@, "protobuf"@, 0);
            reveal_strlit("graphql");
            lemma_seq_differ("mermaid"@, "graphql"@, 0);
            reveal_strlit("golang");
            lemma_seq_differ("mermaid"@, "golang"@, 0);
            reveal_strlit("linkml");
            lemma_seq_differ("mermaid"@, "linkml"@, 0);
            reveal_strlit("julia");
            lemma_seq_differ("mermaid"@, "julia"@, 0);
        },
    }
}

impl Templates {
    /// The template named by `s`; any other name is refused with
    /// `Invalid template type: ` and the name.
    pub fn from_str(s: &str) -> (r: Result<Templates, String>)
        ensures
            match r {
                Ok(t) => spec_template(s@) == Some(t),
                Err(e) => spec_template(s@) is None && e@ == "Invalid template type: "@ + s@,
            },
    {
        if text::str_eq(s, "python-dataclass") {
            Ok(Templates::PythonDataclass)
        } else if text::str_eq(s, "python-sdrdm") {
            Ok(Templates::PythonPydanticXML)
        } else if text::str_eq(s, "python-pydantic") {
            Ok(Templates::PythonPydantic)
        } else if text::str_eq(s, "python-pydantic-xml") {
            Ok(Templates::PythonPydanticXML)
        } else if text::str_eq(s, "xml-schema") {
            Ok(Templates::XmlSchema)
        } else if text::str_eq(s, "markdown") {
            Ok(Templates::Markdown)
        } else if text::str_eq(s, "compact-markdown") {
            Ok(Templates::CompactMarkdown)
        } else if text::str_eq(s, "shacl") {
            Ok(Templates::Shacl)
        } else if text::str_eq(s, "json-schema") {
            Ok(Templates::JsonSchema)
        } else if text::str_eq(s, "json-schema-all") {
            Ok(Templates::JsonSchemaAll)
        } else if text::str_eq(s, "shex") {
            Ok(Templates::Shex)
        } else if text::str_eq(s, "mk-docs") {
            Ok(Templates::MkDocs)
        } else if text::str_eq(s, "internal") {
            Ok(Templates::Internal)
        } else if text::str_eq(s, "typescript") {
            Ok(Templates::Typescript)
        } else if text::str_eq(s, "typescript-zod") {
            Ok(Templates::TypescriptZod)
        } else if text::str_eq(s, "rust") {
            Ok(Templates::Rust)
        } else if text::str_eq(s, "protobuf") {
            Ok(Templates::Protobuf)
        } else if text::str_eq(s, "graphql") {
            Ok(Templates::Graphql)
        } else if text::str_eq(s, "golang") {
            Ok(Templates::Golang)
        } else if text::str_eq(s, "linkml") {
            Ok(Templates::Linkml)
        } else if text::str_eq(s, "julia") {
            Ok(Templates::Julia)
        } else if text::str_eq(s, "mermaid") {
            Ok(Templates::Mermaid)
        } else if text::str_eq(s, "mkdocs") {
            Ok(Templates::MkDocs)
        } else {
            let mut e = String::from_str("Invalid template type: ");
            e.append(s);
            Err(e)
        }
    }

    /// The displayed name of the template.
    pub fn to_string(&self) -> (r: String)
        ensures
            r@ == template_name(*self),
    {
        let s = match self {
            Templates::PythonDataclass => "python-dataclass",
            Templates::PythonPydantic => "python-pydantic",
            Templates::PythonPydanticXML => "python-pydantic-xml",
            Templates::XmlSchema => "xml-schema",
            Templates::Markdown => "markdown",
            Templates::CompactMarkdown => "compact-markdown",
            Templates::Shacl => "shacl",
            Templates::JsonSchema => "json-schema",
            Templates::JsonSchemaAll => "json-schema-all",
            Templates::Shex => "shex",
            Templates::MkDocs => "mk-docs",
            Templates::Internal => "internal",
            Templates::Typescript => "typescript",
            Templates::TypescriptZod => "typescript-zod",
            Templates::Rust => "rust",
            Templates::Protobuf => "protobuf",
            Templates::Graphql => "graphql",
            Templates::Golang => "golang",
            Templates::Linkml => "linkml",
            Templates::Julia => "julia",
            Templates::Mermaid => "mermaid",
        };
        String::from_str(s)
    }
}

// ---------------------------------------------------------------------------
// Text filters of the templates
// ---------------------------------------------------------------------------

/// `s` with every occurrence of `from` replaced by `to` (`str::replace`):
/// occurrences are taken from the left without overlapping; an empty
/// `from` puts `to` before every character and at the end.
pub open spec fn replace_seq(s: Seq<char>, from: Seq<char>, to: Seq<char>) -> Seq<char>
    decreases s.len(),
{
    if from.len() == 0 {
        if s.len() == 0 {
            to
        } else {
            to + seq![s[0]] + replace_seq(s.skip(1), from, to)
        }
    } else if s.len() == 0 {
        s
    } else if text::starts_with(s, from) {
        to + replace_seq(s.skip(from.len() as int), from, to)
    } else {
        seq![s[0]] + replace_seq(s.skip(1), from, to)
    }
}

/// Replaces all occurrences of `from` with `to` (see [`replace_seq`]).
pub fn replace(value: String, from: &str, to: &str) -> (r: String)
    ensures
        r@ == replace_seq(value@, from@, to@),
{
    let s = text::chars_of(value.as_str());
    let f = text::chars_of(from);
    let t = text::chars_of(to);
    let n = s.len();
    let m = f.len();
    let mut out: Vec<char> = Vec::new();
    let mut i: usize = 0;
    assert(value@.skip(0) =~= value@);
    assert(out@ + replace_seq(value@, from@, to@) =~= replace_seq(value@, from@, to@));
    while i < n
        invariant
            n == value@.len(),
            m == from@.len(),
            s@ == value@,
            f@ == from@,
            t@ == to@,
            i <= n,
            replace_seq(value@, from@, to@) == out@ + replace_seq(value@.skip(i as int), from@, to@),
        decreases n - i,
    {
        let ghost rest = value@.skip(i as int);
        if m == 0 {
            out.extend_from_slice(t.as_slice());
            out.push(s[i]);
            assert(rest.skip(1) =~= value@.skip(i + 1));
            assert(rest[0] == s@[i as int]);
            i = i + 1;
        } else if m <= n - i && text::chars_eq(&text::sub_chars(&s, i, i + m), &f) {
            assert(rest.subrange(0, m as int) =~= s@.subrange(i as int, i + m));
            assert(rest.skip(m as int) =~= value@.skip(i + m));
            out.extend_from_slice(t.as_slice());
            i = i + m;
        } else {
            assert(!text::starts_with(rest, from@)) by {
                if m <= n - i {
                    assert(rest.subrange(0, m as int) =~= s@.subrange(i as int, i + m));
                }
            }
            assert(rest.skip(1) =~= value@.skip(i + 1));
            assert(rest[0] == s@[i as int]);
            out.push(s[i]);
            i = i + 1;
        }
    }
    assert(value@.skip(i as int) =~= Seq::<char>::empty());
    if m == 0 {
        out.extend_from_slice(t.as_slice());
    }
    assert(out@ =~= replace_seq(value@, from@, to@));
    text::string_of(&out)
}

/// Replaces all occurrences of `from` with `to`, then lower-cases the
/// result.
pub fn replace_lower(value: String, from: String, to: String) -> (r: String)
    ensures
        r@ == text::lowercase(replace_seq(value@, from@, to@)),
{
    let replaced = replace(value, from.as_str(), to.as_str());
    text::to_lowercase(replaced.as_str())
}

/// `s` with the non-empty prefix `p` removed as often as it occurs
/// (`str::trim_start_matches` with a string pattern).
pub open spec fn trim_start_seq(s: Seq<char>, p: Seq<char>) -> Seq<char>
    decreases s.len(),
{
    if p.len() > 0 && text::starts_with(s, p) {
        trim_start_seq(s.skip(p.len() as int), p)
    } else {
        s
    }
}

/// `input` without the repetitions of `prefix` at its start and end.
pub fn trim(input: &str, prefix: &str) -> (r: String)
    ensures
        r@ == text::trim_end_seq(trim_start_seq(input@, prefix@), prefix@),
{
    let s = text::chars_of(input);
    let p = text::chars_of(prefix);
    if p.len() == 0 {
        return String::from_str(input);
    }
    let n = s.len();
    let m = p.len();
    let mut i: usize = 0;
    assert(input@.skip(0) =~= input@);
    while m <= n - i && text::chars_eq(&text::sub_chars(&s, i, i + m), &p)
        invariant
            n == input@.len(),
            m == prefix@.len(),
            m > 0,
            s@ == input@,
            p@ == prefix@,
            i <= n,
            trim_start_seq(input@, prefix@) == trim_start_seq(input@.skip(i as int), prefix@),
        decreases n - i,
    {
        assert(input@.skip(i as int).subrange(0, m as int) =~= s@.subrange(i as int, i + m));
        assert(input@.skip(i as int).skip(m as int) =~= input@.skip(i + m));
        i = i + m;
    }
    proof {
        let rest = input@.skip(i as int);
        if m <= n - i {
            assert(rest.subrange(0, m as int) =~= s@.subrange(i as int, i + m));
        }
    }
    let rest = text::sub_chars(&s, i, n);
    assert(rest@ =~= input@.skip(i as int));
    let r = text::trim_end_matches_seq(&rest, &p);
    text::string_of(&r)
}

/// What `char::to_uppercase` gives for a character.
pub uninterp spec fn char_upper(c: char) -> Seq<char>;

/// Calls `char::to_uppercase` and collects the result. Besides naming it,
/// the contract states what the documentation gives for ASCII: a lower-case
/// letter becomes its upper-case letter and any other character stays.
#[verifier::external_body]
fn upper_of(c: char) -> (r: String)
    ensures
        r@ == char_upper(c),
        (c as u32) < 128 ==> r@ == seq![if 'a' <= c && c <= 'z' {
            ((c as u32) - 32) as char
        } else {
            c
        }],
{
    c.to_uppercase().collect::<String>()
}

/// The text with its first character in upper case.
pub open spec fn spec_cap_first(s: Seq<char>) -> Seq<char> {
    if s.len() == 0 {
        s
    } else {
        char_upper(s[0]) + s.skip(1)
    }
}

/// Capitalizes the first character of a string.
pub fn cap_first(s: String) -> (r: String)
    ensures
        r@ == spec_cap_first(s@),
{
    let cs = text::chars_of(s.as_str());
    if cs.len() == 0 {
        return s;
    }
    let mut r = upper_of(cs[0]);
    let n = cs.len();
    let rest = text::sub_chars(&cs, 1, n);
    r.append(text::string_of(&rest).as_str());
    r
}

/// The pairs of each non-empty part of a path with the part before it,
/// starting from `prev`.
pub open spec fn path_pairs(parts: Seq<Seq<char>>, prev: Seq<char>) -> Seq<Seq<Seq<char>>>
    decreases parts.len(),
{
    if parts.len() == 0 {
        Seq::empty()
    } else if parts[0].len() == 0 {
        path_pairs(parts.drop_first(), prev)
    } else {
        seq![seq![parts[0], prev]] + path_pairs(parts.drop_first(), parts[0])
    }
}

/// The views of a list of lists of strings.
pub open spec fn nested_view(v: Seq<Vec<String>>) -> Seq<Seq<Seq<char>>> {
    v.map_values(|p: Vec<String>| text::strings_view(p@))
}

/// Splits a `/`-separated path into pairs of each non-empty part and the
/// part before it; the first part is paired with `initial`, or the empty
/// text.
pub fn split_path_pairs(path: String, initial: Option<String>) -> (r: Vec<Vec<String>>)
    ensures
        nested_view(r@) == path_pairs(
            text::split_on(path@, '/'),
            match initial {
                Some(i) => i@,
                None => Seq::empty(),
            },
        ),
{
    let cs = text::chars_of(path.as_str());
    let parts = text::split_chars(&cs, '/');
    let ghost pv = text::views(parts@);
    let mut prev = match initial {
        Some(i) => i,
        None => String::new(),
    };
    let ghost prev0 = prev@;
    let mut pairs: Vec<Vec<String>> = Vec::new();
    let mut i: usize = 0;
    assert(pv.skip(0) =~= pv);
    while i < parts.len()
        invariant
            i <= parts@.len(),
            pv == text::views(parts@),
            pv == text::split_on(path@, '/'),
            path_pairs(pv, prev0) == nested_view(pairs@) + path_pairs(pv.skip(i as int), prev@),
        decreases parts.len() - i,
    {
        assert(pv.skip(i as int)[0] == parts@[i as int]@);
        assert(pv.skip(i as int).drop_first() =~= pv.skip(i + 1));
        if parts[i].len() > 0 {
            let part = text::string_of(&parts[i]);
            let mut pair: Vec<String> = Vec::new();
            pair.push(part.clone());
            pair.push(prev.clone());
            assert(text::strings_view(pair@) =~= seq![part@, prev@]);
            let ghost before = pairs@;
            pairs.push(pair);
            assert(nested_view(pairs@) =~= nested_view(before).push(seq![part@, prev@]));
            assert(nested_view(before) + seq![seq![part@, prev@]] + path_pairs(
                pv.skip(i + 1),
                part@,
            ) =~= nested_view(pairs@) + path_pairs(pv.skip(i + 1), part@));
            prev = part;
        }
        i = i + 1;
    }
    assert(pv.skip(i as int) =~= Seq::<Seq<char>>::empty());
    assert(nested_view(pairs@) + Seq::<Seq<Seq<char>>>::empty() =~= nested_view(pairs@));
    pairs
}

/// What `convert_case`'s `to_case(Case::Camel)` returns for a string.
pub uninterp spec fn camel_case_of(s: Seq<char>) -> Seq<char>;

/// What `convert_case`'s `to_case(Case::Snake)` returns for a string.
pub uninterp spec fn snake_case_of(s: Seq<char>) -> Seq<char>;

/// Converts a string to camelCase through `convert_case`.
#[verifier::external_body]
fn to_camel_case(s: &str) -> (r: String)
    ensures
        r@ == camel_case_of(s@),
{
    s.to_case(convert_case::Case::Camel)
}

/// Converts a string to snake_case through `convert_case`.
#[verifier::external_body]
fn to_snake_case(s: &str) -> (r: String)
    ensures
        r@ == snake_case_of(s@),
{
    s.to_case(convert_case::Case::Snake)
}

/// The text in PascalCase; a trailing `_` is kept.
pub fn pascal_case(s: String) -> (r: String)
    ensures
        text::ends_with(s@, "_"@) ==> r@ == crate::object::pascal_case_of(s@) + "_"@,
        !text::ends_with(s@, "_"@) ==> r@ == crate::object::pascal_case_of(s@),
{
    let cs = text::chars_of(s.as_str());
    let underscore = text::chars_of("_");
    let mut r = crate::object::to_pascal_case(s.as_str());
    if text::has_suffix(&cs, &underscore) {
        r.append("_");
    }
    r
}

/// The text in camelCase.
pub fn camel_case(s: String) -> (r: String)
    ensures
        r@ == camel_case_of(s@),
{
    to_camel_case(s.as_str())
}

/// The text in snake_case.
pub fn snake_case(s: String) -> (r: String)
    ensures
        r@ == snake_case_of(s@),
{
    to_snake_case(s.as_str())
}

/// The white-space separated words of `s` (`str::split_whitespace`), with
/// `cur` in front of the first.
pub open spec fn words_from(s: Seq<char>, cur: Seq<char>) -> Seq<Seq<char>>
    decreases s.len(),
{
    if s.len() == 0 {
        if cur.len() > 0 {
            seq![cur]
        } else {
            Seq::empty()
        }
    } else if text::whitespace(s[0]) {
        (if cur.len() > 0 {
            seq![cur]
        } else {
            Seq::empty()
        }) + words_from(s.drop_first(), Seq::empty())
    } else {
        words_from(s.drop_first(), cur.push(s[0]))
    }
}

/// The white-space separated words of `s`.
pub open spec fn words(s: Seq<char>) -> Seq<Seq<char>> {
    words_from(s, Seq::empty())
}

/// The words of `input` joined by single spaces.
pub fn remove_multiple_spaces(input: &str) -> (r: String)
    ensures
        r@ == text::join_with(words(input@), " "@),
{
    let cs = text::chars_of(input);
    let n = cs.len();
    let mut parts: Vec<Vec<char>> = Vec::new();
    let mut cur: Vec<char> = Vec::new();
    let mut i: usize = 0;
    assert(input@.skip(0) =~= input@);
    assert(text::views(parts@) + words_from(input@, cur@) =~= words(input@));
    while i < n
        invariant
            n == input@.len(),
            cs@ == input@,
            i <= n,
            words(input@) == text::views(parts@) + words_from(input@.skip(i as int), cur@),
        decreases n - i,
    {
        let ghost rest = input@.skip(i as int);
        assert(rest.drop_first() =~= input@.skip(i + 1));
        assert(rest[0] == cs@[i as int]);
        if text::is_whitespace(cs[i]) {
            if cur.len() > 0 {
                let ghost before = parts@;
                let ghost cv = cur@;
                parts.push(cur);
                assert(text::views(parts@) =~= text::views(before).push(cv));
                cur = Vec::new();
                assert(text::views(before) + (seq![cv] + words_from(
                    input@.skip(i + 1),
                    Seq::empty(),
                )) =~= text::views(parts@) + words_from(input@.skip(i + 1), cur@));
            } else {
                assert(cur@ =~= Seq::<char>::empty());
                assert(Seq::<Seq<char>>::empty() + words_from(input@.skip(i + 1), Seq::empty())
                    =~= words_from(input@.skip(i + 1), Seq::empty()));
            }
        } else {
            cur.push(cs[i]);
        }
        i = i + 1;
    }
    assert(input@.skip(i as int) =~= Seq::<char>::empty());
    if cur.len() > 0 {
        let ghost before = parts@;
        let ghost cv = cur@;
        assert(words_from(input@.skip(i as int), cv) == seq![cv]);
        parts.push(cur);
        assert(text::views(parts@) =~= text::views(before).push(cv));
        assert(words(input@) =~= text::views(parts@));
    } else {
        assert(words_from(input@.skip(i as int), cur@) == Seq::<Seq<char>>::empty());
        assert(words(input@) =~= text::views(parts@));
    }
    let space = text::chars_of(" ");
    let joined = text::join_chars(&parts, 0, &space);
    assert(text::views(parts@).skip(0) =~= text::views(parts@));
    text::string_of(&joined)
}

/// The lines kept after the first `k` lines: each line without its
/// trailing white space; an empty line only while fewer than three empty
/// lines came in a row. Gives the kept lines and the number of empty lines
/// just before.
pub open spec fn kept_lines(lines: Seq<Seq<char>>, k: int) -> (Seq<Seq<char>>, int)
    decreases k,
{
    if k <= 0 {
        (Seq::empty(), 0)
    } else {
        let (kept, empty) = kept_lines(lines, k - 1);
        let t = text::trim_end_ws(lines[k - 1]);
        if t.len() > 0 {
            (kept.push(t), 0)
        } else if empty + 1 < 3 {
            (kept.push(t), empty + 1)
        } else {
            (kept, empty + 1)
        }
    }
}

/// The text with trailing white space removed from each line, runs of
/// empty lines limited to two, and white space trimmed at both ends.
pub open spec fn spec_clean_and_trim(s: Seq<char>) -> Seq<char> {
    let lines = text::split_on(s, '\n');
    text::trim_ws(text::join_with(kept_lines(lines, lines.len() as int).0, "\n"@))
}

/// Trimming at the start leaves nothing, or text that starts with a
/// character other than white space.
proof fn lemma_trim_start_shape(x: Seq<char>)
    ensures
        text::trim_start_ws(x).len() == 0 || !text::whitespace(text::trim_start_ws(x)[0]),
    decreases x.len(),
{
    if x.len() > 0 && text::whitespace(x[0]) {
        lemma_trim_start_shape(x.drop_first());
    }
}

/// Trimming at the end text that starts with a character other than white
/// space leaves nothing, or text that starts and ends with characters
/// other than white space.
proof fn lemma_trim_end_shape(y: Seq<char>)
    requires
        y.len() == 0 || !text::whitespace(y[0]),
    ensures
        text::trim_end_ws(y).len() == 0 || (!text::whitespace(text::trim_end_ws(y)[0])
            && !text::whitespace(text::trim_end_ws(y).last())),
    decreases y.len(),
{
    if y.len() > 0 && text::whitespace(y.last()) {
        let p = y.drop_last();
        if p.len() > 0 {
            assert(p[0] == y[0]);
        }
        lemma_trim_end_shape(p);
    }
}

/// Trimming again changes nothing.
proof fn lemma_trim_ws_idempotent(x: Seq<char>)
    ensures
        text::trim_ws(text::trim_ws(x)) == text::trim_ws(x),
{
    lemma_trim_start_shape(x);
    lemma_trim_end_shape(text::trim_start_ws(x));
    let t = text::trim_ws(x);
    assert(text::trim_start_ws(t) == t);
    assert(text::trim_end_ws(t) == t);
}

/// The cleaned text is trimmed: trimming it again changes nothing.
pub proof fn law_clean_and_trim_trimmed(s: Seq<char>)
    ensures
        text::trim_ws(spec_clean_and_trim(s)) == spec_clean_and_trim(s),
{
    let lines = text::split_on(s, '\n');
    lemma_trim_ws_idempotent(text::join_with(kept_lines(lines, lines.len() as int).0, "\n"@));
}

/// No character of `x` is `c`.
spec fn free_of(x: Seq<char>, c: char) -> bool {
    forall|i: int| 0 <= i < x.len() ==> x[i] != c
}

/// Lines `i`, `i + 1` and `i + 2` are empty.
spec fn three_empty(l: Seq<Seq<char>>, i: int) -> bool {
    l[i].len() == 0 && l[i + 1].len() == 0 && l[i + 2].len() == 0
}

/// No line holds a line feed or ends in white space, and no three lines
/// in a row are empty.
spec fn tidy_body(l: Seq<Seq<char>>) -> bool {
    &&& forall|i: int| 0 <= i < l.len() ==> free_of(#[trigger] l[i], '\n')
    &&& forall|i: int| 0 <= i < l.len() ==> (#[trigger] l[i]).len() == 0 || !text::whitespace(l[i].last())
    &&& forall|i: int| 0 <= i && i + 2 < l.len() ==> !#[trigger] three_empty(l, i)
}

/// At least one line, and the lines are tidy (see [`tidy_body`]).
spec fn tidy_lines(l: Seq<Seq<char>>) -> bool {
    l.len() > 0 && tidy_body(l)
}

/// The number of empty lines that end the first `k` lines.
spec fn empty_run(l: Seq<Seq<char>>, k: int) -> int
    decreases k,
{
    if k <= 0 {
        0
    } else if l[k - 1].len() == 0 {
        empty_run(l, k - 1) + 1
    } else {
        0
    }
}

/// Tidy lines are kept as they are.
proof fn lemma_kept_tidy(l: Seq<Seq<char>>, k: int)
    requires
        tidy_body(l),
        0 <= k <= l.len(),
    ensures
        kept_lines(l, k) == (l.take(k), empty_run(l, k)),
        0 <= empty_run(l, k) <= k,
        k >= 1 && empty_run(l, k) >= 1 ==> l[k - 1].len() == 0,
        k >= 2 && empty_run(l, k) >= 2 ==> l[k - 2].len() == 0,
    decreases k,
{
    if k > 0 {
        lemma_kept_tidy(l, k - 1);
        let x = l[k - 1];
        assert(x.len() == 0 || !text::whitespace(x.last()));
        assert(text::trim_end_ws(x) == x);
        if x.len() == 0 && empty_run(l, k - 1) >= 2 {
            assert(three_empty(l, k - 3));
        }
        assert(l.take(k) =~= l.take(k - 1).push(x));
    }
}

/// Joining puts the first line, the separator, then the rest.
proof fn lemma_join_front(l: Seq<Seq<char>>, sep: Seq<char>)
    requires
        l.len() >= 2,
    ensures
        text::join_with(l, sep) == l[0] + sep + text::join_with(l.drop_first(), sep),
    decreases l.len(),
{
    if l.len() > 2 {
        let p = l.drop_last();
        lemma_join_front(p, sep);
        let r = l.drop_first();
        assert(p.drop_first() =~= r.drop_last());
        assert(r.last() == l.last());
        assert(p[0] == l[0]);
        assert(text::join_with(r, sep) == text::join_with(r.drop_last(), sep) + sep + r.last());
        assert(text::join_with(l, sep) == text::join_with(p, sep) + sep + l.last());
        assert(text::join_with(l, sep) =~= l[0] + sep + text::join_with(r, sep));
    } else {
        assert(l.drop_first().len() == 1);
        assert(l.drop_last().len() == 1);
        assert(text::join_with(l.drop_last(), sep) == l.drop_last()[0]);
        assert(text::join_with(l.drop_first(), sep) == l.drop_first()[0]);
        assert(l.drop_last()[0] == l[0]);
        assert(l.drop_first()[0] == l[1]);
        assert(text::join_with(l, sep) == text::join_with(l.drop_last(), sep) + sep + l.last());
        assert(text::join_with(l, sep) =~= l[0] + sep + text::join_with(l.drop_first(), sep));
    }
}

/// Text without the separator extends the current piece.
proof fn lemma_split_run(x: Seq<char>, y: Seq<char>, sep: char, cur: Seq<char>)
    requires
        free_of(x, sep),
    ensures
        text::split_from(x + y, sep, cur) == text::split_from(y, sep, cur + x),
    decreases x.len(),
{
    if x.len() == 0 {
        assert(x + y =~= y);
        assert(cur + x =~= cur);
    } else {
        assert((x + y)[0] == x[0]);
        assert((x + y).drop_first() =~= x.drop_first() + y);
        lemma_split_run(x.drop_first(), y, sep, cur.push(x[0]));
        assert(cur.push(x[0]) + x.drop_first() =~= cur + x);
    }
}

/// Splitting joined lines without line feeds gives the lines back, the
/// first one after `cur`.
proof fn lemma_split_join(l: Seq<Seq<char>>, cur: Seq<char>)
    requires
        l.len() > 0,
        forall|i: int| 0 <= i < l.len() ==> free_of(#[trigger] l[i], '\n'),
    ensures
        text::split_from(text::join_with(l, "\n"@), '\n', cur) == l.update(0, cur + l[0]),
    decreases l.len(),
{
    reveal_strlit("\n");
    if l.len() == 1 {
        lemma_split_run(l[0], Seq::empty(), '\n', cur);
        assert(l[0] + Seq::<char>::empty() =~= l[0]);
        assert(text::split_from(Seq::<char>::empty(), '\n', cur + l[0]) == seq![cur + l[0]]);
        assert(l.update(0, cur + l[0]) =~= seq![cur + l[0]]);
    } else {
        let rest = l.drop_first();
        lemma_join_front(l, "\n"@);
        let jr = text::join_with(rest, "\n"@);
        assert(l[0] + "\n"@ + jr =~= l[0] + ("\n"@ + jr));
        lemma_split_run(l[0], "\n"@ + jr, '\n', cur);
        let t = "\n"@ + jr;
        assert(t[0] == '\n');
        assert(t.drop_first() =~= jr);
        assert forall|i: int| 0 <= i < rest.len() implies free_of(#[trigger] rest[i], '\n') by {
            assert(rest[i] == l[i + 1]);
        }
        lemma_split_join(rest, Seq::empty());
        assert(Seq::<char>::empty() + rest[0] =~= rest[0]);
        assert(rest.update(0, Seq::<char>::empty() + rest[0]) =~= rest);
        assert(l.update(0, cur + l[0]) =~= seq![cur + l[0]] + rest);
    }
}

/// Tidy lines after the first are tidy.
proof fn lemma_tidy_rest(l: Seq<Seq<char>>)
    requires
        tidy_body(l),
        l.len() >= 1,
    ensures
        tidy_body(l.drop_first()),
        tidy_body(l.drop_last()),
{
    let r = l.drop_first();
    let p = l.drop_last();
    assert forall|i: int| 0 <= i && i + 2 < r.len() implies !#[trigger] three_empty(r, i) by {
        assert(!three_empty(l, i + 1));
        assert(r[i] == l[i + 1] && r[i + 1] == l[i + 2] && r[i + 2] == l[i + 3]);
    }
    assert forall|i: int| 0 <= i < r.len() implies free_of(#[trigger] r[i], '\n') by {
        assert(r[i] == l[i + 1]);
    }
    assert forall|i: int| 0 <= i < r.len() implies (#[trigger] r[i]).len() == 0 || !text::whitespace(r[i].last()) by {
        assert(r[i] == l[i + 1]);
    }
    assert forall|i: int| 0 <= i && i + 2 < p.len() implies !#[trigger] three_empty(p, i) by {
        assert(!three_empty(l, i));
    }
    assert forall|i: int| 0 <= i < p.len() implies free_of(#[trigger] p[i], '\n') by {
        assert(p[i] == l[i]);
    }
    assert forall|i: int| 0 <= i < p.len() implies (#[trigger] p[i]).len() == 0 || !text::whitespace(p[i].last()) by {
        assert(p[i] == l[i]);
    }
}

/// Trimming the start of joined tidy lines gives joined tidy lines.
proof fn lemma_trim_start_lines(l: Seq<Seq<char>>) -> (m: Seq<Seq<char>>)
    requires
        tidy_lines(l),
    ensures
        tidy_lines(m),
        text::trim_start_ws(text::join_with(l, "\n"@)) == text::join_with(m, "\n"@),
    decreases text::join_with(l, "\n"@).len(),
{
    reveal_strlit("\n");
    let j = text::join_with(l, "\n"@);
    if j.len() == 0 || !text::whitespace(j[0]) {
        l
    } else if l[0].len() > 0 {
        let x = l[0];
        if x.len() == 1 {
            if l.len() >= 2 {
                lemma_join_front(l, "\n"@);
            }
            assert(j[0] == x[0]);
            assert(false);
        }
        let y = x.drop_first();
        let l2 = l.update(0, y);
        assert(y.last() == x.last());
        assert forall|i: int| 0 <= i && i + 2 < l2.len() implies !#[trigger] three_empty(l2, i) by {
            assert(!three_empty(l, i));
            if i > 0 {
                assert(l2[i] == l[i]);
            }
            assert(l2[i + 1] == l[i + 1] && l2[i + 2] == l[i + 2]);
        }
        assert forall|i: int| 0 <= i < l2.len() implies free_of(#[trigger] l2[i], '\n') by {
            if i == 0 {
                assert forall|q: int| 0 <= q < y.len() implies y[q] != '\n' by {
                    assert(y[q] == x[q + 1]);
                }
            }
        }
        assert forall|i: int| 0 <= i < l2.len() implies (#[trigger] l2[i]).len() == 0 || !text::whitespace(l2[i].last()) by {
            if i == 0 {
                assert(!text::whitespace(x.last()));
            } else {
                assert(l2[i] == l[i]);
            }
        }
        if l.len() >= 2 {
            lemma_join_front(l, "\n"@);
            lemma_join_front(l2, "\n"@);
            assert(l2.drop_first() =~= l.drop_first());
            assert(j[0] == x[0]);
            assert(j.drop_first() =~= text::join_with(l2, "\n"@));
        } else {
            assert(j == x);
            assert(text::join_with(l2, "\n"@) == y);
            assert(j.drop_first() =~= y);
        }
        lemma_trim_start_lines(l2)
    } else {
        if l.len() == 1 {
            assert(j == l[0]);
            assert(false);
        }
        let rest = l.drop_first();
        lemma_join_front(l, "\n"@);
        lemma_tidy_rest(l);
        let jr = text::join_with(rest, "\n"@);
        assert(j =~= "\n"@ + jr);
        assert(j.drop_first() =~= jr);
        lemma_trim_start_lines(rest)
    }
}

/// Trimming the end of joined tidy lines gives joined tidy lines.
proof fn lemma_trim_end_lines(l: Seq<Seq<char>>) -> (m: Seq<Seq<char>>)
    requires
        tidy_lines(l),
    ensures
        tidy_lines(m),
        text::trim_end_ws(text::join_with(l, "\n"@)) == text::join_with(m, "\n"@),
    decreases l.len(),
{
    reveal_strlit("\n");
    let j = text::join_with(l, "\n"@);
    if j.len() == 0 || !text::whitespace(j.last()) {
        l
    } else {
        let x = l.last();
        if l.len() == 1 {
            assert(j == l[0]);
            assert(x.len() == 0 || !text::whitespace(x.last()));
            assert(false);
        }
        let p = l.drop_last();
        let jp = text::join_with(p, "\n"@);
        assert(j == jp + "\n"@ + x);
        if x.len() > 0 {
            assert(j.last() == x.last());
            assert(!text::whitespace(l[l.len() - 1].last()));
            assert(false);
        }
        assert(j =~= jp + "\n"@);
        assert(j.drop_last() =~= jp);
        lemma_tidy_rest(l);
        lemma_trim_end_lines(p)
    }
}

/// Trimming the end of a line leaves nothing, or a line that does not end
/// in white space, and adds no character.
proof fn lemma_trim_end_line(x: Seq<char>, c: char)
    requires
        free_of(x, c),
    ensures
        text::trim_end_ws(x).len() == 0 || !text::whitespace(text::trim_end_ws(x).last()),
        free_of(text::trim_end_ws(x), c),
    decreases x.len(),
{
    if x.len() > 0 && text::whitespace(x.last()) {
        lemma_trim_end_line(x.drop_last(), c);
    }
}

/// Every piece of a split is free of the separator.
proof fn lemma_split_free(s: Seq<char>, sep: char, cur: Seq<char>)
    requires
        free_of(cur, sep),
    ensures
        text::split_from(s, sep, cur).len() > 0,
        forall|i: int| 0 <= i < text::split_from(s, sep, cur).len() ==> free_of(#[trigger] text::split_from(s, sep, cur)[i], sep),
    decreases s.len(),
{
    if s.len() > 0 {
        if s[0] == sep {
            lemma_split_free(s.drop_first(), sep, Seq::empty());
            let r = text::split_from(s.drop_first(), sep, Seq::empty());
            let all = seq![cur] + r;
            assert forall|i: int| 0 <= i < all.len() implies free_of(#[trigger] all[i], sep) by {
                if i > 0 {
                    assert(all[i] == r[i - 1]);
                }
            }
        } else {
            lemma_split_free(s.drop_first(), sep, cur.push(s[0]));
        }
    }
}

/// What the kept lines of lines without line feeds look like after `k`
/// lines: tidy, and ending with as many empty lines as the count says, up
/// to two.
proof fn lemma_kept_shape(lines: Seq<Seq<char>>, k: int)
    requires
        0 <= k <= lines.len(),
        forall|i: int| 0 <= i < lines.len() ==> free_of(#[trigger] lines[i], '\n'),
    ensures
        ({
            let (kept, e) = kept_lines(lines, k);
            &&& tidy_body(kept)
            &&& e >= 0
            &&& k >= 1 ==> kept.len() >= 1
            &&& e == 0 ==> kept.len() == 0 || kept.last().len() > 0
            &&& e == 1 ==> kept.len() >= 1 && kept.last().len() == 0 && (kept.len() == 1
                || kept[kept.len() - 2].len() > 0)
            &&& e >= 2 ==> kept.len() >= 2 && kept.last().len() == 0 && kept[kept.len() - 2].len() == 0
        }),
    decreases k,
{
    if k > 0 {
        lemma_kept_shape(lines, k - 1);
        let (kept, e) = kept_lines(lines, k - 1);
        let t = text::trim_end_ws(lines[k - 1]);
        lemma_trim_end_line(lines[k - 1], '\n');
        if t.len() > 0 || e + 1 < 3 {
            let n = kept.push(t);
            assert forall|i: int| 0 <= i && i + 2 < n.len() implies !#[trigger] three_empty(n, i) by {
                if i + 2 < kept.len() {
                    assert(!three_empty(kept, i));
                } else if t.len() == 0 {
                    if e == 0 {
                        assert(n[i + 1] == kept.last());
                    } else {
                        assert(n[i] == kept[kept.len() - 2]);
                    }
                }
            }
            assert forall|i: int| 0 <= i < n.len() implies free_of(#[trigger] n[i], '\n') by {
                if i < kept.len() {
                    assert(n[i] == kept[i]);
                }
            }
            assert forall|i: int| 0 <= i < n.len() implies (#[trigger] n[i]).len() == 0 || !text::whitespace(n[i].last()) by {
                if i < kept.len() {
                    assert(n[i] == kept[i]);
                }
            }
        }
    }
}

/// The cleaned text is tidy lines joined by line feeds, and splitting it
/// at line feeds gives those lines back.
proof fn lemma_cleaned_lines(s: Seq<char>) -> (m: Seq<Seq<char>>)
    ensures
        tidy_lines(m),
        spec_clean_and_trim(s) == text::join_with(m, "\n"@),
        text::split_on(spec_clean_and_trim(s), '\n') == m,
{
    let lines = text::split_on(s, '\n');
    lemma_split_free(s, '\n', Seq::empty());
    lemma_kept_shape(lines, lines.len() as int);
    let l = kept_lines(lines, lines.len() as int).0;
    let m1 = lemma_trim_start_lines(l);
    let m2 = lemma_trim_end_lines(m1);
    let r = spec_clean_and_trim(s);
    assert(r == text::join_with(m2, "\n"@));
    lemma_split_join(m2, Seq::empty());
    assert(Seq::<char>::empty() + m2[0] =~= m2[0]);
    assert(m2.update(0, Seq::<char>::empty() + m2[0]) =~= m2);
    m2
}

/// Cleaning the cleaned text again changes nothing.
pub proof fn law_clean_and_trim_idempotent(s: Seq<char>)
    ensures
        spec_clean_and_trim(spec_clean_and_trim(s)) == spec_clean_and_trim(s),
{
    let m = lemma_cleaned_lines(s);
    let r = spec_clean_and_trim(s);
    lemma_kept_tidy(m, m.len() as int);
    assert(m.take(m.len() as int) =~= m);
    law_clean_and_trim_trimmed(s);
}

/// No line of the cleaned text ends in white space, and no three lines in
/// a row are empty, so no four line feeds follow one another.
pub proof fn law_clean_and_trim_lines(s: Seq<char>)
    ensures
        forall|i: int|
            0 <= i < text::split_on(spec_clean_and_trim(s), '\n').len() ==> text::trim_end_ws(
                #[trigger] text::split_on(spec_clean_and_trim(s), '\n')[i],
            ) == text::split_on(spec_clean_and_trim(s), '\n')[i],
        forall|i: int|
            0 <= i && i + 2 < text::split_on(spec_clean_and_trim(s), '\n').len() ==> !(
            #[trigger] text::split_on(spec_clean_and_trim(s), '\n')[i].len() == 0 && text::split_on(
                spec_clean_and_trim(s),
                '\n',
            )[i + 1].len() == 0 && text::split_on(spec_clean_and_trim(s), '\n')[i + 2].len() == 0),
{
    let m = lemma_cleaned_lines(s);
    assert forall|i: int| 0 <= i < m.len() implies text::trim_end_ws(#[trigger] m[i]) == m[i] by {
        assert(m[i].len() == 0 || !text::whitespace(m[i].last()));
    }
    assert forall|i: int| 0 <= i && i + 2 < m.len() implies !(#[trigger] m[i].len() == 0 && m[i + 1].len() == 0
        && m[i + 2].len() == 0) by {
        assert(!three_empty(m, i));
    }
}

/// Cleans a rendered text (see [`spec_clean_and_trim`]).
pub fn clean_and_trim(s: &str) -> (r: String)
    ensures
        r@ == spec_clean_and_trim(s@),
{
    let cs = text::chars_of(s);
    let lines = text::split_chars(&cs, '\n');
    let ghost lv = text::views(lines@);
    let mut cleaned: Vec<Vec<char>> = Vec::new();
    let mut consec_empty: usize = 0;
    let mut i: usize = 0;
    while i < lines.len()
        invariant
            i <= lines@.len(),
            lv == text::views(lines@),
            consec_empty <= i,
            kept_lines(lv, i as int) == (text::views(cleaned@), consec_empty as int),
        decreases lines.len() - i,
    {
        let t = text::trim_end_chars(&lines[i]);
        assert(lv[i as int] == lines@[i as int]@);
        let ghost before = cleaned@;
        if t.len() > 0 {
            let ghost tv = t@;
            cleaned.push(t);
            assert(text::views(cleaned@) =~= text::views(before).push(tv));
            consec_empty = 0;
        } else {
            consec_empty = consec_empty + 1;
            if consec_empty < 3 {
                let ghost tv = t@;
                cleaned.push(t);
                assert(text::views(cleaned@) =~= text::views(before).push(tv));
            }
        }
        i = i + 1;
    }
    let nl = text::chars_of("\n");
    let joined = text::join_chars(&cleaned, 0, &nl);
    assert(text::views(cleaned@).skip(0) =~= text::views(cleaned@));
    let r = text::trim_chars(&joined);
    text::string_of(&r)
}

/// The decimal notation of an integer, with a `-` before a negative one.
pub open spec fn int_text(i: int) -> Seq<char> {
    if i < 0 {
        "-"@ + text::decimal((-i) as nat)
    } else {
        text::decimal(i as nat)
    }
}

/// The decimal notation of an `i64`.
pub fn i64_text(i: i64) -> (r: String)
    ensures
        r@ == int_text(i as int),
{
    let wide: i128 = i as i128;
    let mag: u64 = if i < 0 {
        let neg: i128 = 0i128 - wide;
        neg as u64
    } else {
        i as u64
    };
    assert(mag as int == if i < 0 {
        -(i as int)
    } else {
        i as int
    });
    let digits = text::string_of(&text::decimal_chars(mag));
    if i < 0 {
        let mut r = String::from_str("-");
        r.append(digits.as_str());
        r
    } else {
        digits
    }
}

// ---------------------------------------------------------------------------
// Preparing a model for a template
// ---------------------------------------------------------------------------

/// The type maps of the templates.
#[derive(Debug, Clone, Copy, PartialEq, Eq, Structural)]
pub enum TypeMap {
    /// Generic type names to Python type names.
    Python,
    /// Generic type names to SHACL type names.
    Shacl,
    /// Python type names to XML Schema type names.
    Xsd,
    /// Model type names to Typescript type names.
    Typescript,
    /// Model type names to GraphQL type names.
    Graphql,
}

/// The pairs of a type map.
pub open spec fn type_table(m: TypeMap) -> Seq<(Seq<char>, Seq<char>)> {
    match m {
        TypeMap::Python => seq![("string"@, "str"@), ("integer"@, "int"@), ("boolean"@, "bool"@), ("number"@, "float"@)],
        TypeMap::Shacl => seq![("float"@, "double"@), ("bytes"@, "base64Binary"@)],
        TypeMap::Xsd => seq![("str"@, "string"@), ("bytes"@, "base64Binary"@)],
        TypeMap::Typescript => seq![("integer"@, "number"@), ("float"@, "number"@), ("date"@, "string"@), ("bytes"@, "string"@)],
        TypeMap::Graphql => seq![("integer"@, "Int"@), ("number"@, "Float"@), ("float"@, "Float"@), ("boolean"@, "Boolean"@), ("string"@, "String"@), ("bytes"@, "String"@), ("date"@, "String"@)],
    }
}

/// The pairs of a type map, as a list.
pub fn type_table_exec(m: TypeMap) -> (r: Vec<(String, String)>)
    ensures
        text::pairs_view(r@) == type_table(m),
{
    let mut t: Vec<(String, String)> = Vec::new();
    match m {
        TypeMap::Python => {
            t.push((String::from_str("string"), String::from_str("str")));
            t.push((String::from_str("integer"), String::from_str("int")));
            t.push((String::from_str("boolean"), String::from_str("bool")));
            t.push((String::from_str("number"), String::from_str("float")));
        },
        TypeMap::Shacl => {
            t.push((String::from_str("float"), String::from_str("double")));
            t.push((String::from_str("bytes"), String::from_str("base64Binary")));
        },
        TypeMap::Xsd => {
            t.push((String::from_str("str"), String::from_str("string")));
            t.push((String::from_str("bytes"), String::from_str("base64Binary")));
        },
        TypeMap::Typescript => {
            t.push((String::from_str("integer"), String::from_str("number")));
            t.push((String::from_str("float"), String::from_str("number")));
            t.push((String::from_str("date"), String::from_str("string")));
            t.push((String::from_str("bytes"), String::from_str("string")));
        },
        TypeMap::Graphql => {
            t.push((String::from_str("integer"), String::from_str("Int")));
            t.push((String::from_str("number"), String::from_str("Float")));
            t.push((String::from_str("float"), String::from_str("Float")));
            t.push((String::from_str("boolean"), String::from_str("Boolean")));
            t.push((String::from_str("string"), String::from_str("String")));
            t.push((String::from_str("bytes"), String::from_str("String")));
            t.push((String::from_str("date"), String::from_str("String")));
        },
    }
    assert(text::pairs_view(t@) =~= type_table(m));
    t
}

/// The type a map gives for `t`: the value of the first pair with key `t`,
/// or `t` itself.
pub open spec fn lookup_type(table: Seq<(Seq<char>, Seq<char>)>, t: Seq<char>) -> Seq<char> {
    match object::spec_map_get(table, t) {
        Some(v) => v,
        None => t,
    }
}

/// Looks up a type in a map (see [`lookup_type`]).
fn lookup_type_exec(table: &Vec<(String, String)>, t: &String) -> (r: String)
    ensures
        r@ == lookup_type(text::pairs_view(table@), t@),
{
    let ghost tv = text::pairs_view(table@);
    let mut i: usize = 0;
    assert(tv.skip(0) =~= tv);
    while i < table.len()
        invariant
            i <= table@.len(),
            tv == text::pairs_view(table@),
            object::spec_map_get(tv, t@) == object::spec_map_get(tv.skip(i as int), t@),
        decreases table.len() - i,
    {
        assert(tv.skip(i as int)[0] == text::pair_view(table@[i as int]));
        assert(tv.skip(i as int).drop_first() =~= tv.skip(i + 1));
        if table[i].0 == *t {
            return table[i].1.clone();
        }
        i = i + 1;
    }
    assert(tv.skip(i as int) =~= Seq::<(Seq<char>, Seq<char>)>::empty());
    t.clone()
}

/// An attribute with its data types mapped.
pub open spec fn convert_attribute(a: AttributeView, table: Seq<(Seq<char>, Seq<char>)>) -> AttributeView {
    AttributeView { dtypes: a.dtypes.map_values(|t: Seq<char>| lookup_type(table, t)), ..a }
}

/// The objects with the data types of all their attributes mapped.
pub open spec fn convert_objects(objs: Seq<ObjectView>, table: Seq<(Seq<char>, Seq<char>)>) -> Seq<
    ObjectView,
> {
    objs.map_values(
        |o: ObjectView|
            ObjectView {
                attributes: o.attributes.map_values(
                    |a: AttributeView| convert_attribute(a, table),
                ),
                ..o
            },
    )
}

/// Maps the data types of one attribute.
fn convert_attribute_types(a: &mut Attribute, table: &Vec<(String, String)>)
    ensures
        final(a)@ == convert_attribute(old(a)@, text::pairs_view(table@)),
{
    let ghost tv = text::pairs_view(table@);
    let mut dtypes: Vec<String> = Vec::new();
    let mut i: usize = 0;
    while i < a.dtypes.len()
        invariant
            i <= a.dtypes@.len(),
            tv == text::pairs_view(table@),
            dtypes@.map_values(|d: String| d@) == a@.dtypes.take(i as int).map_values(
                |t: Seq<char>| lookup_type(tv, t),
            ),
        decreases a.dtypes.len() - i,
    {
        let ghost before = dtypes@;
        let d = lookup_type_exec(table, &a.dtypes[i]);
        dtypes.push(d);
        assert(dtypes@.map_values(|d: String| d@) =~= before.map_values(|d: String| d@).push(d@));
        assert(a@.dtypes.take(i + 1).map_values(|t: Seq<char>| lookup_type(tv, t)) =~= a@.dtypes.take(
            i as int,
        ).map_values(|t: Seq<char>| lookup_type(tv, t)).push(lookup_type(tv, a.dtypes@[i as int]@)));
        i = i + 1;
    }
    assert(a@.dtypes.take(i as int) =~= a@.dtypes);
    a.dtypes = dtypes;
}

/// Maps the data types of all attributes of all objects (see
/// [`convert_objects`]).
pub fn convert_model_types(model: &mut DataModel, table: &Vec<(String, String)>)
    ensures
        object::objects_view(final(model).objects@) == convert_objects(
            object::objects_view(old(model).objects@),
            text::pairs_view(table@),
        ),
        final(model).name == old(model).name,
        final(model).enums == old(model).enums,
        final(model).config == old(model).config,
{
    let ghost tv = text::pairs_view(table@);
    let ghost all = object::objects_view(model.objects@);
    let mut rest: Vec<Object> = Vec::new();
    std::mem::swap(&mut rest, &mut model.objects);
    let ghost n = rest@.len();
    let mut done: Vec<Object> = Vec::new();
    assert(object::objects_view(rest@) =~= all.skip(0));
    while rest.len() > 0
        invariant
            all.len() == n,
            rest@.len() <= n,
            tv == text::pairs_view(table@),
            object::objects_view(rest@) == all.skip(n - rest@.len()),
            object::objects_view(done@) == convert_objects(all.take(n - rest@.len()), tv),
        decreases rest@.len(),
    {
        let ghost k = n - rest@.len();
        assert(all.skip(k)[0] == all[k]);
        let ghost before_rest = rest@;
        let mut o = rest.remove(0);
        assert(object::objects_view(rest@) =~= all.skip(k + 1)) by {
            assert(all.skip(k).drop_first() =~= all.skip(k + 1));
            assert(object::objects_view(rest@) =~= object::objects_view(before_rest).drop_first());
        }
        let mut attrs: Vec<Attribute> = Vec::new();
        std::mem::swap(&mut attrs, &mut o.attributes);
        let ghost av = object::attrs_view(attrs@);
        let mut converted: Vec<Attribute> = Vec::new();
        let ghost m = attrs@.len();
        assert(object::attrs_view(attrs@) =~= av.skip(0));
        while attrs.len() > 0
            invariant
                av.len() == m,
                attrs@.len() <= m,
                tv == text::pairs_view(table@),
                object::attrs_view(attrs@) == av.skip(m - attrs@.len()),
                object::attrs_view(converted@) == av.take(m - attrs@.len()).map_values(
                    |a: AttributeView| convert_attribute(a, tv),
                ),
            decreases attrs@.len(),
        {
            let ghost q = m - attrs@.len();
            assert(av.skip(q)[0] == av[q]);
            let ghost before_attrs = attrs@;
            let mut a = attrs.remove(0);
            assert(object::attrs_view(attrs@) =~= av.skip(q + 1)) by {
                assert(av.skip(q).drop_first() =~= av.skip(q + 1));
                assert(object::attrs_view(attrs@) =~= object::attrs_view(before_attrs).drop_first());
            }
            convert_attribute_types(&mut a, table);
            let ghost bm = converted@;
            converted.push(a);
            assert(object::attrs_view(converted@) =~= object::attrs_view(bm).push(a@));
            assert(av.take(q + 1).map_values(|a: AttributeView| convert_attribute(a, tv))
                =~= av.take(q).map_values(|a: AttributeView| convert_attribute(a, tv)).push(
                convert_attribute(av[q], tv),
            ));
        }
        assert(av.take(m as int) =~= av);
        o.attributes = converted;
        let ghost bd = done@;
        done.push(o);
        assert(object::objects_view(done@) =~= object::objects_view(bd).push(o@));
        assert(convert_objects(all.take(k + 1), tv) =~= convert_objects(all.take(k), tv).push(o@));
    }
    assert(all.take(n as int) =~= all);
    model.objects = done;
}

/// An attribute typed by `UnitDefinition` is typed by `UnitDefinitionAnnot`
/// alone.
pub open spec fn astropy_attribute(a: AttributeView) -> AttributeView {
    if a.dtypes.contains("UnitDefinition"@) {
        AttributeView { dtypes: seq!["UnitDefinitionAnnot"@], ..a }
    } else {
        a
    }
}

/// The objects for astropy: attributes typed by `UnitDefinition` retyped,
/// and the objects `UnitDefinition` and `BaseUnit` removed.
pub open spec fn astropy_objects(objs: Seq<ObjectView>) -> Seq<ObjectView> {
    objs.map_values(
        |o: ObjectView|
            ObjectView {
                attributes: o.attributes.map_values(|a: AttributeView| astropy_attribute(a)),
                ..o
            },
    ).filter(|o: ObjectView| o.name != "UnitDefinition"@ && o.name != "BaseUnit"@)
}

/// The enumerations for astropy: `UnitType` removed.
pub open spec fn astropy_enums(enums: Seq<EnumView>) -> Seq<EnumView> {
    enums.filter(|e: EnumView| e.name != "UnitType"@)
}

/// Retypes one attribute for astropy.
fn astropy_attribute_exec(a: &mut Attribute)
    ensures
        final(a)@ == astropy_attribute(old(a)@),
{
    let unit = String::from_str("UnitDefinition");
    let mut found = false;
    let mut i: usize = 0;
    while i < a.dtypes.len()
        invariant
            i <= a.dtypes@.len(),
            unit@ == "UnitDefinition"@,
            found == exists|k: int| 0 <= k < i && a@.dtypes[k] == unit@,
        decreases a.dtypes.len() - i,
    {
        assert(a@.dtypes[i as int] == a.dtypes@[i as int]@);
        if a.dtypes[i] == unit {
            found = true;
        }
        i = i + 1;
    }
    if found {
        let mut v: Vec<String> = Vec::new();
        v.push(String::from_str("UnitDefinitionAnnot"));
        a.dtypes = v;
        assert(a@.dtypes =~= seq!["UnitDefinitionAnnot"@]);
    } else {
        assert(!a@.dtypes.contains("UnitDefinition"@));
    }
}

/// Converts the model for astropy (see [`astropy_objects`] and
/// [`astropy_enums`]).
pub fn convert_astropy_types(model: &mut DataModel)
    ensures
        object::objects_view(final(model).objects@) == astropy_objects(
            object::objects_view(old(model).objects@),
        ),
        enums_view(final(model).enums@) == astropy_enums(enums_view(old(model).enums@)),
        final(model).name == old(model).name,
        final(model).config == old(model).config,
{
    let ghost all = object::objects_view(model.objects@);
    let ghost mapped = all.map_values(
        |o: ObjectView|
            ObjectView {
                attributes: o.attributes.map_values(|a: AttributeView| astropy_attribute(a)),
                ..o
            },
    );
    let ghost keep = |o: ObjectView| o.name != "UnitDefinition"@ && o.name != "BaseUnit"@;
    let mut rest: Vec<Object> = Vec::new();
    std::mem::swap(&mut rest, &mut model.objects);
    let ghost n = rest@.len();
    let mut done: Vec<Object> = Vec::new();
    assert(object::objects_view(rest@) =~= all.skip(0));
    while rest.len() > 0
        invariant
            all.len() == n,
            mapped.len() == n,
            mapped == all.map_values(
                |o: ObjectView|
                    ObjectView {
                        attributes: o.attributes.map_values(
                            |a: AttributeView| astropy_attribute(a),
                        ),
                        ..o
                    },
            ),
            keep == (|o: ObjectView| o.name != "UnitDefinition"@ && o.name != "BaseUnit"@),
            rest@.len() <= n,
            object::objects_view(rest@) == all.skip(n - rest@.len()),
            object::objects_view(done@) == mapped.take(n - rest@.len()).filter(keep),
        decreases rest@.len(),
    {
        let ghost k = n - rest@.len();
        reveal_with_fuel(Seq::<_>::filter, 1);
        assert(mapped.take(k + 1).drop_last() =~= mapped.take(k));
        assert(all.skip(k)[0] == all[k]);
        let ghost before_rest = rest@;
        let mut o = rest.remove(0);
        assert(object::objects_view(rest@) =~= all.skip(k + 1)) by {
            assert(all.skip(k).drop_first() =~= all.skip(k + 1));
            assert(object::objects_view(rest@) =~= object::objects_view(before_rest).drop_first());
        }
        let mut attrs: Vec<Attribute> = Vec::new();
        std::mem::swap(&mut attrs, &mut o.attributes);
        let ghost av = object::attrs_view(attrs@);
        let mut converted: Vec<Attribute> = Vec::new();
        let ghost m = attrs@.len();
        assert(object::attrs_view(attrs@) =~= av.skip(0));
        while attrs.len() > 0
            invariant
                av.len() == m,
                attrs@.len() <= m,
                object::attrs_view(attrs@) == av.skip(m - attrs@.len()),
                object::attrs_view(converted@) == av.take(m - attrs@.len()).map_values(
                    |a: AttributeView| astropy_attribute(a),
                ),
            decreases attrs@.len(),
        {
            let ghost q = m - attrs@.len();
            assert(av.skip(q)[0] == av[q]);
            let ghost before_attrs = attrs@;
            let mut a = attrs.remove(0);
            assert(object::attrs_view(attrs@) =~= av.skip(q + 1)) by {
                assert(av.skip(q).drop_first() =~= av.skip(q + 1));
                assert(object::attrs_view(attrs@) =~= object::attrs_view(before_attrs).drop_first());
            }
            astropy_attribute_exec(&mut a);
            let ghost bm = converted@;
            converted.push(a);
            assert(object::attrs_view(converted@) =~= object::attrs_view(bm).push(a@));
            assert(av.take(q + 1).map_values(|a: AttributeView| astropy_attribute(a)) =~= av.take(
                q,
            ).map_values(|a: AttributeView| astropy_attribute(a)).push(astropy_attribute(av[q])));
        }
        assert(av.take(m as int) =~= av);
        o.attributes = converted;
        assert(o@ == mapped[k]);
        let unit = String::from_str("UnitDefinition");
        let base = String::from_str("BaseUnit");
        if o.name != unit && o.name != base {
            let ghost bd = done@;
            done.push(o);
            assert(object::objects_view(done@) =~= object::objects_view(bd).push(o@));
        }
    }
    assert(mapped.take(n as int) =~= mapped);
    model.objects = done;
    let ghost eall = enums_view(model.enums@);
    let ghost ekeep = |e: EnumView| e.name != "UnitType"@;
    let mut erest: Vec<Enumeration> = Vec::new();
    std::mem::swap(&mut erest, &mut model.enums);
    let ghost en = erest@.len();
    let mut ekept: Vec<Enumeration> = Vec::new();
    assert(enums_view(erest@) =~= eall.skip(0));
    while erest.len() > 0
        invariant
            eall.len() == en,
            erest@.len() <= en,
            ekeep == (|e: EnumView| e.name != "UnitType"@),
            enums_view(erest@) == eall.skip(en - erest@.len()),
            enums_view(ekept@) == eall.take(en - erest@.len()).filter(ekeep),
        decreases erest@.len(),
    {
        let ghost k = en - erest@.len();
        reveal_with_fuel(Seq::<_>::filter, 1);
        assert(eall.take(k + 1).drop_last() =~= eall.take(k));
        assert(eall.skip(k)[0] == eall[k]);
        let ghost before_rest = erest@;
        let e = erest.remove(0);
        assert(enums_view(erest@) =~= eall.skip(k + 1)) by {
            assert(eall.skip(k).drop_first() =~= eall.skip(k + 1));
            assert(enums_view(erest@) =~= enums_view(before_rest).drop_first());
        }
        let unit_type = String::from_str("UnitType");
        if e.name != unit_type {
            let ghost bk = ekept@;
            ekept.push(e);
            assert(enums_view(ekept@) =~= enums_view(bk).push(object::enum_view(e)));
        }
    }
    assert(eall.take(en as int) =~= eall);
    model.enums = ekept;
}

/// An object has a term when one of its attributes has.
pub open spec fn has_terms(o: ObjectView) -> bool {
    exists|i: int| 0 <= i < o.attributes.len() && (#[trigger] o.attributes[i]).term is Some
}

/// The message when no object has a term.
pub open spec fn no_terms_message() -> Seq<char> {
    "No objects with terms found in the model. Unable to build SHACL or ShEx."@
}

/// Keeps the objects that have terms; refused when none is left.
pub fn filter_objects_wo_terms(model: &mut DataModel) -> (r: Result<(), String>)
    ensures
        object::objects_view(final(model).objects@) == object::objects_view(
            old(model).objects@,
        ).filter(|o: ObjectView| has_terms(o)),
        r is Ok <==> final(model).objects@.len() > 0,
        r is Err ==> r->Err_0@ == no_terms_message(),
        final(model).name == old(model).name,
        final(model).enums == old(model).enums,
        final(model).config == old(model).config,
{
    let ghost all = object::objects_view(model.objects@);
    let mut rest: Vec<Object> = Vec::new();
    std::mem::swap(&mut rest, &mut model.objects);
    let ghost n = rest@.len();
    let mut kept: Vec<Object> = Vec::new();
    assert(object::objects_view(rest@) =~= all.skip(0));
    while rest.len() > 0
        invariant
            all.len() == n,
            rest@.len() <= n,
            object::objects_view(rest@) == all.skip(n - rest@.len()),
            object::objects_view(kept@) == all.take(n - rest@.len()).filter(
                |o: ObjectView| has_terms(o),
            ),
        decreases rest@.len(),
    {
        let ghost k = n - rest@.len();
        reveal_with_fuel(Seq::<_>::filter, 1);
        assert(all.take(k + 1).drop_last() =~= all.take(k));
        assert(all.skip(k)[0] == all[k]);
        let ghost before_rest = rest@;
        let o = rest.remove(0);
        assert(object::objects_view(rest@) =~= all.skip(k + 1)) by {
            assert(all.skip(k).drop_first() =~= all.skip(k + 1));
            assert(object::objects_view(rest@) =~= object::objects_view(before_rest).drop_first());
        }
        let t = o.has_any_terms();
        assert(t == has_terms(o@)) by {
            if t {
                let i = choose|i: int| 0 <= i < o.attributes@.len() && (#[trigger] o.attributes@[i]).term is Some;
                assert(o@.attributes[i] == o.attributes@[i]@);
            }
            if has_terms(o@) {
                let i = choose|i: int| 0 <= i < o@.attributes.len() && (#[trigger] o@.attributes[i]).term is Some;
                assert(o@.attributes[i] == o.attributes@[i]@);
            }
        }
        if t {
            let ghost bk = kept@;
            kept.push(o);
            assert(object::objects_view(kept@) =~= object::objects_view(bk).push(o@));
        }
    }
    assert(all.take(n as int) =~= all);
    model.objects = kept;
    if model.objects.len() == 0 {
        return Err(
            String::from_str(
                "No objects with terms found in the model. Unable to build SHACL or ShEx.",
            ),
        );
    }
    Ok(())
}

/// The key an enumeration value gets in Rust: lower-cased, with `_`
/// appended to the key as given where the lower-cased one is a forbidden
/// variant name (`yield`).
pub open spec fn rust_key(k: Seq<char>) -> Seq<char> {
    if text::lowercase(k) == "yield"@ {
        k + "_"@
    } else {
        text::lowercase(k)
    }
}

/// The mappings with their first `n` entries re-inserted under their Rust
/// keys, in order.
pub open spec fn rust_mappings(entries: Seq<(Seq<char>, Seq<char>)>, n: int) -> Seq<
    (Seq<char>, Seq<char>),
>
    decreases n,
{
    if n <= 0 {
        Seq::empty()
    } else {
        object::spec_map_insert(
            rust_mappings(entries, n - 1),
            rust_key(entries[n - 1].0),
            entries[n - 1].1,
        )
    }
}

/// Re-keys the mappings of an enumeration for Rust.
fn rust_enum_mappings(m: &Mappings) -> (r: Mappings)
    ensures
        r@ == rust_mappings(m@, m@.len() as int),
{
    let entries = m.entries();
    let mut r = Mappings::new();
    let mut i: usize = 0;
    while i < entries.len()
        invariant
            i <= entries@.len(),
            text::pairs_view(entries@) == m@,
            r@ == rust_mappings(m@, i as int),
        decreases entries.len() - i,
    {
        let key = &entries[i].0;
        let lower = text::to_lowercase(key.as_str());
        let new_key = if text::str_eq(lower.as_str(), "yield") {
            let mut k = key.clone();
            k.append("_");
            k
        } else {
            lower
        };
        assert(m@[i as int] == text::pair_view(entries@[i as int]));
        r.insert(new_key, entries[i].1.clone());
        i = i + 1;
    }
    r
}

/// Re-keys the mappings of every enumeration for Rust (see [`rust_key`]).
pub fn check_for_forbidden_rust_enum_variants(model: &mut DataModel)
    ensures
        final(model).enums@.len() == old(model).enums@.len(),
        forall|i: int|
            0 <= i < old(model).enums@.len() ==> {
                let e = #[trigger] enums_view(final(model).enums@)[i];
                let o = enums_view(old(model).enums@)[i];
                &&& e.mappings == rust_mappings(o.mappings, o.mappings.len() as int)
                &&& e.name == o.name
                &&& e.docstring == o.docstring
                &&& e.position == o.position
            },
        final(model).objects == old(model).objects,
        final(model).name == old(model).name,
        final(model).config == old(model).config,
{
    let ghost all = enums_view(model.enums@);
    let mut rest: Vec<Enumeration> = Vec::new();
    std::mem::swap(&mut rest, &mut model.enums);
    let ghost n = rest@.len();
    let mut done: Vec<Enumeration> = Vec::new();
    assert(enums_view(rest@) =~= all.skip(0));
    while rest.len() > 0
        invariant
            all.len() == n,
            rest@.len() <= n,
            done@.len() == n - rest@.len(),
            enums_view(rest@) == all.skip(n - rest@.len()),
            forall|i: int|
                0 <= i < done@.len() ==> {
                    let e = #[trigger] enums_view(done@)[i];
                    let o = all[i];
                    &&& e.mappings == rust_mappings(o.mappings, o.mappings.len() as int)
                    &&& e.name == o.name
                    &&& e.docstring == o.docstring
                    &&& e.position == o.position
                },
        decreases rest@.len(),
    {
        let ghost k = n - rest@.len();
        assert(all.skip(k)[0] == all[k]);
        let ghost before_rest = rest@;
        let mut e = rest.remove(0);
        assert(enums_view(rest@) =~= all.skip(k + 1)) by {
            assert(all.skip(k).drop_first() =~= all.skip(k + 1));
            assert(enums_view(rest@) =~= enums_view(before_rest).drop_first());
        }
        assert(object::enum_view(e) == all[k]);
        let m = rust_enum_mappings(&e.mappings);
        e.mappings = m;
        let ghost bd = done@;
        done.push(e);
        assert(enums_view(done@) =~= enums_view(bd).push(object::enum_view(e)));
    }
    model.enums = done;
}

/// An attribute has an option with the given key.
pub open spec fn has_option(a: AttributeView, key: Seq<char>) -> bool {
    exists|k: int| 0 <= k < a.options.len() && (#[trigger] a.options[k]).0 == key
}

/// The object has an attribute with a primary-key option (key `pk`).
pub open spec fn spec_has_primary_key(o: ObjectView) -> bool {
    exists|i: int| 0 <= i < o.attributes.len() && has_option(#[trigger] o.attributes[i], "pk"@)
}

/// The object has an attribute named `id`.
pub open spec fn spec_has_id(o: ObjectView) -> bool {
    exists|i: int| 0 <= i < o.attributes.len() && (#[trigger] o.attributes[i]).name == "id"@
}

/// Checks if an object has an attribute with a primary-key option (key `pk`).
pub fn has_primary_key(object: &Object) -> (r: bool)
    ensures
        r == spec_has_primary_key(object@),
{
    let mut i: usize = 0;
    while i < object.attributes.len()
        invariant
            i <= object.attributes@.len(),
            forall|j: int|
                0 <= j < i ==> !has_option(#[trigger] object@.attributes[j], "pk"@),
        decreases object.attributes.len() - i,
    {
        let a = &object.attributes[i];
        assert(object@.attributes[i as int] == a@);
        let mut k: usize = 0;
        while k < a.options.len()
            invariant
                k <= a.options@.len(),
                i < object.attributes@.len(),
                object@.attributes[i as int] == a@,
                forall|q: int| 0 <= q < k ==> (#[trigger] a@.options[q]).0 != "pk"@,
            decreases a.options.len() - k,
        {
            assert(a@.options[k as int] == a.options@[k as int]@);
            if text::str_eq(a.options[k].key.as_str(), "pk") {
                assert(has_option(a@, "pk"@));
                assert(has_option(object@.attributes[i as int], "pk"@));
                return true;
            }
            k = k + 1;
        }
        i = i + 1;
    }
    false
}

/// Checks if an object has an attribute named `id`.
pub fn has_id(object: &Object) -> (r: bool)
    ensures
        r == spec_has_id(object@),
{
    let mut i: usize = 0;
    while i < object.attributes.len()
        invariant
            i <= object.attributes@.len(),
            forall|j: int| 0 <= j < i ==> (#[trigger] object@.attributes[j]).name != "id"@,
        decreases object.attributes.len() - i,
    {
        assert(object@.attributes[i as int] == object.attributes@[i as int]@);
        if text::str_eq(object.attributes[i].name.as_str(), "id") {
            return true;
        }
        i = i + 1;
    }
    false
}

/// The primary-key option: key `pk`, value `true`.
pub open spec fn pk_option() -> (Seq<char>, Seq<char>) {
    ("pk"@, "true"@)
}

/// The identifier attribute that objects without primary key get: a
/// required `id` of type `integer` that is the primary key.
pub open spec fn id_attribute_view() -> AttributeView {
    attribute::spec_set_dtype(
        AttributeView {
            options: seq![pk_option()],
            ..attribute::spec_new_attribute("id"@, true)
        },
        "integer"@,
    )
}

/// Creates the identifier attribute (see [`id_attribute_view`]).
pub fn id_attribute() -> (r: Attribute)
    ensures
        r@ == id_attribute_view(),
{
    let mut attr = Attribute::new(String::from_str("id"), true);
    let ghost before = attr.options@;
    attr.options.push(AttrOption { key: String::from_str("pk"), value: String::from_str("true") });
    assert(attr@.options =~= seq![pk_option()]);
    attr.set_dtype(String::from_str("integer"));
    attr
}

/// `k` set to `v` in a list of pairs with distinct keys: the value of an
/// existing key is replaced, a new key is added at the end.
pub open spec fn assoc_insert(
    m: Seq<(Seq<char>, Seq<char>)>,
    k: Seq<char>,
    v: Seq<char>,
) -> Seq<(Seq<char>, Seq<char>)>
    decreases m.len(),
{
    if m.len() == 0 {
        seq![(k, v)]
    } else if m[0].0 == k {
        seq![(k, v)] + m.drop_first()
    } else {
        seq![m[0]] + assoc_insert(m.drop_first(), k, v)
    }
}

/// Sets `k` to `v` in a list of pairs (see [`assoc_insert`]).
fn assoc_insert_exec(m: &mut Vec<(String, String)>, k: String, v: String)
    ensures
        text::pairs_view(final(m)@) == assoc_insert(text::pairs_view(old(m)@), k@, v@),
{
    let ghost mv = text::pairs_view(m@);
    let mut i: usize = 0;
    assert(mv.skip(0) =~= mv);
    assert(mv.take(0) + assoc_insert(mv.skip(0), k@, v@) =~= assoc_insert(mv, k@, v@));
    while i < m.len()
        invariant
            i <= m@.len(),
            mv == text::pairs_view(m@),
            mv == text::pairs_view(old(m)@),
            assoc_insert(mv, k@, v@) == mv.take(i as int) + assoc_insert(mv.skip(i as int), k@, v@),
        decreases m.len() - i,
    {
        assert(mv.skip(i as int)[0] == text::pair_view(m@[i as int]));
        assert(mv.skip(i as int).drop_first() =~= mv.skip(i + 1));
        if m[i].0 == k {
            let ghost before = m@;
            m.set(i, (k, v));
            assert(text::pairs_view(m@) =~= mv.take(i as int) + (seq![(k@, v@)] + mv.skip(i + 1)));
            return;
        }
        assert(mv.take(i + 1) =~= mv.take(i as int).push(mv[i as int]));
        assert(mv.take(i as int) + (seq![mv[i as int]] + assoc_insert(mv.skip(i + 1), k@, v@))
            =~= mv.take(i + 1) + assoc_insert(mv.skip(i + 1), k@, v@));
        i = i + 1;
    }
    assert(mv.skip(i as int) =~= Seq::<(Seq<char>, Seq<char>)>::empty());
    assert(mv.take(i as int) =~= mv);
    let ghost before = m@;
    m.push((k, v));
    assert(text::pairs_view(m@) =~= text::pairs_view(before).push((k@, v@)));
}

/// The index of the first attribute named `id`.
pub open spec fn first_id_index(attrs: Seq<AttributeView>) -> int
    decreases attrs.len(),
{
    if attrs.len() == 0 {
        0
    } else if attrs[0].name == "id"@ {
        0
    } else {
        1 + first_id_index(attrs.drop_first())
    }
}

/// An object made ready for the Go ORM: without primary key and `id`
/// attribute it gets the identifier attribute first; without primary key
/// but with an `id` attribute, its first `id` becomes the primary key.
pub open spec fn id_pk_object(o: ObjectView) -> ObjectView {
    if !spec_has_primary_key(o) && !spec_has_id(o) {
        ObjectView { attributes: seq![id_attribute_view()] + o.attributes, ..o }
    } else if !spec_has_primary_key(o) {
        let k = first_id_index(o.attributes);
        ObjectView {
            attributes: o.attributes.update(
                k,
                AttributeView { options: o.attributes[k].options.push(pk_option()), ..o.attributes[k] },
            ),
            ..o
        }
    } else {
        o
    }
}

/// The fields added to the first `n` objects: `id` for each object that
/// got the identifier attribute, by object name.
pub open spec fn id_artificial(objs: Seq<ObjectView>, n: int) -> Seq<(Seq<char>, Seq<char>)>
    decreases n,
{
    if n <= 0 {
        Seq::empty()
    } else if !spec_has_primary_key(objs[n - 1]) && !spec_has_id(objs[n - 1]) {
        assoc_insert(id_artificial(objs, n - 1), objs[n - 1].name, "id"@)
    } else {
        id_artificial(objs, n - 1)
    }
}

/// The first attribute named `id` is at [`first_id_index`].
proof fn lemma_first_id_index(attrs: Seq<AttributeView>)
    requires
        exists|i: int| 0 <= i < attrs.len() && (#[trigger] attrs[i]).name == "id"@,
    ensures
        0 <= first_id_index(attrs) < attrs.len(),
        attrs[first_id_index(attrs)].name == "id"@,
        forall|j: int| 0 <= j < first_id_index(attrs) ==> (#[trigger] attrs[j]).name != "id"@,
    decreases attrs.len(),
{
    if attrs[0].name != "id"@ {
        let i = choose|i: int| 0 <= i < attrs.len() && (#[trigger] attrs[i]).name == "id"@;
        assert(attrs.drop_first()[i - 1] == attrs[i]);
        lemma_first_id_index(attrs.drop_first());
        assert forall|j: int| 0 <= j < first_id_index(attrs) implies (#[trigger] attrs[j]).name
            != "id"@ by {
            if j > 0 {
                assert(attrs[j] == attrs.drop_first()[j - 1]);
            }
        }
    }
}

/// Makes one object ready for the Go ORM (see [`id_pk_object`]); tells
/// whether the identifier attribute was added.
fn id_pk_object_exec(o: &mut Object) -> (added: bool)
    ensures
        final(o)@ == id_pk_object(old(o)@),
        added == (!spec_has_primary_key(old(o)@) && !spec_has_id(old(o)@)),
{
    let pk = has_primary_key(o);
    let id = has_id(o);
    if !pk && !id {
        let a = id_attribute();
        o.attributes.insert(0, a);
        assert(object::attrs_view(o.attributes@) =~= seq![id_attribute_view()] + object::attrs_view(
            old(o).attributes@,
        ));
        true
    } else if !pk {
        proof {
            let i = choose|i: int| 0 <= i < old(o)@.attributes.len() && (#[trigger] old(o)@.attributes[i]).name == "id"@;
            lemma_first_id_index(old(o)@.attributes);
        }
        let mut k: usize = 0;
        while k < o.attributes.len() && !text::str_eq(o.attributes[k].name.as_str(), "id")
            invariant
                k <= o.attributes@.len(),
                o@ == old(o)@,
                o.attributes@ == old(o).attributes@,
                k <= first_id_index(o@.attributes),
                first_id_index(o@.attributes) < o@.attributes.len(),
                forall|j: int| 0 <= j < first_id_index(o@.attributes) ==> (#[trigger] o@.attributes[j]).name != "id"@,
                o@.attributes[first_id_index(o@.attributes)].name == "id"@,
            decreases o.attributes.len() - k,
        {
            assert(o@.attributes[k as int] == o.attributes@[k as int]@);
            k = k + 1;
        }
        assert(o@.attributes[k as int] == o.attributes@[k as int]@);
        assert(k == first_id_index(o@.attributes));
        let mut a = o.attributes.remove(k);
        let ghost a0 = a;
        a.options.push(AttrOption { key: String::from_str("pk"), value: String::from_str("true") });
        assert(a@.options =~= a0@.options.push(pk_option()));
        o.attributes.insert(k, a);
        assert(object::attrs_view(o.attributes@) =~= object::attrs_view(old(o).attributes@).update(
            k as int,
            AttributeView { options: a0@.options.push(pk_option()), ..a0@ },
        ));
        false
    } else {
        false
    }
}

/// Makes every object ready for the Go ORM (see [`id_pk_object`]) and gives
/// the fields that were added (see [`id_artificial`]).
pub fn add_id_pks(model: &mut DataModel) -> (r: Vec<(String, String)>)
    ensures
        object::objects_view(final(model).objects@) == object::objects_view(
            old(model).objects@,
        ).map_values(|o: ObjectView| id_pk_object(o)),
        text::pairs_view(r@) == id_artificial(
            object::objects_view(old(model).objects@),
            old(model).objects@.len() as int,
        ),
        final(model).name == old(model).name,
        final(model).enums == old(model).enums,
        final(model).config == old(model).config,
{
    let ghost all = object::objects_view(model.objects@);
    let mut rest: Vec<Object> = Vec::new();
    std::mem::swap(&mut rest, &mut model.objects);
    let ghost n = rest@.len();
    let mut done: Vec<Object> = Vec::new();
    let mut artificial: Vec<(String, String)> = Vec::new();
    assert(object::objects_view(rest@) =~= all.skip(0));
    while rest.len() > 0
        invariant
            all.len() == n,
            rest@.len() <= n,
            object::objects_view(rest@) == all.skip(n - rest@.len()),
            object::objects_view(done@) == all.take(n - rest@.len()).map_values(
                |o: ObjectView| id_pk_object(o),
            ),
            text::pairs_view(artificial@) == id_artificial(all, n - rest@.len()),
        decreases rest@.len(),
    {
        let ghost k = n - rest@.len();
        assert(all.skip(k)[0] == all[k]);
        let ghost before_rest = rest@;
        let mut o = rest.remove(0);
        assert(object::objects_view(rest@) =~= all.skip(k + 1)) by {
            assert(all.skip(k).drop_first() =~= all.skip(k + 1));
            assert(object::objects_view(rest@) =~= object::objects_view(before_rest).drop_first());
        }
        assert(o@ == all[k]);
        let name = o.name.clone();
        let added = id_pk_object_exec(&mut o);
        if added {
            assoc_insert_exec(&mut artificial, name, String::from_str("id"));
        }
        let ghost bd = done@;
        done.push(o);
        assert(object::objects_view(done@) =~= object::objects_view(bd).push(o@));
        assert(all.take(k + 1).map_values(|o: ObjectView| id_pk_object(o)) =~= all.take(k).map_values(
            |o: ObjectView| id_pk_object(o),
        ).push(id_pk_object(all[k])));
    }
    assert(all.take(n as int) =~= all);
    model.objects = done;
    artificial
}

/// An attribute has a numeric type: `integer` or `float`.
pub open spec fn spec_contains_numeric_type(a: AttributeView) -> bool {
    exists|k: int|
        0 <= k < a.dtypes.len() && (#[trigger] a.dtypes[k] == "integer"@ || a.dtypes[k] == "float"@)
}

/// Checks if an attribute has a numeric type.
pub fn contains_numeric_type(attribute: &Attribute) -> (r: bool)
    ensures
        r == spec_contains_numeric_type(attribute@),
{
    let mut i: usize = 0;
    while i < attribute.dtypes.len()
        invariant
            i <= attribute.dtypes@.len(),
            forall|k: int|
                0 <= k < i ==> !(#[trigger] attribute@.dtypes[k] == "integer"@
                    || attribute@.dtypes[k] == "float"@),
        decreases attribute.dtypes.len() - i,
    {
        assert(attribute@.dtypes[i as int] == attribute.dtypes@[i as int]@);
        let d = attribute.dtypes[i].as_str();
        if text::str_eq(d, "integer") || text::str_eq(d, "float") {
            return true;
        }
        i = i + 1;
    }
    false
}

/// The text a template shows for the default value of an attribute: a
/// string default in quotes, an integer default as a number where the
/// attribute is numeric and in quotes otherwise, nothing without a default
/// or for a boolean one; `None` for a float default, whose text is the
/// float's display.
pub open spec fn spec_default_value(a: AttributeView) -> Option<Seq<char>> {
    match a.default {
        Some(DataValue::Text(s)) => Some("\""@ + s + "\""@),
        Some(DataValue::Integer(i)) => Some(
            if spec_contains_numeric_type(a) {
                int_text(i as int)
            } else {
                "\""@ + int_text(i as int) + "\""@
            },
        ),
        Some(DataValue::Float(_)) => None,
        _ => Some(Seq::empty()),
    }
}

/// Formats the default value of an attribute (see [`spec_default_value`]).
pub fn default_value(attribute: &Attribute) -> (r: Option<String>)
    ensures
        match r {
            Some(t) => spec_default_value(attribute@) == Some(t@),
            None => spec_default_value(attribute@) is None,
        },
{
    proof {
        reveal_strlit("\"");
    }
    match &attribute.default {
        Some(DataType::String(s)) => {
            let mut r = String::from_str("\"");
            r.append(s.as_str());
            r.append("\"");
            Some(r)
        },
        Some(DataType::Integer(i)) => {
            let t = i64_text(*i);
            if contains_numeric_type(attribute) {
                Some(t)
            } else {
                let mut r = String::from_str("\"");
                r.append(t.as_str());
                r.append("\"");
                Some(r)
            }
        },
        Some(DataType::Float(_)) => None,
        _ => Some(String::new()),
    }
}

/// Some attribute of some object has more than one data type.
pub open spec fn spec_has_union_types(objs: Seq<ObjectView>) -> bool {
    exists|i: int, j: int|
        0 <= i < objs.len() && 0 <= j < objs[i].attributes.len() && (#[trigger] objs[i].attributes[j]).dtypes.len() > 1
}

/// Checks if some attribute of the model has union types.
pub fn has_union_types(model: &DataModel) -> (r: bool)
    ensures
        r == spec_has_union_types(object::objects_view(model.objects@)),
{
    let ghost ov = object::objects_view(model.objects@);
    let mut i: usize = 0;
    while i < model.objects.len()
        invariant
            i <= model.objects@.len(),
            ov == object::objects_view(model.objects@),
            forall|p: int, q: int|
                0 <= p < i && 0 <= q < ov[p].attributes.len() ==> (#[trigger] ov[p].attributes[q]).dtypes.len() <= 1,
        decreases model.objects.len() - i,
    {
        let o = &model.objects[i];
        assert(ov[i as int] == o@);
        let mut j: usize = 0;
        while j < o.attributes.len()
            invariant
                j <= o.attributes@.len(),
                i < model.objects@.len(),
                ov == object::objects_view(model.objects@),
                ov[i as int] == o@,
                forall|q: int| 0 <= q < j ==> (#[trigger] ov[i as int].attributes[q]).dtypes.len() <= 1,
            decreases o.attributes.len() - j,
        {
            assert(ov[i as int].attributes[j as int] == o.attributes@[j as int]@);
            if o.attributes[j].dtypes.len() > 1 {
                assert(ov[i as int].attributes[j as int].dtypes.len() > 1);
                return true;
            }
            j = j + 1;
        }
        i = i + 1;
    }
    false
}

/// The prefixes of the model's front matter, or none.
pub fn get_prefixes(model: &DataModel) -> (r: Vec<(String, String)>)
    ensures
        text::pairs_view(r@) == match model.config {
            Some(c) => match c.prefixes {
                Some(p) => text::pairs_view(p@),
                None => Seq::empty(),
            },
            None => Seq::empty(),
        },
{
    match &model.config {
        Some(c) => match &c.prefixes {
            Some(p) => text::clone_pairs(p),
            None => {
                let r: Vec<(String, String)> = Vec::new();
                assert(text::pairs_view(r@) =~= Seq::<(Seq<char>, Seq<char>)>::empty());
                r
            },
        },
        None => {
            let r: Vec<(String, String)> = Vec::new();
            assert(text::pairs_view(r@) =~= Seq::<(Seq<char>, Seq<char>)>::empty());
            r
        },
    }
}

/// An option marks the primary key: key `pk`, value `true`.
pub open spec fn is_pk_option(o: (Seq<char>, Seq<char>)) -> bool {
    o.0 == "pk"@ && o.1 == "true"@
}

/// The primary-key attribute found among the first `n` attributes: the last
/// one with a primary-key option, with its first data type.
pub open spec fn pk_in(attrs: Seq<AttributeView>, n: int) -> Option<(Seq<char>, Seq<char>)>
    decreases n,
{
    if n <= 0 {
        None
    } else if exists|k: int|
        0 <= k < attrs[n - 1].options.len() && is_pk_option(#[trigger] attrs[n - 1].options[k]) {
        Some((attrs[n - 1].name, attrs[n - 1].dtypes[0]))
    } else {
        pk_in(attrs, n - 1)
    }
}

/// Among the first `n` attributes, every one with a primary-key option has
/// a data type.
pub open spec fn pk_typed(attrs: Seq<AttributeView>, n: int) -> bool {
    forall|i: int|
        0 <= i < n && (exists|k: int|
            0 <= k < attrs[i].options.len() && is_pk_option(#[trigger] attrs[i].options[k]))
            ==> #[trigger] attrs[i].dtypes.len() > 0
}

/// The primary keys of the first `n` objects, by object name: the
/// attribute and its type (see [`pk_in`]); a later object of the same name
/// replaces an earlier one.
pub open spec fn pk_entries(objs: Seq<ObjectView>, n: int) -> Seq<(Seq<char>, (Seq<char>, Seq<char>))>
    decreases n,
{
    if n <= 0 {
        Seq::empty()
    } else {
        match pk_in(objs[n - 1].attributes, objs[n - 1].attributes.len() as int) {
            Some(p) => assoc_put(pk_entries(objs, n - 1), objs[n - 1].name, p),
            None => pk_entries(objs, n - 1),
        }
    }
}

/// `k` set to `v` in a list with distinct keys.
pub open spec fn assoc_put(
    m: Seq<(Seq<char>, (Seq<char>, Seq<char>))>,
    k: Seq<char>,
    v: (Seq<char>, Seq<char>),
) -> Seq<(Seq<char>, (Seq<char>, Seq<char>))>
    decreases m.len(),
{
    if m.len() == 0 {
        seq![(k, v)]
    } else if m[0].0 == k {
        seq![(k, v)] + m.drop_first()
    } else {
        seq![m[0]] + assoc_put(m.drop_first(), k, v)
    }
}

/// The view of the primary keys.
pub open spec fn pk_view(v: Seq<(String, (String, String, bool))>) -> Seq<
    (Seq<char>, (Seq<char>, Seq<char>)),
> {
    v.map_values(|e: (String, (String, String, bool))| (e.0@, (e.1.0@, e.1.1@)))
}

/// Whether an attribute has a primary-key option.
fn has_pk_option(a: &Attribute) -> (r: bool)
    ensures
        r == exists|k: int| 0 <= k < a@.options.len() && is_pk_option(#[trigger] a@.options[k]),
{
    let mut k: usize = 0;
    while k < a.options.len()
        invariant
            k <= a.options@.len(),
            forall|q: int| 0 <= q < k ==> !is_pk_option(#[trigger] a@.options[q]),
        decreases a.options.len() - k,
    {
        assert(a@.options[k as int] == a.options@[k as int]@);
        if text::str_eq(a.options[k].key.as_str(), "pk") && text::str_eq(
            a.options[k].value.as_str(),
            "true",
        ) {
            return true;
        }
        k = k + 1;
    }
    false
}

/// The primary keys of the objects (see [`pk_entries`]); `None` where a
/// primary-key attribute has no data type.
pub fn pk_objects(model: &DataModel) -> (r: Option<Vec<(String, (String, String, bool))>>)
    ensures
        match r {
            Some(v) => (forall|i: int|
                0 <= i < model.objects@.len() ==> pk_typed(
                    #[trigger] object::objects_view(model.objects@)[i].attributes,
                    object::objects_view(model.objects@)[i].attributes.len() as int,
                )) && pk_view(v@) == pk_entries(
                object::objects_view(model.objects@),
                model.objects@.len() as int,
            ) && forall|i: int| 0 <= i < v@.len() ==> (#[trigger] v@[i]).1.2,
            None => exists|i: int|
                0 <= i < model.objects@.len() && !pk_typed(
                    #[trigger] object::objects_view(model.objects@)[i].attributes,
                    object::objects_view(model.objects@)[i].attributes.len() as int,
                ),
        },
{
    let ghost ov = object::objects_view(model.objects@);
    let mut entries: Vec<(String, (String, String, bool))> = Vec::new();
    let mut i: usize = 0;
    while i < model.objects.len()
        invariant
            i <= model.objects@.len(),
            ov == object::objects_view(model.objects@),
            forall|p: int| 0 <= p < i ==> pk_typed(#[trigger] ov[p].attributes, ov[p].attributes.len() as int),
            pk_view(entries@) == pk_entries(ov, i as int),
            forall|q: int| 0 <= q < entries@.len() ==> (#[trigger] entries@[q]).1.2,
        decreases model.objects.len() - i,
    {
        let o = &model.objects[i];
        assert(ov[i as int] == o@);
        let ghost av = o@.attributes;
        let mut found: Option<(String, String)> = None;
        let mut j: usize = 0;
        while j < o.attributes.len()
            invariant
                j <= o.attributes@.len(),
                i < model.objects@.len(),
                ov == object::objects_view(model.objects@),
                ov[i as int] == o@,
                av == o@.attributes,
                pk_typed(av, j as int),
                match found {
                    Some(p) => pk_in(av, j as int) == Some((p.0@, p.1@)),
                    None => pk_in(av, j as int) is None,
                },
            decreases o.attributes.len() - j,
        {
            let a = &o.attributes[j];
            assert(av[j as int] == a@);
            if has_pk_option(a) {
                if a.dtypes.len() == 0 {
                    assert(av[j as int].dtypes.len() == 0);
                    assert(!pk_typed(av, av.len() as int));
                    return None;
                }
                assert(a@.dtypes[0] == a.dtypes@[0]@);
                found = Some((a.name.clone(), a.dtypes[0].clone()));
            }
            j = j + 1;
        }
        match found {
            Some(p) => {
                let ghost pv = (p.0@, p.1@);
                let ghost mv = pk_view(entries@);
                let key = o.name.clone();
                let mut q: usize = 0;
                assert(mv.skip(0) =~= mv);
                assert(mv.take(0) + assoc_put(mv.skip(0), key@, pv) =~= assoc_put(mv, key@, pv));
                while q < entries.len() && !(entries[q].0 == key)
                    invariant
                        q <= entries@.len(),
                        mv == pk_view(entries@),
                        forall|x: int| 0 <= x < entries@.len() ==> (#[trigger] entries@[x]).1.2,
                        assoc_put(mv, key@, pv) == mv.take(q as int) + assoc_put(
                            mv.skip(q as int),
                            key@,
                            pv,
                        ),
                    decreases entries.len() - q,
                {
                    assert(mv.skip(q as int)[0] == (entries@[q as int].0@, (
                        entries@[q as int].1.0@,
                        entries@[q as int].1.1@,
                    )));
                    assert(mv.skip(q as int).drop_first() =~= mv.skip(q + 1));
                    assert(mv.take(q + 1) =~= mv.take(q as int).push(mv[q as int]));
                    assert(mv.take(q as int) + (seq![mv[q as int]] + assoc_put(
                        mv.skip(q + 1),
                        key@,
                        pv,
                    )) =~= mv.take(q + 1) + assoc_put(mv.skip(q + 1), key@, pv));
                    q = q + 1;
                }
                let entry = (key, (p.0, p.1, true));
                if q < entries.len() {
                    assert(mv.skip(q as int)[0] == (entries@[q as int].0@, (
                        entries@[q as int].1.0@,
                        entries@[q as int].1.1@,
                    )));
                    assert(mv.skip(q as int).drop_first() =~= mv.skip(q + 1));
                    entries.set(q, entry);
                    assert(pk_view(entries@) =~= mv.take(q as int) + (seq![(key@, pv)] + mv.skip(
                        q + 1,
                    )));
                } else {
                    assert(mv.skip(q as int) =~= Seq::<(Seq<char>, (Seq<char>, Seq<char>))>::empty());
                    assert(mv.take(q as int) =~= mv);
                    entries.push(entry);
                    assert(pk_view(entries@) =~= mv.push((key@, pv)));
                }
            },
            None => {},
        }
        i = i + 1;
    }
    Some(entries)
}

/// The configuration sets the key `k`.
pub open spec fn config_has(config: Option<Vec<(String, String)>>, k: Seq<char>) -> bool {
    match config {
        Some(c) => crate::pipeline::has_key(c@, k),
        None => false,
    }
}

/// Whether the configuration sets the key `k`.
fn config_contains(config: &Option<Vec<(String, String)>>, k: &str) -> (r: bool)
    ensures
        r == config_has(*config, k@),
{
    match config {
        Some(c) => crate::pipeline::contains_key(c, k),
        None => false,
    }
}

/// The objects with their types mapped and their attributes sorted by
/// requirement, for the Python templates.
pub open spec fn python_objects(objs: Seq<ObjectView>) -> Seq<ObjectView> {
    convert_objects(objs, type_table(TypeMap::Python)).map_values(
        |o: ObjectView|
            ObjectView { attributes: object::spec_sort_by_required(o.attributes), ..o },
    )
}

/// What preparing a model for a template does to its objects and
/// enumerations, and what it reports: the fields it added and a warning.
pub open spec fn prepared(
    template: Templates,
    objs: Seq<ObjectView>,
    enums: Seq<EnumView>,
    astropy: bool,
    gorm: bool,
) -> (Seq<ObjectView>, Seq<EnumView>, Seq<(Seq<char>, Seq<char>)>, Option<Seq<char>>) {
    match template {
        Templates::XmlSchema => (convert_objects(objs, type_table(TypeMap::Xsd)), enums, Seq::empty(), None),
        Templates::Typescript => (
            convert_objects(objs, type_table(TypeMap::Typescript)),
            enums,
            Seq::empty(),
            None,
        ),
        Templates::Graphql => (convert_objects(objs, type_table(TypeMap::Graphql)), enums, Seq::empty(), None),
        Templates::Shacl | Templates::Shex => {
            let kept = convert_objects(objs, type_table(TypeMap::Shacl)).filter(
                |o: ObjectView| has_terms(o),
            );
            (kept, enums, Seq::empty(), if kept.len() == 0 {
                Some(no_terms_message())
            } else {
                None
            })
        },
        Templates::PythonDataclass | Templates::PythonPydanticXML | Templates::PythonPydantic => {
            if astropy {
                (python_objects(astropy_objects(objs)), astropy_enums(enums), Seq::empty(), None)
            } else {
                (python_objects(objs), enums, Seq::empty(), None)
            }
        },
        Templates::Golang => if gorm {
            (
                objs.map_values(|o: ObjectView| id_pk_object(o)),
                enums,
                id_artificial(objs, objs.len() as int),
                None,
            )
        } else {
            (objs, enums, Seq::empty(), None)
        },
        Templates::Rust => (
            objs,
            enums.map_values(
                |e: EnumView|
                    EnumView { mappings: rust_mappings(e.mappings, e.mappings.len() as int), ..e },
            ),
            Seq::empty(),
            None,
        ),
        _ => (objs, enums, Seq::empty(), None),
    }
}

/// The TypeScript name of a data type: `integer` and `float` are numbers,
/// `date` and `bytes` are strings, and any other type keeps its name.
pub open spec fn typescript_type(t: Seq<char>) -> Seq<char> {
    if t == "integer"@ || t == "float"@ {
        "number"@
    } else if t == "date"@ || t == "bytes"@ {
        "string"@
    } else {
        t
    }
}

/// The TypeScript table maps each type to its TypeScript name.
proof fn lemma_typescript_lookup(t: Seq<char>)
    ensures
        lookup_type(type_table(TypeMap::Typescript), t) == typescript_type(t),
{
    reveal_strlit("integer");
    reveal_strlit("float");
    reveal_strlit("date");
    reveal_strlit("bytes");
    let tb = type_table(TypeMap::Typescript);
    assert(tb.drop_first() =~= seq![("float"@, "number"@), ("date"@, "string"@), ("bytes"@, "string"@)]);
    assert(tb.drop_first().drop_first() =~= seq![("date"@, "string"@), ("bytes"@, "string"@)]);
    assert(tb.drop_first().drop_first().drop_first() =~= seq![("bytes"@, "string"@)]);
    assert(tb.drop_first().drop_first().drop_first().drop_first() =~= Seq::<(Seq<char>, Seq<char>)>::empty());
    assert("integer"@.len() == 7);
    assert("float"@.len() == 5);
    assert("date"@.len() == 4);
    assert("bytes"@.len() == 5);
    assert("float"@[0] == 'f');
    assert("bytes"@[0] == 'b');
    assert("integer"@ != "float"@);
    assert("integer"@ != "date"@);
    assert("integer"@ != "bytes"@);
    assert("float"@ != "date"@);
    assert("float"@ != "bytes"@);
    assert("date"@ != "bytes"@);
    let t1 = tb.drop_first();
    let t2 = t1.drop_first();
    let t3 = t2.drop_first();
    let t4 = t3.drop_first();
    assert(object::spec_map_get(t4, t) is None);
    assert(object::spec_map_get(t3, t) == (if t == "bytes"@ { Some("string"@) } else { None }));
    assert(object::spec_map_get(t2, t) == (if t == "date"@ || t == "bytes"@ { Some("string"@) } else { None }));
    assert(object::spec_map_get(t1, t) == (if t == "float"@ {
        Some("number"@)
    } else if t == "date"@ || t == "bytes"@ {
        Some("string"@)
    } else {
        None
    }));
    assert(object::spec_map_get(tb, t) == (if t == "integer"@ || t == "float"@ {
        Some("number"@)
    } else if t == "date"@ || t == "bytes"@ {
        Some("string"@)
    } else {
        None
    }));
}

/// Preparing a model for the TypeScript template keeps its objects and
/// their attributes, names and enumerations as they are, and gives every
/// data type its TypeScript name: `integer` and `float` become `number`,
/// `date` and `bytes` become `string`, every other type is unchanged.
pub proof fn law_typescript_types(objs: Seq<ObjectView>, enums: Seq<EnumView>, astropy: bool, gorm: bool)
    ensures
        ({
            let p = prepared(Templates::Typescript, objs, enums, astropy, gorm);
            &&& p.0.len() == objs.len()
            &&& p.1 == enums
            &&& forall|k: int|
                0 <= k < objs.len() ==> (#[trigger] p.0[k]).name == objs[k].name && p.0[k].attributes.len()
                    == objs[k].attributes.len()
            &&& forall|k: int, i: int|
                0 <= k < objs.len() && 0 <= i < objs[k].attributes.len() ==> (#[trigger] p.0[k].attributes[i]).name
                    == objs[k].attributes[i].name && p.0[k].attributes[i].dtypes.len()
                    == objs[k].attributes[i].dtypes.len()
            &&& forall|k: int, i: int, d: int|
                0 <= k < objs.len() && 0 <= i < objs[k].attributes.len() && 0 <= d
                    < objs[k].attributes[i].dtypes.len() ==> #[trigger] p.0[k].attributes[i].dtypes[d]
                    == typescript_type(objs[k].attributes[i].dtypes[d])
        }),
{
    let p = prepared(Templates::Typescript, objs, enums, astropy, gorm);
    assert forall|k: int, i: int, d: int|
        0 <= k < objs.len() && 0 <= i < objs[k].attributes.len() && 0 <= d < objs[k].attributes[i].dtypes.len()
        implies #[trigger] p.0[k].attributes[i].dtypes[d] == typescript_type(objs[k].attributes[i].dtypes[d]) by {
        lemma_typescript_lookup(objs[k].attributes[i].dtypes[d]);
    }
}

/// The GraphQL name of a data type: `integer` is `Int`, `number` and
/// `float` are `Float`, `boolean` is `Boolean`, `string`, `bytes` and
/// `date` are `String`, and any other type keeps its name.
pub open spec fn graphql_type(t: Seq<char>) -> Seq<char> {
    if t == "integer"@ {
        "Int"@
    } else if t == "number"@ || t == "float"@ {
        "Float"@
    } else if t == "boolean"@ {
        "Boolean"@
    } else if t == "string"@ || t == "bytes"@ || t == "date"@ {
        "String"@
    } else {
        t
    }
}

/// The XML Schema name of a data type: `str` is `string`, `bytes` is
/// `base64Binary`, and any other type keeps its name.
pub open spec fn xsd_type(t: Seq<char>) -> Seq<char> {
    if t == "str"@ {
        "string"@
    } else if t == "bytes"@ {
        "base64Binary"@
    } else {
        t
    }
}

/// The GraphQL table maps each type to its GraphQL name.
proof fn lemma_graphql_lookup(t: Seq<char>)
    ensures
        lookup_type(type_table(TypeMap::Graphql), t) == graphql_type(t),
{
    reveal_strlit("integer");
    reveal_strlit("number");
    reveal_strlit("float");
    reveal_strlit("boolean");
    reveal_strlit("string");
    reveal_strlit("bytes");
    reveal_strlit("date");
    assert("integer"@.len() == 7 && "number"@.len() == 6 && "float"@.len() == 5 && "boolean"@.len() == 7);
    assert("string"@.len() == 6 && "bytes"@.len() == 5 && "date"@.len() == 4);
    assert("integer"@[0] == 'i' && "boolean"@[0] == 'b' && "number"@[0] == 'n' && "string"@[0] == 's');
    assert("float"@[0] == 'f' && "bytes"@[0] == 'b' && "boolean"@[1] == 'o' && "bytes"@[1] == 'y');
    assert("integer"@ != "boolean"@);
    assert("number"@ != "string"@);
    assert("float"@ != "bytes"@);
    let t0 = type_table(TypeMap::Graphql);
    let t1 = t0.drop_first();
    let t2 = t1.drop_first();
    let t3 = t2.drop_first();
    let t4 = t3.drop_first();
    let t5 = t4.drop_first();
    let t6 = t5.drop_first();
    let t7 = t6.drop_first();
    assert(t7.len() == 0);
    assert(object::spec_map_get(t7, t) is None);
    assert(t6[0] == ("date"@, "String"@));
    assert(t5[0] == ("bytes"@, "String"@));
    assert(t4[0] == ("string"@, "String"@));
    assert(t3[0] == ("boolean"@, "Boolean"@));
    assert(t2[0] == ("float"@, "Float"@));
    assert(t1[0] == ("number"@, "Float"@));
    assert(t0[0] == ("integer"@, "Int"@));
    assert(object::spec_map_get(t6, t) == (if t == "date"@ { Some("String"@) } else { None }));
    assert(object::spec_map_get(t5, t) == (if t == "bytes"@ || t == "date"@ { Some("String"@) } else { None }));
    assert(object::spec_map_get(t4, t) == (if t == "string"@ || t == "bytes"@ || t == "date"@ {
        Some("String"@)
    } else {
        None
    }));
    assert(object::spec_map_get(t3, t) == (if t == "boolean"@ {
        Some("Boolean"@)
    } else if t == "string"@ || t == "bytes"@ || t == "date"@ {
        Some("String"@)
    } else {
        None
    }));
    assert(object::spec_map_get(t2, t) == (if t == "float"@ {
        Some("Float"@)
    } else if t == "boolean"@ {
        Some("Boolean"@)
    } else if t == "string"@ || t == "bytes"@ || t == "date"@ {
        Some("String"@)
    } else {
        None
    }));
    assert(object::spec_map_get(t1, t) == (if t == "number"@ || t == "float"@ {
        Some("Float"@)
    } else if t == "boolean"@ {
        Some("Boolean"@)
    } else if t == "string"@ || t == "bytes"@ || t == "date"@ {
        Some("String"@)
    } else {
        None
    }));
}

/// The XML Schema table maps each type to its XML Schema name.
proof fn lemma_xsd_lookup(t: Seq<char>)
    ensures
        lookup_type(type_table(TypeMap::Xsd), t) == xsd_type(t),
{
    reveal_strlit("str");
    reveal_strlit("bytes");
    assert("str"@.len() == 3 && "bytes"@.len() == 5);
    let t0 = type_table(TypeMap::Xsd);
    let t1 = t0.drop_first();
    let t2 = t1.drop_first();
    assert(t2.len() == 0);
    assert(object::spec_map_get(t2, t) is None);
    assert(t1[0] == ("bytes"@, "base64Binary"@));
    assert(object::spec_map_get(t1, t) == (if t == "bytes"@ { Some("base64Binary"@) } else { None }));
}

/// Preparing a model for the GraphQL template keeps its objects, their
/// attributes and names, and its enumerations, and gives every data type
/// its GraphQL name (see [`graphql_type`]).
pub proof fn law_graphql_types(objs: Seq<ObjectView>, enums: Seq<EnumView>, astropy: bool, gorm: bool)
    ensures
        ({
            let p = prepared(Templates::Graphql, objs, enums, astropy, gorm);
            &&& p.0.len() == objs.len()
            &&& p.1 == enums
            &&& forall|k: int|
                0 <= k < objs.len() ==> (#[trigger] p.0[k]).name == objs[k].name && p.0[k].attributes.len()
                    == objs[k].attributes.len()
            &&& forall|k: int, i: int|
                0 <= k < objs.len() && 0 <= i < objs[k].attributes.len() ==> (#[trigger] p.0[k].attributes[i]).name
                    == objs[k].attributes[i].name && p.0[k].attributes[i].dtypes.len()
                    == objs[k].attributes[i].dtypes.len()
            &&& forall|k: int, i: int, d: int|
                0 <= k < objs.len() && 0 <= i < objs[k].attributes.len() && 0 <= d
                    < objs[k].attributes[i].dtypes.len() ==> #[trigger] p.0[k].attributes[i].dtypes[d]
                    == graphql_type(objs[k].attributes[i].dtypes[d])
        }),
{
    let p = prepared(Templates::Graphql, objs, enums, astropy, gorm);
    assert forall|k: int, i: int, d: int|
        0 <= k < objs.len() && 0 <= i < objs[k].attributes.len() && 0 <= d < objs[k].attributes[i].dtypes.len()
        implies #[trigger] p.0[k].attributes[i].dtypes[d] == graphql_type(objs[k].attributes[i].dtypes[d]) by {
        lemma_graphql_lookup(objs[k].attributes[i].dtypes[d]);
    }
}

/// Preparing a model for the XML Schema template keeps its objects, their
/// attributes and names, and its enumerations, and gives every data type
/// its XML Schema name (see [`xsd_type`]).
pub proof fn law_xsd_types(objs: Seq<ObjectView>, enums: Seq<EnumView>, astropy: bool, gorm: bool)
    ensures
        ({
            let p = prepared(Templates::XmlSchema, objs, enums, astropy, gorm);
            &&& p.0.len() == objs.len()
            &&& p.1 == enums
            &&& forall|k: int|
                0 <= k < objs.len() ==> (#[trigger] p.0[k]).name == objs[k].name && p.0[k].attributes.len()
                    == objs[k].attributes.len()
            &&& forall|k: int, i: int|
                0 <= k < objs.len() && 0 <= i < objs[k].attributes.len() ==> (#[trigger] p.0[k].attributes[i]).name
                    == objs[k].attributes[i].name && p.0[k].attributes[i].dtypes.len()
                    == objs[k].attributes[i].dtypes.len()
            &&& forall|k: int, i: int, d: int|
                0 <= k < objs.len() && 0 <= i < objs[k].attributes.len() && 0 <= d
                    < objs[k].attributes[i].dtypes.len() ==> #[trigger] p.0[k].attributes[i].dtypes[d]
                    == xsd_type(objs[k].attributes[i].dtypes[d])
        }),
{
    let p = prepared(Templates::XmlSchema, objs, enums, astropy, gorm);
    assert forall|k: int, i: int, d: int|
        0 <= k < objs.len() && 0 <= i < objs[k].attributes.len() && 0 <= d < objs[k].attributes[i].dtypes.len()
        implies #[trigger] p.0[k].attributes[i].dtypes[d] == xsd_type(objs[k].attributes[i].dtypes[d]) by {
        lemma_xsd_lookup(objs[k].attributes[i].dtypes[d]);
    }
}

/// Prepares a model for rendering through a template (see [`prepared`]):
/// types are mapped to the template's language, objects without terms are
/// dropped for SHACL and ShEx, Python gets astropy types where the
/// configuration sets `astropy` and attributes sorted by requirement, Go
/// gets primary keys where it sets `gorm`, Rust gets enumeration keys it
/// accepts, and Julia gets its objects in dependency order: each after the
/// objects it uses, where names are distinct and no object reaches itself
/// through the objects it uses. Gives the fields added and a warning to show.
pub fn prepare_for_template(
    template: Templates,
    model: &mut DataModel,
    config: &Option<Vec<(String, String)>>,
) -> (r: (Vec<(String, String)>, Option<String>))
    requires
        template is Julia ==> tree::graph_fits(*old(model)),
    ensures
        template is Julia ==> {
            &&& exists|ord: Seq<Seq<char>>|
                name_order(ord, object::objects_view(old(model).objects@)) && #[trigger] object::objects_view(
                    final(model).objects@,
                ) == grouped_by_names(object::objects_view(old(model).objects@), ord)
            &&& tree::plain_model(object::objects_view(old(model).objects@)) ==> users_after_used(
                object::objects_view(final(model).objects@),
                tree::names_of(object::objects_view(old(model).objects@)),
            )
            &&& final(model).enums == old(model).enums
            &&& r.0@.len() == 0
            &&& r.1 is None
        },
        !(template is Julia) ==> ({
            let p = prepared(
                template,
                object::objects_view(old(model).objects@),
                enums_view(old(model).enums@),
                config_has(*config, "astropy"@),
                config_has(*config, "gorm"@),
            );
            &&& object::objects_view(final(model).objects@) == p.0
            &&& enums_view(final(model).enums@) == p.1
            &&& text::pairs_view(r.0@) == p.2
            &&& text::opt_string_view(r.1) == p.3
        }),
        template is Typescript ==> {
            &&& final(model).objects@.len() == old(model).objects@.len()
            &&& forall|k: int, i: int, d: int|
                0 <= k < old(model).objects@.len() && 0 <= i < old(model).objects@[k]@.attributes.len() && 0 <= d
                    < old(model).objects@[k]@.attributes[i].dtypes.len() ==> #[trigger] final(model).objects@[k]@.attributes[i].dtypes[d] == typescript_type(
                    old(model).objects@[k]@.attributes[i].dtypes[d],
                )
        },
        final(model).name == old(model).name,
        final(model).config == old(model).config,
{
    let ghost ov = object::objects_view(model.objects@);
    let ghost ev = enums_view(model.enums@);
    proof {
        law_typescript_types(ov, ev, config_has(*config, "astropy"@), config_has(*config, "gorm"@));
    }
    let none: Vec<(String, String)> = Vec::new();
    assert(text::pairs_view(none@) =~= Seq::<(Seq<char>, Seq<char>)>::empty());
    match template {
        Templates::XmlSchema => {
            convert_model_types(model, &type_table_exec(TypeMap::Xsd));
            (none, None)
        },
        Templates::Typescript => {
            convert_model_types(model, &type_table_exec(TypeMap::Typescript));
            proof {
                let fv = object::objects_view(model.objects@);
                assert(fv.len() == ov.len());
                assert forall|k: int, i: int, d: int|
                    0 <= k < ov.len() && 0 <= i < ov[k].attributes.len() && 0 <= d < ov[k].attributes[i].dtypes.len()
                    implies #[trigger] model.objects@[k]@.attributes[i].dtypes[d] == typescript_type(
                    ov[k].attributes[i].dtypes[d],
                ) by {
                    assert(fv[k] == model.objects@[k]@);
                    assert(fv[k].attributes[i].dtypes[d] == typescript_type(ov[k].attributes[i].dtypes[d]));
                }
            }
            (none, None)
        },
        Templates::Graphql => {
            convert_model_types(model, &type_table_exec(TypeMap::Graphql));
            (none, None)
        },
        Templates::Shacl | Templates::Shex => {
            convert_model_types(model, &type_table_exec(TypeMap::Shacl));
            match filter_objects_wo_terms(model) {
                Ok(()) => (none, None),
                Err(e) => (none, Some(e)),
            }
        },
        Templates::PythonDataclass | Templates::PythonPydanticXML | Templates::PythonPydantic => {
            if config_contains(config, "astropy") {
                convert_astropy_types(model);
            }
            let ghost mid = object::objects_view(model.objects@);
            convert_model_types(model, &type_table_exec(TypeMap::Python));
            let ghost conv = object::objects_view(model.objects@);
            model.sort_attrs();
            assert(object::objects_view(model.objects@) =~= conv.map_values(
                |o: ObjectView|
                    ObjectView { attributes: object::spec_sort_by_required(o.attributes), ..o },
            )) by {
                assert forall|i: int| 0 <= i < conv.len() implies #[trigger] object::objects_view(
                    model.objects@,
                )[i] == (ObjectView {
                    attributes: object::spec_sort_by_required(conv[i].attributes),
                    ..conv[i]
                }) by {
                    assert(object::objects_view(model.objects@)[i] == model.objects@[i]@);
                }
            }
            (none, None)
        },
        Templates::Golang => {
            if config_contains(config, "gorm") {
                let added = add_id_pks(model);
                (added, None)
            } else {
                (none, None)
            }
        },
        Templates::Julia => {
            sort_by_dependency(model);
            (none, None)
        },
        Templates::Rust => {
            check_for_forbidden_rust_enum_variants(model);
            assert(enums_view(model.enums@) =~= ev.map_values(
                |e: EnumView|
                    EnumView { mappings: rust_mappings(e.mappings, e.mappings.len() as int), ..e },
            ));
            (none, None)
        },
        _ => (none, None),
    }
}

// ---------------------------------------------------------------------------
// Objects in dependency order
// ---------------------------------------------------------------------------

/// The objects grouped by name: a group for each name of `names`, in that
/// order, each holding the objects with that name in their order.
pub open spec fn grouped_by_names(objs: Seq<ObjectView>, names: Seq<Seq<char>>) -> Seq<ObjectView>
    decreases names.len(),
{
    if names.len() == 0 {
        Seq::empty()
    } else {
        grouped_by_names(objs, names.drop_last()) + objs.filter(|o: ObjectView| o.name == names.last())
    }
}

/// An order of the objects' names: each name of an object once, and no
/// other.
pub open spec fn name_order(ord: Seq<Seq<char>>, objs: Seq<ObjectView>) -> bool {
    &&& ord.no_duplicates()
    &&& forall|x: Seq<char>| #[trigger] ord.contains(x) <==> tree::names_of(objs).contains(x)
}

/// `o` is the last object named `x`.
pub open spec fn named_object(objs: Seq<ObjectView>, x: Seq<char>, o: ObjectView) -> bool {
    match tree::last_named(objs, x) {
        Some(p) => 0 <= p < objs.len() && o == objs[p] && objs[p].name == x,
        None => false,
    }
}

/// No object has the name: the group is empty.
proof fn lemma_group_empty(objs: Seq<ObjectView>, x: Seq<char>)
    requires
        forall|k: int| 0 <= k < objs.len() ==> (#[trigger] objs[k]).name != x,
    ensures
        objs.filter(|o: ObjectView| o.name == x) == Seq::<ObjectView>::empty(),
    decreases objs.len(),
{
    reveal(Seq::filter);
    if objs.len() > 0 {
        assert forall|k: int| 0 <= k < objs.drop_last().len() implies (#[trigger] objs.drop_last()[k]).name != x by {
            assert(objs.drop_last()[k] == objs[k]);
        }
        lemma_group_empty(objs.drop_last(), x);
        assert(objs.last() == objs[objs.len() - 1]);
    } else {
        assert(objs.filter(|o: ObjectView| o.name == x) =~= Seq::<ObjectView>::empty());
    }
}

/// Exactly one object, at `p`, has the name: the group is that object.
proof fn lemma_group_single(objs: Seq<ObjectView>, x: Seq<char>, p: int)
    requires
        0 <= p < objs.len(),
        objs[p].name == x,
        forall|k: int| 0 <= k < objs.len() && k != p ==> (#[trigger] objs[k]).name != x,
    ensures
        objs.filter(|o: ObjectView| o.name == x) == seq![objs[p]],
    decreases objs.len(),
{
    reveal(Seq::filter);
    let q = objs.drop_last();
    if p == objs.len() - 1 {
        assert forall|k: int| 0 <= k < q.len() implies (#[trigger] q[k]).name != x by {
            assert(q[k] == objs[k]);
        }
        lemma_group_empty(q, x);
        assert(objs.last() == objs[p]);
        assert(Seq::<ObjectView>::empty().push(objs[p]) =~= seq![objs[p]]);
    } else {
        assert forall|k: int| 0 <= k < q.len() && k != p implies (#[trigger] q[k]).name != x by {
            assert(q[k] == objs[k]);
        }
        assert(q[p] == objs[p]);
        lemma_group_single(q, x, p);
        assert(objs.last() == objs[objs.len() - 1]);
    }
}

/// With distinct object names and names each that of an object, the
/// groups are the objects named in turn.
proof fn lemma_grouped_distinct(objs: Seq<ObjectView>, names: Seq<Seq<char>>)
    requires
        tree::names_of(objs).no_duplicates(),
        forall|i: int| 0 <= i < names.len() ==> tree::names_of(objs).contains(#[trigger] names[i]),
    ensures
        grouped_by_names(objs, names).len() == names.len(),
        forall|i: int| 0 <= i < names.len() ==> named_object(objs, names[i], #[trigger] grouped_by_names(objs, names)[i]),
    decreases names.len(),
{
    if names.len() > 0 {
        let q = names.drop_last();
        assert forall|i: int| 0 <= i < q.len() implies tree::names_of(objs).contains(#[trigger] q[i]) by {
            assert(q[i] == names[i]);
        }
        lemma_grouped_distinct(objs, q);
        let x = names.last();
        assert(tree::names_of(objs).contains(names[names.len() - 1]));
        tree::lemma_last_named(objs, x);
        if tree::last_named(objs, x) is None {
            let y = choose|y: int| 0 <= y < tree::names_of(objs).len() && tree::names_of(objs)[y] == x;
            assert(objs[y].name == x);
        }
        let p = tree::last_named(objs, x)->Some_0;
        assert forall|k: int| 0 <= k < objs.len() && k != p implies (#[trigger] objs[k]).name != x by {
            assert(tree::names_of(objs)[k] == objs[k].name);
            assert(tree::names_of(objs)[p] == objs[p].name);
        }
        lemma_group_single(objs, x, p);
        let gq = grouped_by_names(objs, q);
        assert(grouped_by_names(objs, names) == gq + seq![objs[p]]);
        assert forall|i: int| 0 <= i < names.len() implies named_object(objs, names[i], #[trigger] grouped_by_names(objs, names)[i]) by {
            if i < q.len() {
                assert(q[i] == names[i]);
                assert(named_object(objs, q[i], gq[i]));
            }
        }
    }
}

/// Groups the objects by name, in the order of `names` (see
/// [`grouped_by_names`]).
fn group_by_names(objects: &Vec<Object>, names: &Vec<String>) -> (r: Vec<Object>)
    ensures
        object::objects_view(r@) == grouped_by_names(object::objects_view(objects@), text::strings_view(names@)),
{
    let ghost objs = object::objects_view(objects@);
    let ghost nv = text::strings_view(names@);
    let mut r: Vec<Object> = Vec::new();
    let mut i: usize = 0;
    assert(object::objects_view(r@) =~= grouped_by_names(objs, nv.take(0)));
    while i < names.len()
        invariant
            i <= names@.len(),
            objs == object::objects_view(objects@),
            nv == text::strings_view(names@),
            object::objects_view(r@) == grouped_by_names(objs, nv.take(i as int)),
        decreases names.len() - i,
    {
        let ghost before = object::objects_view(r@);
        let ghost name = nv[i as int];
        let mut j: usize = 0;
        proof {
            reveal(Seq::filter);
        }
        assert(objs.take(0).filter(|o: ObjectView| o.name == name) =~= Seq::<ObjectView>::empty());
        assert(object::objects_view(r@) =~= before + objs.take(0).filter(|o: ObjectView| o.name == name));
        while j < objects.len()
            invariant
                i < names@.len(),
                j <= objects@.len(),
                objs == object::objects_view(objects@),
                nv == text::strings_view(names@),
                name == nv[i as int],
                object::objects_view(r@) == before + objs.take(j as int).filter(|o: ObjectView| o.name == name),
            decreases objects.len() - j,
        {
            proof {
                reveal(Seq::filter);
            }
            assert(objs.take(j + 1).drop_last() =~= objs.take(j as int));
            assert(objs.take(j + 1).last() == objects@[j as int]@);
            let ghost rb = object::objects_view(r@);
            if text::str_eq(objects[j].name.as_str(), names[i].as_str()) {
                r.push(crate::markdown::parser::copy_object(&objects[j]));
                assert(object::objects_view(r@) =~= rb.push(objects@[j as int]@));
            }
            j = j + 1;
        }
        assert(objs.take(j as int) =~= objs);
        assert(nv.take(i + 1).drop_last() =~= nv.take(i as int));
        assert(nv.take(i + 1).last() == name);
        i = i + 1;
    }
    assert(nv.take(i as int) =~= nv);
    r
}

/// Every object comes after the objects it uses.
pub open spec fn users_after_used(objs: Seq<ObjectView>, names: Seq<Seq<char>>) -> bool {
    forall|i: int, d: Seq<char>|
        0 <= i < objs.len() && #[trigger] tree::attribute_deps(objs[i].attributes, names).contains(d) ==> exists|j: int|
            0 <= j < i && objs[j].name == d
}

/// Orders the objects of a model so that, without cycles, each comes after
/// the objects it uses: the objects are grouped by name, the groups in the
/// topological order of the dependency graph, whose edges run from each
/// used object to its user.
fn sort_by_dependency(model: &mut DataModel)
    requires
        tree::graph_fits(*old(model)),
    ensures
        exists|ord: Seq<Seq<char>>|
            name_order(ord, object::objects_view(old(model).objects@)) && #[trigger] object::objects_view(
                final(model).objects@,
            ) == grouped_by_names(object::objects_view(old(model).objects@), ord),
        tree::plain_model(object::objects_view(old(model).objects@)) ==> users_after_used(
            object::objects_view(final(model).objects@),
            tree::names_of(object::objects_view(old(model).objects@)),
        ),
        final(model).name == old(model).name,
        final(model).enums == old(model).enums,
        final(model).config == old(model).config,
{
    let ghost objs = object::objects_view(model.objects@);
    let g = tree::dependency_graph(model);
    proof {
        assert(tree::node_names(g) =~= tree::names_of(objs)) by {
            assert forall|i: int| 0 <= i < tree::node_names(g).len() implies tree::node_names(g)[i] == tree::names_of(objs)[i] by {
                assert(object::objects_view(tree::graph_nodes(g))[i] == objs[i]);
            }
        }
    }
    let order = tree::get_topological_order(&g);
    let ghost ov = text::strings_view(order@);
    let sorted = group_by_names(&model.objects, &order);
    model.objects = sorted;
    assert(name_order(ov, objs));
    proof {
        if tree::plain_model(objs) {
            let fv = object::objects_view(model.objects@);
            let names = tree::names_of(objs);
            assert(tree::plain_graph(g));
            assert forall|i: int| 0 <= i < ov.len() implies names.contains(#[trigger] ov[i]) by {
                assert(ov.contains(ov[i]));
            }
            lemma_grouped_distinct(objs, ov);
            assert forall|i: int, d: Seq<char>|
                0 <= i < fv.len() && #[trigger] tree::attribute_deps(fv[i].attributes, names).contains(d) implies exists|j: int|
                0 <= j < i && fv[j].name == d by {
                assert(named_object(objs, ov[i], fv[i]));
                let u = tree::last_named(objs, ov[i])->Some_0;
                assert(objs[u] == fv[i]);
                tree::lemma_dependency_edge(objs, u, d, objs.len() as int);
                let a = tree::last_named(objs, d)->Some_0;
                tree::lemma_last_named(objs, d);
                let edges = tree::graph_edges(g);
                let e = choose|e: int| 0 <= e < edges.len() && edges[e] == (a, u);
                assert(tree::edge_in_graph(g, edges[e]));
                assert(tree::comes_before(ov, tree::node_names(g)[a], tree::node_names(g)[u]));
                assert(tree::node_names(g)[u] == ov[i]);
                assert(tree::node_names(g)[a] == d);
                let (x, y) = choose|x: int, y: int|
                    0 <= x < y < ov.len() && #[trigger] ov[x] == d && #[trigger] ov[y] == ov[i];
                assert(y == i);
                assert(named_object(objs, ov[x], fv[x]));
                assert(fv[x].name == d);
            }
        }
    }
}

} // verus!
