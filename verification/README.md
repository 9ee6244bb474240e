# mdmodels

Markdown data models: objects, attributes and enumerations written as
markdown, read into a data model, checked, and written out as JSON schema,
LinkML, or the inputs of code templates.

The library under `src/` is verified with Verus: each public function states
what it returns in its contract, and the laws of the library (round trips,
orders, what a model keeps when written out and read back) are proof
functions beside the code they speak of.

- `text`, `primitives`, `attribute`, `object`, `frontmatter`, `datamodel`,
  `option`, `xmltype`: the model and its parts.
- `markdown`: reading a model from markdown (events, then objects and
  enumerations).
- `validation`: the rules a model must follow.
- `json`: JSON schema types, writing a model as a schema, reading a schema
  as a model, and checking datasets against a schema.
- `linkml`: LinkML schema types, and conversion both ways.
- `tree`: the dependency graph of a model, its topological order, and the
  graph reachable from a root object.
- `exporters`: template names, type maps, and preparing a model for a
  template.
- `pipeline`: the steps of a generation pipeline.
- `git`, `avro`: remote model locations and Avro schema types.
- `jsonld`: values of JSON-LD keywords that hold one item or a list.

`app/` holds what cannot be verified: file and network input and output
(among it reading the built-in types `Equation` and `UnitDefinition` and the
models a front matter imports, which the library then merges in),
serialisation with serde, and the pipeline loop. `tests/` exercises the
library from outside.
