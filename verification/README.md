# rxeval

Evaluate the logic of ODK/OpenRosa XForms — `relevant`, `constraint`,
`required`, `calculate` — with a proof, checked by
[Verus](https://github.com/verus-lang/verus), that every function does what
its contract says.

```rust
let form = rxeval::Form::parse(&xform_xml)?;
let submission = rxeval::Instance::from_xml(&submission_xml)?;

for violation in form.check(&submission, clock) {
    println!("{}", violation.describe());
}
```

An expression that cannot be evaluated is an error that names itself, never a
default. These functions are refused by name: `indexed-repeat`, `current`,
`pulldata`, `randomize`, `uuid`, `digest`, `date`, `date-time`,
`decimal-date-time`, `decimal-time`, `area`, `distance`, `checklist`,
`weighted-checklist`, `position-in-repeat`.

## Layout

| | |
|---|---|
| `src/text.rs`, `src/table.rs` | characters, strings, and tables in the order of their keys |
| `src/number.rs`, `src/number/` | binary64 arithmetic on its bits: rounding, decimals, roots, powers |
| `src/tree.rs`, `src/tree/` | documents: reading, walking, editing, document order |
| `src/parser/` | tokens and the XPath grammar |
| `src/eval.rs`, `src/eval/` | evaluation of expressions |
| `src/functions.rs`, `src/functions/` | the function library |
| `src/rules.rs`, `src/rules/` | bindings, the order of calculations, checking a submission |
| `src/portability.rs`, `src/portability/` | what will not travel between the engines of the ecosystem |
| `src/session.rs`, `src/session/` | a form being filled in |
| `src/metadata.rs` | what a submission says of the interview it comes from |
| `tests/` | tests |
| `app/` | bindings for Python and R |

## What is proved

A document is modelled as an arena of nodes (`tree::Tree`), an expression by
its shape (`parser::ast::ExprModel`), a number by its sixty-four bits. Over
these, `eval::eval` says what an expression evaluates to,
`rules::checking::all_findings` what a form finds of a submission, and
`session::SessionModel` what each answer does to a form that is being filled
in. The functions that run are proved to return exactly that.

What the library promises as a whole stands in functions named `law_*`: that
calculations run after what they read and settle in one pass, that relevance
cascades, that every rule is run and only asked questions are judged, that
nodes are found in document order and each once, that the axes divide a
document among them, that an address leads to its node and to no other, that
an answer reads back and leaves the others alone, that what is written of a
session reads back and a resumed session answers as before, and others beside
them.

What is taken on trust is marked `external_body` or `assume_specification`:
the regular expressions of the `regex` crate, and a few functions of the
standard library on characters and strings.

## License

BSD-2-Clause.
