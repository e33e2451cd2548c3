# vikt

Deterministic per-line importance: how much of a function's behavior rests on
each of its source lines. Several frontends lower source text, class files or
compiler output into one small graph form, and the analysis over that form is
exact: the same input gives the same tiers, reasons and scores, on every
machine.

The library under `src/` is written in Verus. Every public function states what
it returns, and every statement is proved, from what is said of other crates
where it calls one.

## Layout

| Modules | What they hold |
|---|---|
| `ir`, `graph`, `search`, `components`, `dominance`, `dependence` | functions as graphs, reaching definitions, control dependence, loops |
| `denylist`, `tiering`, `importance`, `projection` | tiers and reasons of nodes, and their projection onto lines |
| `pivot`, `trophic`, `strahler`, `confluence` | what the scorers compute in integers |
| `filescope`, `blend`, `ranks` | call resolution across files, and the rank of a line in its file and run |
| `artifact`, `calibration` | the sidecar's records, rank correlation and its verdict |
| `mutant`, `textmut` | line-targeted textual mutants |
| `ts` | the tree-sitter frontend: Rust, Python, Java, Kotlin and Go |
| `js`, `jvm`, `rs` | the frontends for JavaScript and TypeScript, class files, and the compiler's own form of Rust |
| `text`, `ascending` | strings as bytes, sorted lists |

`ts::laws` and `js::laws` prove what lowering keeps from one statement to the
next; the other laws stand beside the functions they are about.

`app/` is ordinary Rust around the library: files, processes, serialized
shapes, and the scorers' floating-point passes. `app/rust_lower.rs` is a program
of its own, since it links the compiler's crates.

## What is not written

A Kotlin `suspend` function compiles to a state machine, and its dispatch jumps
into the middle of what were loops. The class-file frontend lowers it as it
stands: the dispatch is not cut out, so such a loop may go unseen.

## What is not proved

Two things come from other crates: parse trees from tree-sitter and oxc, and
class files, with the method bodies lifted from them, from mokapot. The functions
that call them are marked in `ts.rs`, `js.rs` and `jvm.rs`, and each says what it
takes on trust. Lifting works in an order that differs from run to run: what every
lifted body has in common with its bytecode is stated, and so is that a lifted
method is the result of lifting, but not when lifting fails or which of the values
that may reach an instruction it uses. The text of a parser's message is not stated
either. Two conversions of the standard library between characters and strings are
taken on trust as well.
