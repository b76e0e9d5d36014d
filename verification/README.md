# tmplx

An HTML template engine that compiles templates into Rust macros at build
time. The library in `src/` is verified with Verus; `app/` holds the
workspace build driver, which reads and writes files.

## Layout

- `src/build_logic/`: the template compiler, one pass per module.
  - `tokenizer`: source text to `Static` / `Tagged` tokens, with the line of
    each tag. Proved: the tokens give back the source exactly, statics and
    tags alternate, each tag's line is one more than the newlines before it,
    a tag ends at the first closer, and the `-` flags match the text.
  - `classifier`: the content of a tag to its kind (`if`, `for`, `let`,
    outputs, `extends`, `include`, `block`, ...), or the build error.
  - `validator`: pairing of `if` / `for` with their closing tags. Proved:
    a validated stream has only classifiable tags and balanced blocks;
    validation reads neither static text nor comments.
  - `truncation`: `{%-` and `-%}` remove the adjacent whitespace. Proved:
    tags are untouched, the marked sides end up free of whitespace, the
    pass is idempotent and leaves validation unchanged.
  - `generator`: tokens to the Rust source of a `macro_rules!` and the
    constant holding the exact byte size of the static text. Proved: each
    static text has its own `push_str`, and the pushes write exactly the
    static text.
- `src/compiler.rs`: template inheritance (`extends` / `block`), `include`
  bookkeeping, path checks, depth and size limits, macro names, and the
  last passes of a template (`finish_template`), the splicing of included
  templates and the check that a resolved path stays under the template
  root. Proved: merging a child into a parent replaces the content of each
  parent block that the child defines and leaves every other token in
  place; `}` closes an `if` or a `for` as `endif` / `endfor` do.
- The passes that the build cannot continue after (`tokenize`, `classify`,
  `validate_pairing`) require inputs on which they succeed; `try_tokenize`,
  `try_classify` and `check_pairing` report, for any input, the error and
  its message.
- `src/tmplx_runtime.rs`: HTML, JavaScript and URL escaping used by the
  generated code. Proved: HTML escaping can be undone; JavaScript escaping
  leaves no `<`, `>`, `&` or `$`, so no `${`.
- `src/text.rs`: character-level helpers shared by the passes.
- `app/`: `build_workspace` and `build_workspace_strict`, which scan the
  template directory, read files, resolve paths on disk and write the
  generated file, calling the library for every decision.
