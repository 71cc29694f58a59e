# luaurc

Resolves the aliases of `.luaurc` files in Luau source. A `.luaurc` file such as

```json
{ "aliases": { "packages": "Packages" } }
```

lets a script write `require("@packages/Fusion")`. This library rewrites such
calls to relative ones, here `require("../../Packages/Fusion")`, and leaves
everything else as it was: `@self`, aliases that are not known, relative
requires, and requires of instances.

The library is written in Verus, and its contracts are proved.

- `src/path.rs`: paths as sequences of components; the way from one to another.
- `src/aliases.rs`: the aliases of one `.luaurc`.
- `src/search.rs`: which `.luaurc` counts for a script, one file at a time.
- `src/syntax.rs`, `src/reader.rs`, `src/visit.rs`: the syntax tree of a script,
  reading it with `full_moon`, and the `require` calls in it.
- `src/replace.rs`: replacing spans of text.
- `src/resolve.rs`: all of it together.
- `src/laws/`: what holds of the library as a whole, as proof functions.
- `app/`: reading files and JSON.

What is taken on trust stands in `src/reader.rs`: what the functions of
`full_moon` that are called there give.
