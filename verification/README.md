# css_bundler

Makes one style sheet of a CSS file and all the files that it imports, and keeps the conditions
under which each of them is imported: media queries, `@supports` conditions and cascade layers.
The library is written in Verus, so that what its functions do is stated in contracts and proved.

- `supports`, `supports_parser`, `token`, `rewrite`: `@supports` conditions, their grammar and their
  tokens, and that the tokens that are printed of a condition are that condition again. That the
  tokenizer finds these tokens in the text that is printed is not proved.
- `media`, `rules`, `rules_copy`, `rules_css`, `printer`, `text`: media queries, rules and how they are printed.
- `conditions`, `entry`, `path`, `source_index`, `source_map`, `bundle_state`: the files of a bundle
  and how the conditions of their imports join.
- `load`, `order`, `settle`, `inline`, `bundler`: loading files, finding the import of each file that counts,
  and putting the files one after the other.
- `reach`, `in_force`, `tree`, `bundle_laws`, `acyclic`: what holds of a bundle as a whole.

`app/` reads files from disk and loads the imports of a file on several threads.
