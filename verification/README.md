# tengo_lsp

The analysis behind a language server for the
[Tengo](https://github.com/d5/tengo) scripting language: going to definitions,
finding references, renaming, completion, hover texts, outlines and formatting.

`src/` is the library. Every function in it has a contract that Verus proves.
The contracts speak of source texts as sequences of characters and of syntax
trees as lists of nodes.

- `text`, `text_facts`: trimming, searching, splitting and joining texts
- `syntax`, `grammar`: syntax trees, and parsing with a tree-sitter grammar
- `places`: lines and columns, in UTF-16 units and in bytes
- `scope`, `symbols`, `document`: scopes, definitions, references and imports
  of a file
- `exports`: what a module exports
- `resolver`, `workspace`: from import paths to files, and which files count
- `definition`, `references`, `rename`, `completion`, `hover`, `outline`,
  `format`, `backend`, `cli`: the answers to requests
- `format_laws`, `references_laws`: what holds of every formatted text and of
  every search

The library does no input or output. Where an answer depends on other files,
one function says what has to be read and another takes what was read.

`app/` is the server and the command `fmt [--write] [files...]`: it reads and
writes, and turns the library's types into those of the protocol. It takes the
grammar from the C parser of `tree-sitter-tengo`.

What is believed rather than proved is marked `external_body` or
`assume_specification`: tree-sitter's parser and tree cursor, `Url::parse`,
`Path::parent` and `String::push`.
