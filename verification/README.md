# comment_weave

Comments stand between the tokens of a program, outside its syntax tree. This library decides
which node of the tree a comment belongs to, and prints comments where they belong when a tree is
turned back into text. All of it is written in Verus.

- `attachments`: `attach_comments` gives every comment a host among the nodes that a traversal
  enters. `tree` records the nodes, `scene` says how hosts are chosen, `attacher` chooses them.
  `place` and `pruning` hold what follows: a host depends on the comment and the nodes alone, and
  nodes that no comment touches need not be looked into.
- `store`: the comments that wait to be printed, filed under the source boundaries they belong
  to. `pending` sees them as one sequence, from which a query takes a part.
- `codegen`, `operands`, `legal`: the places of the output at which comments are printed.
  `printer` lays them out. `laws` says what holds at every place.
- `conflate`, `compress`: equal assignments that follow each other, written as one chain.
  `meaning` says what a function's body does, and that this is kept.

Functions of other crates are called through a few trusted items: line splitting and spans of
`oxc_syntax` and `oxc_span` in `text`, short lists of `smallvec` in `list`, arena lists of
`oxc_allocator` in `arena`, and the hash set of `rustc-hash` in `legal`.

`app` reads comments and expressions off an `oxc` syntax tree.
