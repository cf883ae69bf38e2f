# earlgrey

An Earley parser for any context-free grammar, the forest of its parses, and a front-end for
grammars in EBNF. What each part does is stated in `requires` / `ensures` contracts and proved by
Verus.

- `grammar`, `lexis`, `canonical`: symbols, rules, what a terminal matches, the builder, and the
  canonical form `head -> sym1 sym2 ...` by which actions and priorities name a rule.
- `parser`, `growth`, `language`, `spans`: `EarleyParser` fills a chart with spans and their
  back-pointers; `law_chart_is_sound` and `law_chart_is_complete` say which trees the chart holds.
- `trees`, `recursive`: `EarleyForest` turns a chart into values. `eval`, `eval_all`, `eval_capped`
  and `eval_iter` walk by iteration, filter by priority, and stop at a cap on steps;
  `eval_recursive` and `eval_all_recursive` walk by recursion, to a fixed depth.
- `derivation`, `choices`, `walk`, `enumeration`, `climb`: the trees, choices and walks that the
  contracts speak of.
- `laws`, `complete`, `distinct`, `unambiguous`: what holds of every enumeration: its trees are
  exactly the derivations that no priority beats, unless a walk gives up, and none comes twice.
- `cycles`: where a chart leads back to a span that is being unwound, `eval_all` fails, whatever
  the cap on steps.
- `priorities`, `agreement`, `values`: priorities only remove trees; where there are no cycles,
  recursion and iteration find the same trees and return the same values.
- `ebnf`, `ebnf_tokenizer`, `syntax`, `notation`, `reading`, `meaning`, `interpreter`, `ebnf_laws`:
  `EbnfGrammarParser` makes a grammar from its text; the notation has one reading, priorities
  attach to the alternative before them, and no rule gets into the grammar twice.

A grammar in EBNF:

```
expr := expr '+' expr
      | int
      | '(' expr ')'    @prio(10)
      | '(' expr        @prio(1) ;
```

`[ ... ]` may be left out, `{ ... }` may be repeated, `( ... )` groups, and a tag such as `@args`
behind a bracket names the symbol that it becomes. Terminals such as `int` are plugged in.
