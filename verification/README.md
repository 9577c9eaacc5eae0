# ce_envs

Two small teaching environments, written in Verus with their behaviour
stated as contracts and proved.

* **Petri nets** — a textual language of arcs (`p -> [t] (2);`,
  `[t] -> q (1);`) and token counts (`p***;`), its parser, a simulator that
  fires the enabled transitions step by step, and a renderer to Graphviz DOT.
* **Text playground** — upper-cases every other whitespace-separated word.

Layout of `src/`:

| module          | contents                                                        |
|-----------------|-----------------------------------------------------------------|
| `text`          | whitespace, trimming, searching, decimal numbers, `replace`     |
| `command`       | `PCommand`, `PCommands`, `ParseError` and their textual form    |
| `parser`        | `parse_pcommands` and the `PetrinetParsing` helpers             |
| `steps`         | the simulator: `steps`, `try_steps`, `marking_trace`            |
| `dot_generator` | `dot`                                                           |
| `petrinet`      | the Petri-net environment: input, output, run, validate, inputs |
| `playground`    | the text environment: capitalization, run, validate, inputs     |
| `env`           | the verdict and error types both environments share             |
| `random`        | the random draws of the input generators (`rand`)               |
| `laws`, `round_trip`, `parse_laws`, `steps_laws`, `text_laws` | properties across functions, proved |

`app/` holds serde forms of the inputs and outputs and `Display` impls.
