# swift-api-tool

Extracts the public API surface of a Swift package into one file (Markdown,
YAML or HTML), and compares two such snapshots.

`src/` is a library, verified with Verus. It builds trees of declarations from
symbol graphs, renders them, pairs the declarations of two snapshots, and
writes and judges the report on what differs. `app/` is the command line
program around it: arguments, files, JSON and YAML, and calls of `swift`.

| modules | what they hold |
| --- | --- |
| `text`, `attributes`, `order`, `textmap` | texts, attributes, orders and sorted maps |
| `symbols`, `declaration`, `graph` | symbol graphs, and trees of declarations made from them |
| `package`, `module_files`, `walk` | which targets and which files make up a package |
| `model`, `markdown`, `html`, `html_assets`, `symbol_name` | the model of a package, and how it is written |
| `identity`, `diff`, `report`, `tally`, `report_output` | the comparison of two packages, and its report |
| `command` | formats, colors and exit codes |
| `markup` | what can be found in the markup of a page |
| `*_laws` | theorems about the above |

```sh
swift-api-tool . -o public-api.yaml
swift-api-tool diff old.yaml public-api.yaml --allow-additive
```

A comparison exits with 0 if there are no differences, or if there are only
additions and `--allow-additive` is given; with 1 if there are others; and with
2 if a snapshot cannot be read.
