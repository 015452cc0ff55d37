# swsplrs

Splits Nintendo Switch binaries (NSO files) into assembly, one file per section or one per object
file, so that the objects of a decompilation project can be compared one by one. What the library
does is verified with [Verus](https://github.com/verus-lang/verus).

A binary is loaded as a whole, and all that refers to something in it does so by an address. To cut
it into pieces, every reference has to be found and written by name instead:

- relocations, symbols and the init array say it themselves,
- code loads the address of a page and adds an offset somewhere behind, possibly blocks apart, so
  that page addresses have to be followed through the flow of control,
- jump tables hold distances, and have to be known beforehand.

## Layout

| Path | Contents |
|---|---|
| `src/nso/nso_header.rs`, `nso_file.rs` | the file format: header, segments, digests, compression |
| `src/nso/tables.rs`, `string_tables.rs`, `eh_frame.rs` | the tables of a loaded binary |
| `src/nso/section_map.rs`, `nso.rs` | what each part of a binary is |
| `src/nso/disasm.rs`, `opcode.rs`, `blocks.rs`, `adrp.rs`, `text.rs` | instructions, basic blocks, page addresses |
| `src/nso/references.rs`, `src/reference_tracker.rs` | what refers to what |
| `src/nso/lookup.rs` | names of addresses |
| `src/nso/data.rs`, `code.rs`, `sections.rs`, `objects.rs`, `export.rs` | assembly |
| `src/nso/floats.rs` | the text of floating-point numbers |
| `src/segmented.rs` | the global offset tables of a binary that is kept as separate segments |
| `src/file_list.rs`, `objdiff.rs`, `hacks.rs` | object files, the project file of `objdiff`, what is known beforehand |
| `src/ranges.rs`, `sets.rs` | collections of other crates |
| `src/bytes.rs`, `fmt.rs`, `lines.rs`, `ordered.rs`, `strings.rs`, `error.rs` | the basics |
| `app/` | the command line program |
| `tests/` | tests |

## Contracts

Each executable function is specified by a spec function over plain values: the view of a file, the
bytes of a table, the text of a section. Functions that can fail say which error comes on which
input. The proof functions whose names begin with `law_` state what holds of several of them
together, such as that different addresses never get the same name, that all that something refers to
is labelled, or that no part of a binary is left out.

What other crates compute is stated at the functions that call them, which are marked
`external_body`. Where their results take pages to describe, the results have names without a
definition: `listing` and `operand_listing` for the disassembler, `lz4_block`, `sha256`,
`lossy_text` for bytes that need not be valid text, `frame_entries`, `frame_instructions` and
`eh_frame_pointer` for exception frames. What the collections of other crates hold is named by
`entries` and `members`.

The library knows floating-point numbers by their bits alone. How their values are written in
comments is handed to it as text.

## Usage

```
swsplrs main.nso --game smo --export-all --split --objdiff
```

`data/file_list.yml` lists the object files, `data/smo_hacks.yml` what is known beforehand of the game:
`jump_tables` (address and number of entries), `rodata_subsections` (start, end, name) and
`object_paths`. Objects are assembled with `aarch64-linux-gnu-as`.
