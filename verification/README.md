# simple_json

A small JSON reader and writer whose behaviour is specified and proved with
Verus.

- `src/json_lexer.rs`: `lex` splits a text into lexemes; `spec_lex` says what
  it gives for every text.
- `src/json_parser.rs`: `parse_json` lexes a text and parses its lexemes by
  recursive descent, a comma being allowed after the last item of a list or
  member of an object; `spec_parse_json` is its model. `parse_json_aborts` tells
  the texts on which parsing cannot finish (it would read past the last
  lexeme, or a number cannot be read), which `parse_json` asks its callers to
  rule out.
- `src/json_writer.rs`: `write_json` writes a value with one tab of
  indentation per level, an empty list or object as its two brackets on two
  lines; `write_value_text` is its model.
- `src/lex_laws.rs`: leading white space changes nothing that `lex` gives,
  and two lexable texts joined by a space lex as their lexemes one after the
  other.
- `src/writer_laws.rs`: writing at indentation `n` puts `n` tabs before each
  line of the text written at indentation 0; values that are the same as maps
  differ only in the order of their members, write texts of the same length,
  and write the same text when no object in them has two or more members.
- `src/round_trip.rs`: the proof that a written value parses back as itself
  when it can (`law_written_text_parses_back`), and that a comma after the
  last item or member changes nothing (`law_trailing_comma_in_list`,
  `law_trailing_comma_in_object`).
- `src/builder.rs`: the text is assembled with `string_builder::Builder`,
  reasoned about through the bytes it holds.
- `app/main.rs`: the command line program `simple_json <input> <output>`; it
  turns decimal numbers into `f64` and back, which the library leaves to it.
