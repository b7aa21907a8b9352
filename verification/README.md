# serde_qs

Querystrings with nested keys (`user[name]=John&ids[0]=1`), serialised and
parsed by code verified with Verus.

`src/` is the verified library:

- `parse.rs` parses a querystring into a tree of keys and values
  (`value.rs`), exactly as the specification `spec_parse` reads it;
  `decode.rs` and `encode.rs` handle percent-encoding.
- `ser.rs` is the serializer: a stack of key segments and the text
  written so far, stated over `key_segment`, `stack_text` and `spec_encode`.
- `de.rs` and `primitive.rs` read parsed values as maps, sequences,
  options, text and numbers; `error.rs` holds the errors and their messages.
- `roundtrip.rs`, `limits.rs` and `order.rs` state and prove the laws: what
  the serializer writes parses back to the same keys and values, parsing
  never nests deeper than `max_depth` allows, and every parsed map keeps its
  keys in order; `tree.rs` holds the facts about nested maps they use.

`app/` is the `serde` glue (`to_string`, `from_str`, `Config` entry points,
the `actix_web` extractor and the delimited-list helpers), which drives the
library through serde's `Serializer` and `Deserializer` traits.
