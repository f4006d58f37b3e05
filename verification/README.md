# protobuf_json

Protocol Buffers JSON as a verified library: messages are read from and written as JSON, either as
a text or as a tree of plain values.

- `src/` is the library. Its contracts are stated over spec functions: `message_reading` and its
  helpers say what is read from a source, `message_json` and its helpers what is written.
- `round_trip`, `replies`, `json_form`, `json_shown` and `json_printed` hold the laws: what is
  written is read back, from a text and from a tree alike, also where the interpreter has a part in
  it, and what the JSON form of a message looks like.
- Work that only the interpreter can do (packing an `Any`, reading an extension, printing a large
  float) is a question. A run that meets one stops with it, and is started again with the answers
  so far.
- `tests/` runs the library, and `app/` is the Python extension around it.

The functions marked `external_body` call `jiter`, `base64`, `ryu`, `itoa`, `bytes` and the standard
library; the comment above each says what is believed of the call.
