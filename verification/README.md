# kf_protocol_message

Kafka-compatible wire messages (DescribeGroups and Metadata requests and
responses) with verified encoders and decoders, and a pass-through byte
codec for framed TCP streams.

Layout:

- `src/wire.rs` — the wire primitives (INT16, INT32, BOOLEAN, STRING,
  NULLABLE_STRING, BYTES, arrays), each as a specification of its bytes, a
  reader and a writer proved against it, and a lemma that reading back what
  was written gives the value.
- `src/describe_groups.rs`, `src/metadata.rs` — the messages. Fields that a
  protocol version does not carry are neither written nor read at that
  version; a read leaves them as they were. Each message has a round-trip
  lemma stating exactly what a read of an encoding gives back.
- `src/codec.rs` — `SimpleCodec`: a decode hands on all buffered bytes, an
  encode appends. It works on `bytes::BytesMut`.
- `src/api.rs` — the `Request` trait (API key and version range).
- `app/` — the TCP listener and stream over tokio 0.1 with the futures 0.3
  compatibility layer, the tokio `Decoder`/`Encoder` face of `SimpleCodec`,
  and serde-enabled copies of the messages.
