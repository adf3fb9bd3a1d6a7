# sdp

The Service Discovery Protocol server of a Bluetooth host, verified with Verus.

- `src/octets.rs`, `src/codec.rs`: big-endian numbers, and how data elements are written and read.
- `src/data_element.rs`, `src/service.rs`: data elements and service records.
- `src/packet.rs`, `src/error.rs`: requests, answers, headers and error codes.
- `src/query.rs`, `src/answer.rs`: what a request asks for, and which answer it gets.
- `src/server.rs`, `src/audio_sink.rs`: the server, and the records that it starts with.
- `src/codec_laws.rs`, `src/laws.rs`: what holds of all of it: what is written is read back, a list
  that is sent in several answers arrives whole, also around searches and packets that cannot be
  read, a search finds what matches and nothing else, and counts what it lists.
- `src/buffer.rs`: the `bytes` crate's buffers, with the contracts that are taken on trust.
- `app/`: serves connections, one task for each.
