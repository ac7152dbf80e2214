# reasm

Offline reassembly of TCP sessions from captured frames: link layers, IPv4 and IPv6
with their fragments, TCP byte streams with wrapping sequence numbers, and the evidence
of what was retransmitted, missing, out of order or overlapping. The functions of the
library under `src/` carry contracts that Verus proves. What is believed without proof
are the contracts of a digest of `sha2` (`src/hash.rs`), of two functions of
`serde_json`, one that quotes a text (`src/serial.rs`) and one that reads a kept result
(`src/store.rs`), and of a few functions of the standard library on characters and texts
(`src/text.rs`, `src/json.rs`).

- `src/json.rs`, `src/decimal.rs`, `src/text.rs`, `src/hex.rs`, `src/hash.rs`,
  `src/lines.rs`: texts, canonical JSON and its numbers, digests and request lines.
- `src/serial.rs`, `src/document.rs`: the documents that fingerprints and names are
  digests of, and their texts.
- `src/capture.rs`, `src/pcap.rs`, `src/parse.rs`, `src/fixture.rs`, `src/model.rs`:
  pcap files and frame fixtures.
- `src/frame.rs`, `src/network.rs`, `src/packet.rs`, `src/wire.rs`, `src/types.rs`:
  link, network and transport headers.
- `src/frag.rs`, `src/fragment.rs`, `src/defrag.rs`, `src/ipdefrag.rs`,
  `src/ipfrag.rs`, `src/ipreasm.rs`: datagrams from fragments; a datagram whose
  fragments overlap or exceed its budget is set aside and nothing else is.
- `src/seq.rs`, `src/reasm.rs`, `src/session.rs`, `src/tcp.rs`: byte streams and
  generations of connections.
- `src/analysis.rs`, `src/analyze.rs`, `src/workbench.rs`, `src/engine.rs`,
  `src/bare.rs`: whole analyses, their results and fingerprints.
- `src/storage.rs`, `src/store.rs`, `src/server.rs`, `src/http.rs`: names of what is
  kept, requests and answers.
- `src/builder.rs`, `src/demo.rs`, `src/sample.rs`: built captures.

`app/` is the program around the library: the web service and the files on disk.

The laws of the library are the public proof functions whose names start with `law_`.
