# asr_data

A data model for speech-recognition datasets: audio documents with their
sources and per-channel timelines of annotations, character error rate and
speaker diarization scores, dataset-level evaluation accumulators, and the
planning side of SQLite storage. The library in `src/` is verified with
Verus; every public function carries a contract.

## Layout

- `src/` — the verified library.
  - `time`, `audio`, `frames`, `stream`: time ranges, channels, encodings,
    sources, sample and frame arithmetic, fixed-size PCM chunking.
  - `probe`, `fasr`, `extract`, `ids`: container probing (symphonia), the
    FASR AudioList framing and records, planning of extracted file names,
    random ids.
  - `doc`, `timeline`, `annotation`, `legacy`: audio documents and their
    validation, timelines, annotation payloads, migration of older records.
  - `cer`, `text`, `chars`, `unicode`, `tn`: edit distance and CER counts,
    text normalisation, tagged-token reordering.
  - `speaker`, `assignment`, `optimum`: diarization scoring; the pairing of
    speakers is an assignment of largest overlap, found with the Hungarian
    method and certified by its dual potentials.
  - `evaluation`, `evaluator`, `speaker_dataset`: per-source accumulators and
    dataset evaluation.
  - `db`, `dataset`, `display`, `repr`, `ordered`: query planning and schema
    checks, ModelScope paths and licences, terminal rendering, textual
    representations, sorted text sets and maps.
- `tests/` — tests of the public API.
- `app/` — file, database and floating-point edges: reading
  files, SQLite access through rusqlite, MessagePack and JSON encodings, and
  rates computed as floats.
