# schisma

The verified core of the Schisma MPE instrument, written in Verus.

- `src/` is the library, verified by Verus. Functions state what they
  compute in `requires`/`ensures`; the few that only read values other
  threads write (the queue's consumer end, its drop counter and emergency
  flag, the allocation counter) state nothing of those values, since the
  values depend on the other threads. The `law_*` proof functions state properties
  that span several calls (what a note-off releases, how blocks of a
  timeline fit together, how a keyboard mapping repeats, that every backend
  request falls back to the CPU, and so on).
- `tests/` runs the library on concrete inputs.
- `app/` is the command-line host: floating-point synthesis, tuning
  frequencies, analysis, WAV output and the global allocation auditor, built
  on the library's decisions.

Modules of the library:

| module | contents |
|---|---|
| `midi` | decoding of channel-voice messages, note names |
| `routing` | source paths and last-write-wins routing of events to fields |
| `mpe` | MPE zone settings and the default configuration |
| `voices` | MPE zones, voice slots, channel binding, stealing, RPN selection |
| `timeline` | stable frame order, block cutting, looping regression patterns |
| `smf` | Standard MIDI File tracks (through midly), tempo maps, tempo spans |
| `text` | line splitting, trimming and integer parsing as `str` does them |
| `scala` | `.scl` and `.kbm` parsing, mapped degrees, degree splitting |
| `tuning` | just-intonation scales and where a degree lands |
| `graph` | topology documents, validation, editor edits |
| `params` | parameter ids, keys and the registry |
| `gpu` | compute-backend discovery and selection |
| `meter` | single-word encodings published to the interface thread |
| `realtime` | input port choice and the bounded MIDI queue (through ringbuf) |
| `rt_audit` | audio-thread depth and allocation counting |
| `telemetry` | callback timing histogram counts |
