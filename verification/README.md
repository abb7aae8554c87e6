# SAPIence

A SAPI 5 TTS engine that forwards speech to NVDA, so that SAPI-only
applications speak through the screen reader.

- `src/` is the verified library: the SSML document for an utterance
  (prosody mapping, XML escaping, a mark after every word), the mark names
  and their parser, the mark queue and routing table, the pacing step
  function, the class factory's decision, and the registry layout.
- `app/` is the Windows glue: the COM objects, the NVDA Controller Client
  calls, the registry writes, and the loops that carry out the pacing
  decisions. It builds only for Windows.
- `tests/` exercises the library.
