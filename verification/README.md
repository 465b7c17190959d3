# course_ai

The logic of a course assistant that turns lecture subtitles into study
notes with an OpenAI-compatible language model, verified with Verus.

- `src/` — the verified library:
  - `text` — whitespace, trimming, searching, line splitting, joining and
    decimal rendering over `Seq<char>`, with UTF-8 byte lengths;
  - `time` — subtitle timestamps (`HH:MM:SS,mmm`);
  - `ai` — subtitle compression into timed sentences, transcript chunking
    under a byte bound, prompts, file extensions;
  - `summary` — the summary task as a state machine: prompts, progress
    reports, recording of chunk answers and the final result;
  - `llm::chat` — endpoint and model normalisation, answer cleaning, text and
    reasoning extraction from JSON content, request preparation, status and
    response handling, model-list sorting, fallback across configurations;
  - `order`, `json`, `http`, `model`, `error`, `llm::model` — supporting data.
- `app/` — the transport: HTTP through `reqwest`, JSON through `serde`, the
  async client trait and the async summary driver.
- `tests/` — tests of the library on concrete values.
