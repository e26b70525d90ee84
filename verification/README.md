# subtitle_assistant

Transcribes media files and translates their subtitles with models that run on the same machine.

The library under `src/` holds what the program decides and computes. Each of its functions states in
its contract what it returns, and Verus proves it. It reads no files, starts no processes and calls no
models: it says what is to be asked, and takes the answers.

| module | what it is about |
|---|---|
| `text` | characters, white space, numbers, splitting and joining, paths, quotes, JSON literals, named texts |
| `types` | subtitles, translations, glossaries, verdicts and counters |
| `srt` | times, the SRT file format, line breaking, and splitting of long subtitles |
| `llm` | prompts, generation token by token, and the JSON in what a model wrote |
| `prompt` | templates with placeholders |
| `translate` | summaries, batches, attempts, merging, reviews, and whole runs |
| `qc` | checking recognised sentences one by one |
| `speech` | audio bytes, and the subtitles that are made of recognised speech |
| `pipeline` | what is done with a file, and in which order |
| `config` | settings, file names, and the search for a model |
| `runtime` | the choice of the device |

Proof functions whose names start with `law_` state what holds of several functions together: that
what is written as SRT reads back the same, that no step of a translation moves a subtitle, that
broken lines fit their width and lose no text, that no cut into batches has fewer of them, and so on.

`app/` is the program around the library: the command line, files, FFmpeg, the speech recogniser, the
language model and everything that is measured in seconds or probabilities. `tests/` runs the library
on examples.
