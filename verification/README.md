# gemma4_serving

Serving logic of a Gemma 4 inference server, verified with Verus: an HTTP API in
the style of OpenAI's, in front of one generation worker on an accelerator.

- `src/` is the library. What its functions do is stated in contracts that Verus proves.
- `tests/` runs the library on concrete values.
- `app/` is the program around it: sockets, threads, JSON, floating point and the
  accelerator's kernels.

| Module | What it does |
|---|---|
| `server`, `auth`, `refusal` | reads requests, admits and routes them, begins responses |
| `schema`, `handlers`, `messages` | checks request bodies, gathers what a generation needs |
| `base64`, `audio`, `image`, `double` | takes in the media that come with a chat |
| `tokenizer`, `generate`, `stops`, `sampling` | prompts to tokens, tokens to a reply |
| `events`, `worker` | responses, and streams of events |
| `load`, `runtime`, `tiling` | which weights are read, and where the device reads and writes |
| `cli`, `text` | the command line; text as sequences of characters |

What the library trusts without proof is declared where it is used, each item with
a comment that says what is claimed of which outside function: `text`, `server`,
`image`, `tokenizer`, `load`, `sampling` and `events` hold such items.
