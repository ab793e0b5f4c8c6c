# Multipart streams

Reads and writes multipart streams for Rocket. What each step does is stated in its
contract and proved with Verus.

* `src/` is the library. It decides; it never waits. A function that needs bytes, a
  frame or a section says so in its result, and is called again with what came.
  * `decoder` cuts a stream into frames, `reader` puts sections and bodies together
    from frames, `writer` writes sections as the body of a response.
  * `buffer`, `search`, `text`, `header`, `content_type` and `json` say what the
    library relies on from `bytes`, `memchr`, `std`, Rocket and `serde_json`.
  * `streams`, `reading`, `writing`, `round_trip`, `boundaries` and the modules that
    end in `_laws` state what holds of several calls together: among other things,
    that what is written is read back, however the stream is cut into chunks.
* `app/` is the data guard, the responder and the async readers around the library.
* `tests/` runs the library on concrete streams.
