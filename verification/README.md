# thai_practice

A small self-hosted trainer for Thai vocabulary with Leitner spaced
repetition. The library under `src/` holds the logic of the trainer, proved
with Verus:

- `schedule`: the quiz modes and the Leitner boxes with their intervals;
- `requests`: validation of the bodies of word and review requests;
- `listing`: the word list with each word's boxes, and the choice of quiz words;
- `routing`: URL splitting, login/API/static dispatch, API endpoints, static paths;
- `auth`: constant-time password check, session tokens and cookies;
- `text`, `numbers`: trimming, splitting and decimal parsing on characters.

`app/` is the server around it: HTTP (tiny_http), SQLite storage (rusqlite),
JSON (serde_json), the clock and the system's random source.
