# beet scheduler

A small meeting scheduler: someone creates a meeting with candidate time
slots, participants mark the slots they can attend, and the meeting page shows
a grid with a total per slot. A participant's browser keeps an edit token per
answer in the `edit_tokens` cookie and may change only the answers whose token
it holds.

- `src/` is the library, verified with Verus: the cookie format and its
  round trip (`edit_tokens`), edit authorization (`editing`), random ids and
  tokens (`token`), slot planning for new meetings (`slots`), the meeting page
  model (`models`, `view`), schema migration planning (`migrations`), settings
  (`settings`) and the text handling they share (`text`).
- `app/` is the web server around it: HTTP handlers (axum), the SQLite store
  (rusqlite), page rendering (minijinja) and start-up.
- `tests/` exercises the library on concrete values.
