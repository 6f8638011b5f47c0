# minimalchat

The verified core of a minimal Mattermost client for slow links: it keeps a
local cache of channels, messages and settings, queues messages written
while offline, and sends them once a connection exists.

- `src/` is the library, proved with Verus:
  - `models` — channels, messages, users, settings;
  - `decimal` — the decimal text of the numeric settings and its reading;
  - `table`, `timeline` — keyed tables and the stable newest-first order;
  - `cache` — the cache and its queue, with the laws of reading back what
    was written;
  - `json`, `mattermost` — the server's API: addresses, replies, errors;
  - `session` — what the commands decide, and the synchronisation run.
- `app/` is the desktop program around it: the Tauri commands, the HTTP
  requests (reqwest) and the SQLite file (rusqlite) that the cache is
  written through to.
- `tests/` runs the library on concrete values.
