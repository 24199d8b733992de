# lol_stats

Match-history statistics for the League of Legends client (Tencent servers):
finding the running client, reading players' past games from the client and
from the Tencent service gateway, aggregating them per player and per
champion, and reading the game in progress with the recent form of every
player and the groups that queued together.

- `src/` is the library, verified with Verus. Every decision is made there:
  parsing the client's command line, server identifiers and gateway
  addresses, rank data, the mapping of gateway game summaries, per-game
  records, player and champion totals, the detail of a game, the filters and
  summaries of the game in progress, premade-group detection, paging, the
  order of cache look-ups, update checks and search.
- `app/` runs the library against the machine: HTTP to the local client and
  to the gateway, the SQLite cache, the process scan, the clipboard, and the
  values shown in floating point (rates, averages, KDA).
- `tests/` exercises the library on concrete values.
