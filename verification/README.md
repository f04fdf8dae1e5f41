# tribalwars

A Discord bot for the browser game Tribal Wars, built around a library whose
logic is verified with Verus.

- `src/` is the verified library:
  - `models`: the world data (villages, players, tribes), how it is loaded
    from the records of the game's data files, and the lookups by id, by
    name and by coordinates;
  - `names`: decoding of the names in the data files (`+` and
    percent-escapes, the latter through the `urlencoding` crate);
  - `text`: text helpers (ASCII case comparison, decimal rendering, number
    parsing, splitting);
  - `coords`: coordinates in chat messages (found with the `regex` crate)
    and in menu values;
  - `messages`: what the bot does with a chat message;
  - `cards`, `display`: what the bot shows of villages and tribes, member
    lists, travel times and village pictures;
  - `update`: when the world data is downloaded again.
- `app/` is the bot itself: Discord commands (serenity), downloads
  (reqwest), the data files (csv, serde), report screenshots
  (headless_chrome) and travel distances, which are computed in floating
  point.
- `tests/` holds the library's tests.
