# ZstdChess

Samples chess games out of large `.pgn.zst` dumps while they are streamed, by rules that are
stated and proved in Verus.

- `src/` is the verified library. `rules` says which games are taken and what follows from that
  (sizes and quotas are kept, every game is counted once, stopping early loses nothing);
  `sampler` and `session` carry the rules out on games and on lines of text; `movetext` and
  `headers` read PGN; `config`, `output` and `summary` deal with what is asked for and what is
  written; `text` and `decimal` hold string and number handling.
- `app/` is the command line program: arguments, JSON, downloads, decompression, files and
  progress bars.
- `tests/` runs the library.

## Configuration

```json
{
  "zstd_database": ["db/games.pgn.zst", "https://example.org/games.pgn.zst"],
  "name": "2026_batch",
  "groups": {
    "events": ["Rated Rapid game"],
    "time_controls": ["600+0"],
    "min_plies": 20,
    "start": 600,
    "end": 2600,
    "interval": 200,
    "delta": 100,
    "size": 64
  },
  "player": {
    "quota": 1,
    "banned_string": ["BOT"],
    "required_string": []
  }
}
```

Sources are read one after the other; counts and quotas carry over. `size` and `quota` of `0` mean
no limit, and an empty list accepts anything. Below `end` a rating goes to the multiple of
`interval` at or below it; ratings at or above `end` go to the open bracket at `end`. `start` and
`end` are best multiples of `interval`: where no bracket starts at `end`, there is no open one, and
ratings go to the multiples up to `end` only.
`banned_string` holds titles and names of players.
