# matchmaker

An in-memory matchmaker. Players queue with a skill rating and a region; ten of
them at a time are matched and split into two teams of five. The library is
written in Verus: every function carries a contract, and the contracts are
proved.

## How a match is formed

1. The search starts from the player who has waited longest. The median rating
   of that player's bucket (one bracket of 200 points in one region) is the
   centre of a window, 150 points to each side.
2. Of the players in the window the ten who have waited longest are candidates.
   Where there are fewer than ten, the window is searched again at the width
   that it has grown to: 50 points more for each second that the oldest player
   has waited, up to 600. After 15 seconds other regions are searched too.
3. The ten candidates leave the queue together or not at all.
4. They are ranked by rating and split by a snake draft. The record of the match
   holds both averages, how far they lie apart, and a quality from zero to one.

## Layout

- `src/model.rs` says what the matchmaker is, as mathematics: a queue, the
  regions seen, the metrics and the settings. The contracts of `src/matchmaker`
  speak of it.
- `src/laws.rs` holds what follows for the queue and for matches as a whole,
  and `src/history.rs` what follows for any course of events: how the counters
  add up, and that nobody is matched again without joining again. Laws of
  smaller parts stand with them.
- `src/matchmaker.rs` joins and removes players; below it `search.rs` collects
  candidates, `eviction.rs` takes them out, and `formation.rs` puts the steps
  together.
- `src/shard.rs`, `src/oldest.rs`, `src/shortlist.rs` and `src/regions.rs` are
  the data structures behind the queue; `src/lists.rs` says what is left of a
  list when players leave it.
- `src/rating.rs`, `src/rounding.rs`, `src/double.rs` and `src/bounds.rs` compute
  with doubles, held by their bits: order, brackets, and the four operations,
  each proved to return the double nearest to the exact result.
- `src/draft.rs` splits teams; `src/metrics.rs` counts; `src/config.rs` reads
  settings; `src/api.rs` and `src/requests.rs` answer requests.
- `app/` is the service around the library: HTTP on port 8080, metrics on port
  9090, worker threads, and one line of JSON on standard output for each match.

Times are nanoseconds since the service started. The library is not shared
between threads; the service keeps it behind a lock, and publishes the metrics
beside it so that reading them does not wait for a search.

## Settings

The service reads `MATCHMAKER_BASE_WINDOW`, `MATCHMAKER_WINDOW_EXPAND_PER_SEC`,
`MATCHMAKER_MAX_WINDOW`, `MATCHMAKER_CROSS_REGION_WAIT_SECS`,
`MATCHMAKER_WORKER_IDLE_MS`, `MATCHMAKER_API_WORKERS`, `MATCHMAKER_FAST` and
`MATCHMAKER_FAST_CROSS_REGION` from the environment.
