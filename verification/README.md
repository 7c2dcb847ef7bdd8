# gallery_accel

The decision logic of a media gallery, written in Rust and verified with Verus.
Every function of the library computes on plain values, and its contract says what
it returns for every input. Reading files, running programs, talking to the
database and running the recognition model is left to the application crate, which
asks the library what to do and tells it what came of it.

## Layout

- `src/` is the verified library.
- `tests/` holds its tests: ordinary Rust, on values and on small worlds that live
  in memory.
- `app/` is the application crate around the library: the database, the file
  system, 7-Zip, FFmpeg and ONNX Runtime.
- `extras/` holds the SQL of the tables and indexes that the application hands to a
  new database.

## Modules

| Area | Modules |
| --- | --- |
| Names of archived folders | `archive_format`, `archive_storage`, `archive_profiles`, `preview_answers`, `calendar` |
| Carrying plans out and taking them back | `folder_archive`, `plan_rows`, `archive_runs`, `artist_folders` |
| Archives (7-Zip) | `archive_ops` |
| Moving an artist's folder | `artist_folder_move`, `path_conflicts` |
| Links of an artist's profile | `artist_profile_links` |
| Start-up repairs and identity of artists and items | `db`, `db_identity`, `artist_merge`, `item_merge`, `library_tables`, `plan_columns`, `id_list` |
| Housekeeping, sizes, evidence | `db_housekeeping`, `dimensions`, `evidence_audit` |
| Character recognition | `character_ccip`, `character_ranking`, `gpu_access` |
| Shared | `json`, `text`, `names`, `order`, `paths`, `fs_util`, `tables` |

## How it is stated

A contract compares the result with a `spec fn` over sequences of characters, maps
and mathematical integers. What holds of several functions, or of every state of a
run, is a public `proof fn` beside them: that a move which is reported as failed left
the tree at its source, that nothing is renamed without a backup, that merging two
items loses no tag.

Work that alternates between decisions and the outside world is a state machine: a
function takes a state and an event and gives the next state and an action.

What is believed without proof is marked `#[verifier::external_body]` or
`assume_specification`, calls one outside function each, and says in its comment what
it claims: `chrono` for dates, `serde_json` for lists of ids and names, `url` for
links, `uuid` for fresh names, `image` for the size of an image, and lower case,
quoting and `String::push` of the standard library.
