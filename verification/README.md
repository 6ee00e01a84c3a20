# bowties

The verified core of Bowties, a configuration tool for LCC (OpenLCB) model
railway layouts, written in Verus. The functions under `src/` carry contracts that Verus
proves, with one exception: the few small wrappers marked
`#[verifier::external_body]` (in `text`, `stamps` and `offline`) call into
std, `chrono`, `uuid` and `serde_json`, and their contracts are trusted, not
proved; each says in its doc comment what it claims of the call. `app/` is a
small command-line program around the library that does the file I/O.

## Layout of `src/`

| module | what it holds |
|---|---|
| `text`, `strmap` | character-sequence helpers and an ordered string-keyed map |
| `stamps` | the clock and random UUIDs, and the change IDs minted from them |
| `layout_types`, `manifest`, `layout_io`, `save_plan` | the layout document, its edits (deltas), validation, companion-directory paths, which snapshots a save writes |
| `node_id`, `snapshot`, `capture` | node IDs and their text forms, captured node snapshots and their value trees |
| `offline`, `sync`, `catalog_overlay` | offline changes, sync sessions and applying changes to the bus, pending event IDs shown in the offline catalog |
| `cdi`, `cdi_cache`, `cdi_details`, `card`, `columns` | the configuration description: addresses, read plans, value decoding, field details, cards, browser columns |
| `codec`, `values` | big-endian integers, text and event-ID codecs; node-tree values |
| `config_read`, `config_write` | turning batched read replies into values; counting write outcomes |
| `event_roles`, `facility` | producer/consumer claims from Identify Events replies; facility wiring helpers |
| `connector`, `placeholders`, `nodes`, `diagnostics` | connector profile views, placeholder boards, discovered nodes, diagnostic summaries |

Laws that relate several functions are public proof functions named `law_*`.
