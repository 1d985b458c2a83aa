# exergon_core

The rules of the Exergon factory game as a Verus-verified Rust library, with a
small command-line tool around it.

## Layout

- `src/` — the verified library. Each module states its behaviour in
  `requires`/`ensures` contracts over spec functions and views, and its laws as
  public proof functions:
  - content and recipes: `recipe_graph` (materials, forms, templates, recipe
    tables and producer/consumer indexes), `content` (veins, layers, biomes,
    ore draws), `machine`, `tech_tree`, `tech_path`, `catalog` and
    `json_patch` (the asset store's decisions and merge patches);
  - simulation: `production` (recipe dispatch, start, finish, refunds),
    `job_queue`, `storage`, `research` and `research_laws` (unlock rules),
    `membership`, `components`, `network_state` and `routing` (cable
    networks), `drone`, `escape`, `pod`;
  - the planet: `planet` (visibility, reveal rules, names, panel text),
    `seed` (hashing and seed derivation), `scenario` (smoke-run planning),
    `cli` (argument parsing);
  - helpers: `strmap`, `ordering`, `text`.
- `tests/` — tests of the library.
- `app/` — the `exergon` command-line tool: reads and writes the asset files,
  and does the floating-point world and planet generation.

Calls into outside crates (`serde_json`, `rand`/`rand_pcg`, `xxhash-rust`,
`blake3`, `base58`) sit behind small trusted wrappers whose contracts say what
the crates' sources show.
