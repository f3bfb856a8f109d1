# moltis_skills

The skills part of the Moltis desktop gateway, as a verified Verus library.

- `src/skill.rs` — skill entries, their mathematical value (`SkillView`), and
  deduplication by source and name, keeping the first occurrence.
- `src/category.rs` — categories: merging entries of the same id (summed
  counts) and ranking by count.
- `src/registry.rs` — the `RegistryProvider` interface, the built-in featured
  provider (search, categories, featured list) and `AggregatedRegistry`, which
  asks every provider in turn and merges the answers.
- `src/bundled.rs` and `src/catalog.rs` — the bundled skills and the plan that
  provisions them into the personal skills directory without overwriting
  existing skills.
- `src/desktop.rs` — decisions of the desktop shell: gateway address, window
  URL, tray menu and tray icon actions.
- `src/text.rs` — lowercasing (std's `str::to_lowercase`, the one trusted
  call), substring search and dash replacement.
- `app/lib.rs` — the I/O around the library: parsing the featured list from
  JSON, carrying out a provisioning plan on the file system, and aggregating
  providers that must be awaited.

The laws of the library are the public `lemma_*` proof functions of `src/`.
