# Talon

Talon manages custom skins for League of Legends: it keeps a library of `.fantome`
mods, makes preview images of them, and builds overlays of game archives (WAD
files) in which a mod's files replace those of the game.

`src/` is the library. It is written in Verus: what each function returns is
stated in its contract and proved. It does no I/O; it takes bytes, texts, paths and
answers to questions about the file system, and returns what to write or to do.

- `overlay/wad`: the archive format, mods as zip files, merging and conflicts
- `overlay`: building overlays, patching and restoring cached maps, hover requests
- `wad`: the reader for archives inside mods, and their property files
- `textures`: which game textures can be unpacked
- `skins`: the library listing, the index of enabled skins, imports, images
- `lcu`, `bridge`, `data_dragon`: what is said to and by the client
- `pengu`, `patcher`: when a hook is registered, and what the patcher thread does
- `codecs`, `zips`: what is relied on of other crates
- `names`, `paths`, `text`, `bytes`, `json`, `sorting`, `wide`, `storage`: the rest

Functions named `law_..` state what holds of several functions together.

`tests/` runs the library on concrete values. `app/` is the Tauri application
around the library: commands, files, network, images and the registry.
