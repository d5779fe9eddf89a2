# Rustique

The library behind Rustique, a mod manager: which mods are installed, at which version, and what
they bring along; which mods are updated or deleted; and how the configuration file takes up new
options without touching what the user has set. It is written in Rust and verified with Verus.

- `src/` is the library. Every function states what it returns. Verus proves it of all but the
  functions that call into `std`, `toml`, `owo-colors` or `chrono`: `trim`, `to_lowercase`,
  `eq_ignore_ascii_case` and `str_precedes` in `text.rs`, all functions of `toml_tree.rs` and
  `paint.rs`, `write_time` in `config.rs` and `show_list` in `install.rs`. What these state is
  trusted, and the comment above each says what that is. The laws that hold across functions are
  the proof functions whose names start with `law_`.
- `app/` is ordinary Rust around the library: files, the network and the terminal.
- `tests/` runs the library on concrete values.

The rules about versions (how one is parsed, what meets a condition, which release is picked) are
handed to the library as functions. What is proved holds whatever they answer.
