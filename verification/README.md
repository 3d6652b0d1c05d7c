# xfce_config

Computes, compares and plans changes to an Xfce desktop configuration: xfconf
channels, panel plugin files, GTK settings, GSettings keys and plain files
(key=value `.cfg` files and JSON documents). The functions in `src/` are verified
with Verus against contracts stated over mathematical models (`Seq`, `Map`, spec
functions), except the few small wrappers marked `external_body` that call `heck`,
`syn`, `im` and `std::path`, whose contracts are trusted; `app/` is the
command-line program around it.

## Layout

- `src/diff.rs`, `src/patch.rs`, `src/ordmap.rs`, `src/maps.rs`, `src/vector.rs`:
  the diff/patch framework and the ordered maps and persistent vectors it runs on.
- `src/xfconf.rs`: xfconf properties and channels, their diffs, and clear paths.
- `src/channel.rs`, `src/channel_roundtrip.rs`: the channel XML document as a
  stream of events, read and written, with the law that reading what was written
  gives the channel back.
- `src/panel.rs`: panel plugin configuration files and links.
- `src/cfg.rs`, `src/json.rs`, `src/gtk.rs`, `src/gsettings.rs`, `src/general.rs`:
  the other configuration sources.
- `src/config.rs`, `src/serde.rs`, `src/text.rs`: colors, identifiers, relative
  paths and text helpers.
- `src/config_syntax.rs`, `src/config_types.rs`: the configuration description
  language: its tokens read into a type description, and the type declarations
  that a description generates.
- `src/lib.rs`: the whole configuration and its diff.
- `app/`: argument handling, D-Bus, GSettings, files, XML and JSON I/O, and the
  loop that applies a plan.
- `tests/`: tests of the library on concrete values.
