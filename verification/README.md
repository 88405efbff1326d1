# ha_tui

A terminal dashboard for Home Assistant, as a verified library plus a thin
program around it.

- `src/` is the library, verified with Verus: the entity model and its typed
  views (`app::entity`), the area registry (`app::registry`), the application
  state with its grouping into tabs and cards, selection, search, optimistic
  updates and expiry (`app::state`), what a key or a mouse event does
  (`app::dispatch`), the laws that hold across operations (`app::laws`), the
  Lovelace dashboard import (`ha::lovelace`), the WebSocket client's decisions
  (`ha::client`), the configuration checks (`config`) and the screen layout
  arithmetic (`ui`).
- `app/` is the program: the async WebSocket connection, the terminal, the
  event loop, the JSON and TOML decoding, and everything that computes with
  floating point (sensor rounding, climate steps, history charts).
- `tests/` exercise the library on concrete values.
