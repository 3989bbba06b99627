# glassgauge

The account and token logic of the glassgauge usage widget for the mirasim
relay, verified with Verus.

- `src/` — the verified library:
  - `text` — trimming, snapshot-name cleaning, short ids, e-mail parts, text order;
  - `codec` — hexadecimal, UTF-16LE and base64 (through the `base64` crate);
  - `json` — reading one member of a JSON document (through `serde_json`);
  - `token` — opening and sealing `mrs1:` tokens (AES-256-GCM through `aes-gcm`),
    JWT claims, the master key's storage form;
  - `stamp` — civil dates and the backup time stamp;
  - `accounts` — snapshots, naming, save/switch plans, the panel view, backup pruning;
  - `relay` — classifying upstream `/v1/limits` answers and the panel's error codes;
  - `transfer` — export, import and refresh decisions.
- `tests/` — tests of the library with the real outside crates linked.
- `app/` — the Tauri application around it: commands, files, the login server,
  file dialogs and DPAPI.
