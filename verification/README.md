# relay_ssh

The logic of Relay SSH, a desktop SSH client with saved connections,
terminal tabs and an SFTP file browser, written in Verus: every function in
`src/` carries a contract that Verus proves.

## Layout

- `src/text.rs` – characters, trimming, decimal and hexadecimal digits.
- `src/paths.rs` – sets and maps keyed by remote paths.
- `src/profiles.rs` – connection profiles and the OpenSSH arguments they give.
- `src/connection.rs` – reading `ssh -G` output, host key fingerprints and decisions.
- `src/files.rs` – listing entries, worker events, remote path rules, error
  classification and the breadth-first refresh of open folders.
- `src/sorting.rs` – the order in which a listing is shown.
- `src/tree.rs` – the loaded directory tree, its search and its flattened rows.
- `src/preview.rs` – bounded file previews: text windows that never split a
  character, and hexadecimal views of binary data.
- `src/browser.rs` – the file browser's state: what each worker report does
  to it, which requests it sends, folder navigation and preview paging.
- `src/worker.rs` – what the worker decides about the outcome of a request.
- `src/transfer.rs` – upload and download decisions and copy progress.
- `src/workspace.rs` – the connections list and the terminal tabs.
- `src/diagnostics.rs` – the size and retention bounds of the diagnostics log.
- `src/appearance.rs` – the terminal palette.
- `src/units.rs` – byte counts as shown to the user.
- `src/ghostty.rs` – the quoted command line handed to the Ghostty terminal.
- `tests/` – tests of the library on concrete values.
- `app/` – the program around the library: the SFTP worker thread (`ssh2`),
  saved connections on disk (`serde_json`) and the diagnostics log. The
  window itself (egui with its terminal widget) is not part of this crate.
