# gdrive_viewer

A Google Drive viewer: it browses Drive folders and scans Google Docs for
embedded images, reporting the documents that have them and the folders that
lead to those documents.

- `src/` is the verified library (Verus): Drive file records, the app state
  (token, listing cache, document-scan cache, scan generations), the folder
  walk and document scan of a scan session, the order of reported matches,
  the folders that lead to matches, request URLs, retry decisions, error
  messages, and the image check on a fetched document. `src/laws.rs` holds
  the properties that span several operations.
- `app/` is the Tauri shell: commands, HTTP requests, JSON decoding,
  concurrency, and progress events. It runs the loops whose steps the
  library decides (which folder or document comes next, whether a scan was
  cancelled, what is recorded); its own code holds no rule of the app.
- `tests/` exercises the library on concrete values.
