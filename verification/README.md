# scanbus backends

The decisions behind two scanner backends, as a library that Verus verifies, with the sockets,
processes and files around it in a thin layer of ordinary Rust.

| Where | What |
|---|---|
| `src/brother` | Brother: `scanimage -L` sightings, discovery, the panel listener, the registrar that keeps a host on the panel, and the scan a press asks for |
| `src/skey` | The scan-key protocol of Brother panels: SNMP registration and panel datagrams |
| `src/hplip` | HP: `hp-probe`, `models.dat`, DNS-SD claims, and walk-up registration over HTTP |
| `src/scanimage.rs` | One run of `scanimage --batch`: its arguments, its pages and their order |
| `src/mdns.rs` | A bounded DNS-SD browse window, and a published record |
| `src/model.rs` | Scanners, capabilities, errors and the outcome of a process |
| `src/text.rs`, `net.rs`, `time.rs`, `keyed.rs`, `hostname.rs` | What the rest is written with |
| `app` | The backends as a service runs them: sockets, tasks, programs, files |
| `tests` | Examples that run |

The library opens nothing. Where a step needs the outside, it says what to do and takes what
came of it as a plain value: `Registrar`, `Listener`, `Install`, `Browse` and `Batch` are such
machines. What holds of them whatever the outside does is stated by the proof functions whose
names begin with `law_`.

The functions marked `#[verifier::external_body]` are the ones whose contracts are taken on
trust; each names what it calls. They reach `quick-xml`, `mdns-sd` and a few conversions of the
standard library.
