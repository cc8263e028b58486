# qr_forge_core

QR code, Code 128 and EAN-13 generation with SVG and PNG output, written in Verus.
Every function in `src/` carries a `requires`/`ensures` contract that Verus proves.

## Layout

- `src/text.rs`: decimal formatting, string building, whitespace trimming and case mapping.
- `src/error.rs`: `CoreError`, its stable machine codes and its messages.
- `src/qr.rs`: error correction levels, `QrOptions` (validation, hex colors), `QrMatrix`,
  QR generation through the `qrcode` crate, and the Wi-Fi and vCard payloads.
- `src/barcode.rs`: Code 128 and EAN-13 input checks, encoding through `barcoders`, and the
  run-length bar layout with quiet zones.
- `src/rgba.rs`: `Canvas`, an `image::RgbaImage` behind trusted wrappers (fill, put and get a
  pixel, PNG encoding and decoding, resizing), described by its size and its RGBA bytes.
- `src/render.rs`: SVG documents, the QR and barcode images drawn on canvases, PNG output, and
  the logo overlay.
- `src/pipeline.rs`: request-level operations that the browser interface calls (options from
  parameters, barcode type names, `tel:`/`mailto:` payloads, complete SVG/PNG requests).
- `app/`: the `wasm-bindgen` exports, copies of the public types with `serde` and `thiserror`
  derives, and the logo ratio handling (an `f64`).

Calls into `qrcode`, `barcoders`, `image` and a few `std` string functions go through small
trusted wrappers whose contracts name or state what those functions return.
