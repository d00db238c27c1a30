# s3_archiver

Builds flat, STORED (uncompressed) ZIP archives of S3 objects inside S3, by multipart upload.
Large bodies are moved by server-side copies; small ones are streamed. Every offset, size and
part number is planned from names and sizes alone, so that the parts can be produced
independently and in any order.

The library (`src/`) is verified with Verus; `app/` is the Lambda around it.

- `zip_format`, `zip_reading`: the ZIP records byte by byte, and what a reader finds in them.
- `byte_sink`: in-memory targets with a fixed or growing size.
- `text`, `listing`: small texts, and which listed objects are files.
- `transfer`: how entries and the central directory are written once the checksums are known.
- `engine`: the chain planner, its laws, and the blob of local headers.
- `chain`: the segment-chain variant and its token bucket.
- `v3`: the fan-out variant: listing, layout, part jobs, delegation to sub-workers.
  `archive_laws` shows that the parts of a layout add up to the archive.
- `v2`: the local variant of the part jobs.

Trusted are the declarations of tokio's unbounded channel, the calls that make, share and use
it, base64 decoding, `str::strip_prefix` and `Arc::<str>::from`.
