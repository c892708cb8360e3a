# oxideav_tta

True Audio (TTA1) lossless audio: encoder, decoder, demuxer and trace tape,
with contracts that Verus proves.

* `src/` is the library. Every item in it is verified.
* `tests/` runs the compiled library.
* `app/` is ordinary Rust around it: registration with the `oxideav-core`
  framework, iterator and error traits, trace files.

## What is proved

* Decoding undoes encoding, sample for sample, in the plain format and in the
  password-primed one (`round_trip`). The only residual without a codeword of
  its own is `i32::MIN`; samples of up to 2^29 in magnitude never leave it.
* Random access agrees with decoding everything: single frames, tails from any
  sample, and half-open ranges are exact slices (`access_laws`).
* A header damaged in any one byte is refused, and no proper prefix of a file
  decodes (`header`, `stream_laws`).
* A changed byte in a frame stops the decoding; one in the seek table costs
  random access, and one in the table's CRC nothing else (`damage_laws`).
* Tags before and after a stream change nothing about its samples; a wrong
  password changes sample values and nothing else (`stream_laws`).
* Tag detection never looks at or reports bytes of the stream (`trailers`).
* Demuxed packets are files of their own that decode to their frame
  (`registry`).
* No function in `src/` panics on an input its contract admits; parsing and
  decoding admit every byte string.

The one thing taken on trust is what the standard library says of
`core::time::Duration::new` and `Duration::as_nanos` (`time`).

## Layout of the library

| Modules | Content |
| --- | --- |
| `bits`, `bitreader`, `bitwriter`, `bytes` | bit and byte streams |
| `crc32`, `crc`, `password` | CRC-32, CRC-64, password digests |
| `rice`, `lms`, `tables`, `stage_b`, `decorr`, `channel` | the coding stages |
| `frame`, `encoder`, `decoder` | frames and whole streams |
| `header`, `layout`, `trailers` | headers, seek tables, tags |
| `time`, `pcm`, `text`, `error` | durations, packed samples, messages |
| `trace` | the trace tape |
| `registry` | packets, probing, demuxing |
| `round_trip`, `access_laws`, `stream_laws`, `damage_laws` | laws across modules |
