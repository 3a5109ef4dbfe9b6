# libazo

A decompression library for the AZO format (LZ77 with arithmetic coding,
adaptive probability models and an optional x86 CALL/JMP address filter),
written in Verus: every function of the library carries a contract that
Verus proves.

## Layout

- `src/lib.rs`: the stream and block decoders (`extract_azo`, and
  `open_stream` with `next_block` for decoding one block at a time,
  `decompress_block`) and the specification of what a stream decodes to.
- `src/range.rs`: the bit reader and the 32-bit range decoder.
- `src/model.rs`: the adaptive binary, bit-tree and two-level models.
- `src/match_code.rs`: the match model (distances, lengths, reuse).
- `src/table.rs`: the distance and length code tables.
- `src/recent.rs`: the move-to-front lists.
- `src/x86.rs`: the x86 CALL/JMP filter.
- `src/crc.rs`: CRC-32.
- `src/error.rs`: errors and their messages.
- `app/lib.rs`: the streaming front end over `Read`/`Write`, with the
  decryption callback and the error type that carries I/O errors; it
  writes each block as it is decoded.
- `tests/`: tests of the library.
