# Unbox

A converter for DSSAD data directories: recorded text files become JSON
(one entry per message line, payload in base64, CRC-32 checked), MPEG
transport streams are remuxed into MP4 by ffmpeg.

- `src/` is the verified library: the grammar of a message line
  (`record`, `unicode`, `encoding`), the CRC-32 (`crc`), the base64 framing
  of a payload (`payload`), the conversion of a file's lines
  (`txt_converter`), the choice of files to convert in a directory tree and
  the results reported for them (`converter`), the bookkeeping of a running
  conversion (`progress`), text formatting (`text`) and the theme (`theme`).
- `app/` is the desktop program around it: reading directories and files,
  writing JSON, running ffmpeg, and the egui window.
- `tests/` runs the library, and checks the line grammar against the
  `regex` crate.
