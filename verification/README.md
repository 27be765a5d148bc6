# ngx_laser

Reads nginx access logs and summarizes them: a small HTTP server answers each
request with a JSON object of the hits found in the log files of a directory.

The library (`src/`) is written in Verus. Its functions carry contracts that
Verus proves, but for four small wrappers over std whose contracts are taken on
trust: `push_char` (`String::push`) and `parse_u8`, `parse_u16`, `parse_u64`
(`str::parse` of an unsigned integer, with the kind of its error), in `text`. Two std types (`PathBuf`,
`ParseIntError`) are declared to Verus as opaque types.

- `line_parser`: a `log_format` string becomes a list of parts (a variable and
  the separator that follows it); a line is scanned against the separators and
  its values read into a `LogLine`. The scan, the reading of the date-time, the
  status and the bytes sent are stated as spec functions (`parse_line`).
- `datetime`: dates and times in the common log format and in ISO 8601, with
  their validation, their text (`2021/01/22T02:49:30`) and dates with implicit
  parts (`with_implicit`).
- `log_line`: the hit itself, its HTTP method, whether it is for a static resource.
- `consumers`, `formater`: consumers count resources, status codes and
  visitors; `Consumers` feeds each line to every consumer and merges their
  summaries, then adds the hits and the first and last date-times. The
  summaries are maps of numbers, texts and nested maps whose names are kept
  in the order of `String` (as in the JSON object the server sends); each has
  a plain view (`DataView`, a map) that the contracts speak of.
- `file_reader`: what to do with each line read from a file (keep it, or skip it
  and report its error).
- `url_tree`, `ua_parser`: a tree of URL path components; the product names of a
  user agent.
- `text`: characters, UTF-8 byte offsets, decimal integers as `str::parse`
  reads them.

Where the byte-indexed slicing of the reading functions would panic (an offset
inside a multi-byte character), the `try_` functions return `None` and the
plain ones require that it does not happen.

`app/` is the program around it: command line, configuration file, the global
configuration, the HTTP server, opening (and un-gzipping) the files, logging,
and turning the summaries into JSON.
