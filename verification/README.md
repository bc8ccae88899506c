# rget

A multi-connection HTTP downloader whose logic is verified with Verus.

- `src/` is the library. Every function says in `requires` and `ensures` what it
  returns or changes, and Verus proves it.
- `tests/` runs the library on concrete values.
- `app/` is the program around it: the command line, sockets, files, the clock and
  the progress bars.

## The library

| Module | What it holds |
| --- | --- |
| `session` | IP mode and address, the URLs of a run, the batch, what to do with a file that exists |
| `target` | reading a URL, `Content-Disposition`, the name of the file |
| `probe` | what the answers to HEAD and to a GET of one byte say, the limit on the size |
| `chunks` | dividing a file, the plan of a download, fetching one chunk, checking a response, rates |
| `resume` | the state in the control file and where a range goes on |
| `supervisor` | the slowest chunk, hung and lagging chunks, when progress is saved |
| `ranges` | `{001..040}` in URLs |
| `speed`, `double` | sizes such as `1.5G`, with the rounding of IEEE 754 doubles in integers |
| `hash`, `digest` | expected hashes, sidecar files, hashing tools, SHA-256 and SHA-512 |
| `text`, `number`, `paths` | what the others are built on |

Functions named `law_...` state what holds of several functions together. Some of
them:

- every byte of a file is in exactly one chunk, and is fetched unless an earlier run
  wrote it, also when the number of connections changes;
- a body is written only where the bytes that were asked for belong;
- no more chunks are fetched at once than there are connections, and each is
  restarted at most once;
- every hash is verified that a flag or a sidecar file gives; a flag displaces only
  the sidecar file of its own algorithm;
- with `--no-continue` a control file that exists is left as it is;
- a file that exists is never overwritten without consent;
- a server cannot choose the directory of the file;
- the ranges in a URL expand to every combination of their numbers.

## What is trusted

The contracts of a few functions that call other crates are believed, not proved.
They are marked `#[verifier::external_body]`, and each says what it claims: `sha2`
and `hex` (`digest`), `regex` (`ranges`), `url` (`target`), `std::path` (`paths`) and
`String::from_utf8_lossy` (`hash`). So is the contract of `String::push` (`text`).

## Usage

```bash
rget [OPTIONS] <URL>...
```

| Flag | Description |
| --- | --- |
| `-o, --output <FILE>` | Output file path. Default: from `Content-Disposition`, then the URL path, then `download.bin`. |
| `-n, --connections <N>` | Number of parallel connections. Default: 8. |
| `--min-chunk <SIZE>` | Minimum chunk size per connection. Default: 1M. |
| `-4, --ipv4` / `-6, --ipv6` | Force IPv4 or IPv6. |
| `--aggressive` | Restart a lagging connection once half of the connections have finished. |
| `--overwrite` / `--no-overwrite` | Overwrite an existing file without asking, or refuse to. |
| `--sha256 <HEX>`, `--sha512 <HEX>` | Verify the download. Sidecar files are found by themselves. |
| `--no-sha` | Skip checksums. |
| `--no-continue` | Neither read nor write a control file. |
| `--limit-rate <SPEED>` | Limit the speed of all connections together. |
| `--max-size <SIZE>` | Largest file that is accepted. Default: 2T. |
| `-i, --input-file <FILE>` | Read URLs from a file. |
| `--fail-fast` | Stop a batch at the first failure. |
| `--http3` | Use HTTP/3 with prior knowledge. Only in a build with the feature `http3`, which `reqwest` calls unstable. |
