# PanelMC

A desktop panel for local Minecraft servers, with its rules verified by Verus.

- `src/` is the library `panelmc`: what the panel computes and decides. Each function states in its contract what it returns, over texts as sequences of characters, tables as maps and documents as trees; Verus proves the code against it. Laws that span several functions are public proof functions whose names begin with `law_`.
- `app/` is the program around it: the window (Slint), files, processes, sockets and HTTP.
- `tests/` runs the library on concrete values, with the outside crates linked.

## The library

| Module | What it holds |
| --- | --- |
| `text`, `numbers`, `unicode`, `sorting`, `tables` | texts, numbers in texts, letters, orders, tables with distinct keys |
| `percent`, `json`, `digest` | percent encoding, JSON documents, checksums and the secret of a login |
| `console` | a server's log and the lines of its output |
| `status` | the question who plays, and the answer |
| `properties`, `options`, `ram`, `servers` | the settings of a server, the list of servers |
| `players`, `worlds`, `listing`, `backups` | players, worlds, files, backups and their schedule |
| `address`, `dns`, `sockets` | addresses, records, who listens on a port |
| `releases`, `icons`, `system` | what can be downloaded, and from where |
| `pictures` | the bytes of a picture before it is decoded |
| `playit`, `cloud` | the tunnel's agent; logins and uploads |
| `monitor`, `messages` | the watch over a running server, and what the panel says |

## What is not proved

The library calls outside crates for checksums, base64, random bytes, JSON and pictures, and the standard library for letters of other alphabets. Each such call stands in a small wrapper marked `external_body`, whose doc comment names the function and says what is taken on trust.

The decoders of pictures index without looking, and add and multiply in numbers that may be too small. They unwind where an index leaves its table, and, in a build that checks for overflow, where a sum leaves its number. `pictures::is_tame` says which bytes keep them within: JPEG pictures whose first coefficients stay in 32 bits whatever the scans hold, and whose frame is laid out as the decoder expects it; PNG pictures whose palette holds whole colours; WebP pictures without parts that are coded without loss, because the code lengths of those are added up in 16 bits before they are checked; every GIF picture. The library decodes these and no others. The program around it decodes the rest where unwinding can be caught. A picture whose blocks of pixels are too large to be added up in 32 bits gets no icon.
