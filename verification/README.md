# blue_track

The verified core of a Bluetooth presence tracker.

`src/` is the verified library:

- `address` – device addresses and their text form (`0a:1b:2c:3d:4e:5f`);
  the text of an address identifies it.
- `scan` – the records that a scan produces, and the time between scans.
- `server` – the server's history of devices, with times in nanoseconds since
  the Unix epoch: each scan adds unknown devices, takes a first name, appends
  a lifetime step or leaves an overlapping one alone, and extends the time
  span of all scans; the checks that a recording makes are stated exactly.
  Laws about what a scan keeps and changes stand beside it as proof
  functions.
- `tracker` – the window of recent RSSI readings per device and their means,
  and the timing rules of pose estimates and filter updates.
- `connection` – the Wi-Fi state code, the link state that the tracker's
  tasks share, the decisions of the Wi-Fi connection loop, and the status
  LED's blink rounds.
- `seen` – the bounded set of recently discovered advertisers, kept in a
  `heapless::Deque`.
- `sigma` – sigma-point counts and the layout of the reordered noise matrix.

`app/` holds what works on floating point or does I/O: the unscented Kalman
filter, distance and position estimates, serialisation and the HTTP server.
