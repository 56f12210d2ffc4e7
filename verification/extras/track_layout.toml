# Track layout (version 2): an outer loop of tracks 1 and 2, a branch line through
# tracks 3 to 8, and the sidings of track 11. Install it as data/track_layout.toml
# (or point YOYO_LAYOUT at it).

version = 2

[[tracks]]
id = 1
along_fwd = [
  { kind = "connection", id = 1, peer_track = 2, peer_side = "fwd" },
  { kind = "sensor", id = 1 },
  { kind = "sensor", id = 2 },
  { kind = "sensor", id = 3 },
  { kind = "connection", id = 2, peer_track = 2, peer_side = "bwd" },
]

[[tracks]]
id = 2
along_fwd = [
  { kind = "connection", id = 2, peer_track = 1, peer_side = "fwd" },
  { kind = "sensor", id = 4 },
  { kind = "coupler", id = 1 },
  { kind = "coupler", id = 3 },
  { kind = "sensor", id = 5 },
  { kind = "connection", id = 1, peer_track = 1, peer_side = "bwd" },
]

[[tracks]]
id = 3
along_fwd = [
  { kind = "connection", id = 3, peer_track = 4, peer_side = "fwd" },
  { kind = "sensor", id = 6 },
  { kind = "coupler", id = 1 },
  { kind = "sensor", id = 7 },
  { kind = "sensor", id = 8 },
  { kind = "connection", id = 4, peer_track = 4, peer_side = "bwd" },
]

[[tracks]]
id = 4
along_fwd = [
  { kind = "connection", id = 4, peer_track = 3, peer_side = "fwd" },
  { kind = "sensor", id = 9 },
  { kind = "sensor", id = 10 },
  { kind = "point", id = 5, entry = [{ kind = "sensor", id = 11 }], thru = [{ kind = "connection", id = 3, peer_track = 3, peer_side = "bwd" }], branch = [{ kind = "connection", id = 5, peer_track = 5, peer_side = "bwd" }] },
]

[[tracks]]
id = 5
along_fwd = [
  { kind = "connection", id = 5, peer_track = 4, peer_side = "fwd" },
  { kind = "sensor", id = 12 },
  { kind = "coupler", id = 3 },
  { kind = "sensor", id = 13 },
  { kind = "connection", id = 6, peer_track = 6, peer_side = "bwd" },
]

[[tracks]]
id = 6
along_fwd = [
  { kind = "connection", id = 6, peer_track = 5, peer_side = "fwd" },
  { kind = "sensor", id = 14 },
  { kind = "sensor", id = 15 },
  { kind = "point", id = 7, entry = [{ kind = "sensor", id = 16 }], thru = [{ kind = "connection", id = 7, peer_track = 7, peer_side = "bwd" }], branch = [{ kind = "connection", id = 8, peer_track = 8, peer_side = "bwd" }] },
]

[[tracks]]
id = 7
along_fwd = [
  { kind = "connection", id = 7, peer_track = 6, peer_side = "fwd" },
  { kind = "sensor", id = 17 },
  { kind = "sensor", id = 23 },
  { kind = "buffer" },
]

[[tracks]]
id = 8
along_fwd = [
  { kind = "connection", id = 8, peer_track = 6, peer_side = "fwd" },
  { kind = "sensor", id = 24 },
  { kind = "connection", id = 9, peer_track = 11, peer_side = "bwd" },
]

[[tracks]]
id = 9
along_fwd = []

[[tracks]]
id = 10
along_fwd = []

[[tracks]]
id = 11
along_fwd = [
  { kind = "connection", id = 9, peer_track = 8, peer_side = "fwd" },
  { kind = "point", id = 8, entry = [{ kind = "inline" }], thru = [{ kind = "sensor", id = 18 }, { kind = "buffer" }], branch = [{ kind = "point", id = 10, entry = [{ kind = "inline" }], thru = [{ kind = "sensor", id = 19 }, { kind = "buffer" }], branch = [{ kind = "point", id = 11, entry = [{ kind = "inline" }], thru = [{ kind = "sensor", id = 20 }, { kind = "buffer" }], branch = [{ kind = "sensor", id = 21 }, { kind = "buffer" }] }] }] },
]

[[tracks]]
id = 12
along_fwd = []

[[couplers]]
id = 1
entry_a = { type = "track_port", track = 2, side = "bwd" }
thru_a = { type = "track_port", track = 2, side = "fwd" }
entry_b = { type = "track_port", track = 3, side = "bwd" }
thru_b = { type = "track_port", track = 3, side = "fwd" }

[[couplers]]
id = 3
entry_a = { type = "track_port", track = 2, side = "bwd" }
thru_a = { type = "track_port", track = 2, side = "fwd" }
entry_b = { type = "track_port", track = 5, side = "bwd" }
thru_b = { type = "track_port", track = 5, side = "fwd" }

[[stations]]
name = "waterloo"
sensor_ids = [2, 7, 12, 17]

[[stations]]
name = "bridge"
sensor_ids = [5, 9, 16]

[[stations]]
name = "sidings"
sensor_ids = [18, 19, 20, 21]

[[stations]]
name = "blackheath"
sensor_ids = [24]

[[stations]]
name = "industrial"
sensor_ids = [13, 23]
