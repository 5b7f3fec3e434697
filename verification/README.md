# tailscale_core

A Tailscale node's protocol core, verified with Verus: the ts2021 control plane (Noise IK
over HTTP/2), the WireGuard data plane, disco path discovery, STUN, and the DERP relay.

`src/` is the library. Every function states in its contract what it returns; nothing in it
opens a socket or a file. What goes to the network comes out as a list of actions, or goes
through the traits of `platform`.

- `bytes`, `text`, `net`, `rng`, `crypto`, `json`: building blocks, and the wrappers around
  outside crates
- `icmp`, `ipv4`, `outbound`, `tcp`, `proxy`: packets and the small TCP endpoints inside a
  tunnel
- `stun`, `disco`, `magicsock`: finding a path
- `wg`: handshake and transport
- `dataplane`, `periodic`, `dataplane_laws`: the data plane's decisions and what they keep
- `derp`: the relay
- `noise`, `transport`, `h2`, `scan`, `control`: the control channel
- `peers`, `node`, `keys`, `setup`, `mdns`: netmap, identity and set-up

Facts about several functions together are proof functions whose names begin with `law_`.

`tests/` runs the library on concrete values, against the real crates. `app/` is the firmware
around it for a T-Dongle S3: WiFi, display, sockets, TLS, stored keys and threads.
