# nqvpn

The control plane of a small mesh VPN, and the member's side of it, as a
verified library.

A coordinator holds networks, each with relays and clients. A member presents
its secret and is handed an address, its relays, and a credential. The
coordinator publishes who is there as a view with generations; members follow
it by snapshots and deltas, program routes for it, and send packets to each
other through relays.

## Layout

- `src/` is the library. Every public function has a contract, and the laws that
  hold between functions stand beside them as `law_*`.
  - addresses and text: `net`, `nettext`, `netset`, `text`, `error`, `proto`
  - tables: `namemap`, `idmap`, `owners`
  - configuration and its rules: `config`, `validate`, `accepted`, `netfiles`,
    `client_config`
  - the coordinator's memory: `registry`, `ipam`, `leases`, `directory`,
    `traffic`, `reach`, `exits`, `history`
  - secrets and logins: `secrets`, `signer`, `auth`, `tls`
  - the coordinator at work: `state`, `join`, `coordinator`, `access`,
    `rejoin`, `control`, `status`, `roster`, `admin`, `operator`, `restore`
  - the host: `routes`, `routeset`, `session_routes`, `pins`, `device`,
    `commands`, `guard`
  - the member: `peers`, `engine`, `uplink`, `member`, `follower`, `reconciler`,
    `probe`
- `app/` is the program around it: the command line, the HTTPS API, the
  database, the routing table and the TUN device. It holds neither the
  coordinator's control listener nor the client's session loop, and it makes no
  certificate of its own: the wire protocol and the identities that it is
  spoken under live in crates that are not part of this repository. What those
  loops decide is in the library: `control::open_session`, `on_message`,
  `close_session` and `liveness_sweep` on the coordinator, `follower::on_push`
  on the client. Without `[tls]` the API does not start.
- `tests/` runs the library on concrete values, with the outside crates linked.

## What is trusted

The library calls `ipnet`, `base64`, `argon2`, `ed25519-dalek`, `rand`,
`rustls-pemfile` and `uuid`, and of std `String::push` and the `Debug` form of a text, through small
wrappers whose contracts are taken on trust. Each wrapper says above itself
what it claims of the function that it calls.
