# Lightbringer

A lightweight networking sidecar for Solana: it takes in shreds, repairs what is
missing, serves what it has, and passes shreds on over a peer-to-peer overlay.
The logic is a Verus library, so that what it does is stated in contracts and
proved.

## Layout

- `src/` is the library.
  - `layout`, `types`, `codec`, `text`, `addr`, `pubkey`, `time`, `ordmap`,
    `digest`, `rng`: the ground that the rest stands on.
  - `packet_filter`, `store`, `util`: signatures, slots that fill up, shreds by
    batch and by completion, keys on disk.
  - `repair`, `repair_delivery`: asking peers for shreds, and serving them.
  - `overlay`: the retransmission tree, the QUIC transport, and what a node can
    tell of the NAT in front of it.
  - `overlay::sim`: the deterministic simulator. `world` drives real machines
    under virtual time through NATs, firewalls and lossy links; `highseam` runs
    many cores over an in-memory transport; `scenario` holds canned runs.
    `likeness`, `quic_likeness` and `replay` prove that one seed gives one run,
    `order` and `probe_order` that links keep the order.
  - `overlay_sim`: what the simulator's runner is asked for.
  - `rpc`, `solana_rpc`: what the RPCs encode and decode.
- `tests/` runs the library, over real QUIC where there are machines.
- `app/` is what does I/O: the simulator's command line, and the drivers of the
  rest.

## Running the simulator

```text
overlay-sim [--seed N] [--scenario NAME] [--verbose] [--until-failure] [--list]
```

A run prints the hash of its trace. The same seed and scenario give the same
hash, with or without printing, as long as the machines that run in it keep to
one likeness: their datagrams may hold other bytes, but as many, at the same
times and to the same effect. That is a premise about the endpoints and
connections of QUIC. Of the transport that drives them it is proved from there,
and of the in-memory transport without a premise.
