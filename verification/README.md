# Model DAS

A model of data availability sampling over a Kademlia keyspace. Samples are disseminated from one
node over a network of nodes, and validators then look up random samples. The library holds the
rules: which contacts a key goes to, what a node does with a request, how the originator keeps track
of a dissemination, and what is reported of it. Its functions have contracts, and Verus proves them,
except for those of the wrappers named below, which it believes.

## Layout

- `ids`, `collections`, `grouping`, `hex_text`, `seeds`: identifiers and the XOR metric, maps,
  grouping and ranking, text, seeds.
- `args`: the options of a run.
- `allocation`: the routing table of a node, and the contacts that keys go to.
- `frame`, `messages`: what nodes send each other.
- `node`: a node, what it stores and how it answers.
- `recursive`, `iterative`, `closer`, `dissemination`: the two ways of disseminating samples.
- `accounting`, `outstanding`: under iterative routing no sample is forgotten, and no node has two
  requests outstanding.
- `report`, `trace`: where the samples are in the end.
- `sampling`, `simulation`: random sampling, and the course of a simulation.
- `startup`, `keys`, `topology`, `events`: the setup of the nodes, and what they do while they run.
- `snapshot`: a snapshot keeps the network.
- `secure_overlay`: the content keys and the validator of the secure overlay.

`app/` starts discv5 servers and overlays and runs the simulation over them.

## Assumptions and trusted components

What Verus proves rests on Verus itself and its solver, on the Rust compiler, on what vstd says of
the standard library, and on the contracts of these wrappers around outside functions. Their bodies
are not verified. The comment above each says what its contract claims.

| Wrapper | Outside function | What is claimed |
|---|---|---|
| `ids::log2_distance` | `discv5::Key::log2_distance` | the exact logarithm |
| `grouping::group_pairs` | itertools `into_group_map` | the groups, in any order |
| `grouping::unique` | itertools `unique` | the first occurrences |
| `grouping::sort_by_rank` | itertools `sorted_by_key` | a stable sort |
| `hex_text::encode`, `encode_upper` | `hex::encode`, `encode_upper` | the exact digits |
| `secure_overlay::ssz_*` | `ssz` encoding, decoding and union splitting | the exact bytes and errors |
| `seeds::read_u64` | byteorder `read_u64` | the exact number |
| `seeds::random_u64` | the thread generator of `rand` | nothing |
| `recursive::random_id` | `nanoid::format` | the length and the alphabet |
| `sampling::keccak256` | `sha3::Keccak256` | the bytes decide the digest |
| `sampling::pick_seeded` | `rand::seq::index::sample` | different indices, which the seed decides |
| `sampling::pick_any` | `rand::seq::index::sample` | different indices |
| `topology::seeded` | `rand` `seed_from_u64` | the seed decides the generator |
| `topology::draw_below` | `rand` `gen_range` | a number below the bound, which the generator decides |
| `startup::format_utc` | `chrono` formatting | the moment and the pattern decide the text, of nineteen characters or more |
| `keys::key_node_id` | `enr` `secp256k1_from_bytes`, `public`, `NodeId::from` | the bytes decide the identifier; there is one exactly for secret keys |
| `keys::random_key` | `enr` `generate_secp256k1`, `encode` | a secret key |
| `messages::from_be` | `u16::from_be` | the number on a big-endian machine, its bytes swapped on a little-endian one |

The types `rand::rngs::StdRng` and `ssz::DecodeError` are opaque. Nothing checks that the callers in
`app/` and `tests/` meet the preconditions of the library; `app/` tests them before each call.

## Usage

`model_das -n <num-servers> -p <start-listen-port> -t <topology> <simulation-case> [ARGS]`

```bash
model_das -n 500 --topology uniform disseminate -n 256 --batching-strategy bucket-wise --forward-mode FA --replicate-mode RS --redundancy 1
model_das -n 500 -t uniform --timeout 6 sample --validators-number 2 --samples-per-validator 75 --parallelism 30
```

A snapshot keeps the keys of the nodes and the seeds of a run under `--cache-dir`. `--snapshot` takes
`new`, `last`, or the name of one, such as `2022-11-08-11:46:09`.
