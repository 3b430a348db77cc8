# cursor_api

A server between chat clients and an upstream chat service. `src/` is a library that is verified
with Verus; `app/` is the server around it.

The library holds what the server decides and computes:

- `stream`: frames of the response stream, and the decoder that turns them into messages;
- `decoder`: single response chunks;
- `adapter`: conversion of requests to what the service takes;
- `chat`, `message`: which chat requests are taken, and what they are answered;
- `agent`, `session`: agent sessions and the loop of an agent;
- `app`, `server`: configuration, pages and state;
- `tokens`, `dynamic_key`: the token files, and keyed hashes of tokens;
- `build`: the version and the platform, and generated sources that describe a build;
- `tree`: an ordered index, a B+ tree;
- `text`, `number`, `store`, `niche_types`: text, numbers, maps and integers;
- `codec`: what other crates compute, each with the contract that the library relies on.

Contracts are stated over views: text is a sequence of characters, an index a sorted sequence of
entries, a store a map. What holds across functions is proved in the `laws` modules and at the end
of the other modules.

`app/` does what needs the outside world: files, the network, the clock, random identifiers, locks
and JSON.
