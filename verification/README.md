# fuchsia_lib

A verified library, written in Verus, for pieces of the Fuchsia platform:

- `fidl`: the FIDL wire format. Types and values are described at run time
  (`wire::FidlType`, `wire::Value`); `encoder` and `decoder` turn values into
  messages and back, with transaction and persistent headers in `header` and
  whole messages in `message`. `encode` and `decode` define the format as
  spec functions, and `roundtrip` proves that decoding an encoded message
  gives back the value that was encoded, for values whose envelopes each
  fit in 2^32 bytes and whose out-of-line objects, counting empty vectors,
  nest at most 32 deep; `aligned` proves that messages fill whole
  eight-byte blocks with zeroed padding. Values hold no handles; the
  decoder counts a message's handle table, takes from it the handles that
  unknown table members and union variants declare, and refuses a message
  whose table is not used up.
- `cmc`: component manifests. `document` holds a manifest as plain values
  and validates it (`validate_document`): declared names, references to
  children, storage, environments and resolvers, duplicate and colliding
  capabilities, rights, and, through `graph`, the absence of cycles among
  strong dependencies, listing the cycles it finds. `validate` derives capability identifiers from
  `use`, `offer` and `expose` clauses.
- `component`: the namespace paths at which a component finds its services.
- `setui`: small building blocks of the setting service's message hub and
  agents.

Run the tests under `tests/` to exercise the library on concrete values.
