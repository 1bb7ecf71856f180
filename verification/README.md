# bridge-core

Restores consumer group offsets on a Kafka cluster from the offsets of
another one: it fetches the committed offsets of the source cluster (from its
group coordinator, or from a restored copy of its `__consumer_offsets` topic),
finds for each the matching offset on the target cluster by reading the
source offset that the target records carry in a header, and commits those
offsets for the consumer groups on the target cluster.

## Layout

- `src/` is the library, verified with Verus: the decoding of the offsets
  topic and the accumulation of its commits, the search for target offsets
  and the calculation of each next position, the bookkeeping of mappings and
  missing offsets, Kafka properties and their defaults, CSV snapshots,
  the routing of consumed records to partitions and the bookkeeping of
  their subscribers, and the decisions of the command line. Each public
  function states what it returns in its contract; the laws of the library
  are public proof functions (`law_*`).
- `tests/` runs the library on concrete inputs.
- `app/` is the `bridge` command line around the library: argument parsing,
  the Kafka client (rdkafka), reading and printing, logging.

The calls into other crates (`csv`, `regex`, `ulid`, and a few functions of
`std`, among them the `Debug` formatting of strings and paths) stand
behind small trusted functions whose contracts say what the library relies
on.
