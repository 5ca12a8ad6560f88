# room-dds-bridge

Configures DDS (Data Distribution Service) domains, topics and QoS policies
from the room topology of a ternary-state MUD, verified with Verus.

- `src/` — the verified library: domain partitioning by connected
  components (`domain_map`), QoS from ternary state (`qos_policy`), room and
  topic configuration (`room_config`, `topic_gen`), publisher/subscriber
  assignment (`pub_sub`), the full configuration (`bridge_config`), and
  string order/equality helpers (`text`).
- `app/` — JSON export with serde (`to_json`, `from_json`, `round_trip`),
  over serializable copies of the library's types.
- `tests/` — tests of the library.
