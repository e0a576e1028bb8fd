# mqtt_typed_client

A typed MQTT client built around a verified topic engine.

`src/` is the engine, written in Verus and proved against its contracts:

- `topic_pattern_item`, `topic_pattern_path`: parsing topic patterns such as
  `sensors/{sensor_id}/+/data/#` into items, rendering them for the broker,
  binding parameters, formatting concrete topics, and matching topics against
  patterns (with the MQTT wildcard rules stated and proved);
- `match_cache`: the LRU cache (of the `lru` crate) in which a pattern keeps
  its match results, behind three trusted wrappers; a cached result is always
  the result a fresh match gives;
- `topic_match`: concrete topics and the result of a match (the levels each
  wildcard covered);
- `subscription_table`, `topic_matcher`: the tree that stores subscriber tables
  under patterns and finds, for a topic, exactly the tables whose pattern
  matches it;
- `topic_router`: subscriptions with identifiers and QoS, routed to exactly the
  topics their patterns match;
- `subscription_manager`, `connection`: the decisions of the subscription
  manager and of the connection's event loop (delivery, back-pressure,
  reconnection back-off, termination), as functions from state and event to
  action;
- `analysis`: checking a message struct against its topic pattern;
- `topic_error`, `qos`, `cache_strategy`, `structured`, `message_serializer`:
  errors, QoS levels, caching settings, topic parameters and serializer types.

`app/` is the client around it: the network connection (rumqttc), the tasks and
channels (tokio), and the payload formats (serde and friends). It performs what
the engine decides.
