# yagna

A verified core of a Golem-network node, written in Verus.

- `src/activity_state.rs`: the state of an activity (`State`, `StatePair`,
  `ActivityState`) and when an activity is alive.
- `src/router.rs`: the service-bus router. Servers register services under
  IDs, clients call them, replies go back to the callers, and a closing
  connection takes its services and calls with it. The router's model
  (`RouterView`) holds the open connections, the server of each service ID
  and the pending calls; `Router::wf` ties the router's indexes to it, and
  every operation keeps it.
- `src/dispatcher.rs`: the senders of the open connections, and the
  router's errors.
- `src/gsb.rs`: the protocol messages and their codes.
- `src/str_collections.rs`: a set of strings and a map keyed by strings.
- `src/laws.rs`: properties that relate several operations.
- `app/`: the daemon around the router (TCP, framing, channels, logging),
  and the JSON form of the activity state.
