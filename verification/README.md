# balancer

The decision logic of a TCP load balancer, verified with Verus.

- `src/common`: socket addresses, the plain backend type, and
  `ConnectionCounts`, a map from backend address to open connections
  (no address twice).
- `src/configuration`: the settings types and the selection policies.
- `src/proxy`: the two dispatchers (`proxy::Proxy` over one pool,
  `proxy::proxy::Proxy` with a healthy sub-pool), backend selection
  (round robin, random, least connection), connection counting, health
  filtering, and the monitoring rule that switches the policy
  (`proxy::load_balancer`).
- `src/selection_method`: the selection traits with a round-robin counter
  and a round-robin selector.
- `app/`: the program around the library: configuration files and their
  watcher, TCP listening and relaying, health checks, timers and locks.
