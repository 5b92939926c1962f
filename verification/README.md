# ternary_scheduler (verified)

A ternary task scheduler (priorities +1 urgent, 0 normal, -1 deferred) with a
work-stealing pool and a load balancer, written in Verus with every function
of the library proved against its contract.

Layout:

- `src/task.rs` — `Task` and its builders.
- `src/order.rs` — execution order (priority descending, then deadline
  ascending) and a verified stable merge sort.
- `src/scheduler.rs` — `Scheduler`: registration, scheduling, deadline
  escalation, deferral, productive-tick count; laws on rescheduling.
- `src/loads.rs` — sums over worker queues (load, squared load, task counts).
- `src/pool.rs` — `WorkStealingPool` and the specification of a steal; laws:
  no task lost, urgent tasks never move, a steal lowers the squared load.
- `src/balance.rs` — `LoadBalancer`: balance test and repeated balancing
  moves; laws: termination, conservation, bound on moves, and balancing goes
  on until the pool is balanced or every worker of greatest load holds
  urgent tasks only.
- `tests/` — tests run against the compiled library.
- `app/main.rs` — demo program and the floating-point utilization ratio.
