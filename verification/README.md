# ember_bdi

The core of a belief-desire-intention agent runtime, written in Verus and verified.

- `bdil`: the binary wire format for exchanged literals (encoding, decoding, and the
  proof that decoding gives back what was encoded).
- `term`, `literal`, `variable`: the term language.
- `unification`, `bindings`: unification of terms into bindings, and the solver that
  builds them; what bindings stand for as a substitution.
- `resolve`: putting bound terms in place of variables, and what every substitution that
  meets bindings agrees on.
- `knowledge`: the knowledge base, query formulas, their lowering into plans, and the
  search for the answers of a query.
- `plan`: plans, their library and the choice of the plan that handles an event, the
  built-in actions.
- `intention`: frames, intentions and the queue that schedules them, with the reasons an
  intention is blocked.
- `event`, `context`: events and their queue; the limits of one tick of an agent.
- `agent`: the agent and its reasoning cycle (percepts, messages, events, pending actions,
  intentions), with the invariant that an intention is blocked exactly on the events it
  raised that are still queued and on the action it dispatched that has not finished.

`app/` holds what works on floating-point numbers (arithmetic in formulas, numbers of the
wire format), carrying out what a tick asks for (logging, sending, stopping the platform)
and the loop that ticks an agent on a platform.
