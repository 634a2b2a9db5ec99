# ipfrs_tensorlogic

Tensor logic for distributed inference and training, verified with Verus.

- `src/` is the verified library: communication schedules, tensor sharding and
  collectives, pipeline planning and driving, distributed gradient aggregation,
  gradient-accumulation bookkeeping, early stopping, epistemic logic over
  Kripke models, fuzzy-rule checks, an event bus, an execution tracer, a flow
  controller, FFI profiling statistics and GPU resource bookkeeping. Every
  public function carries a `requires`/`ensures` contract; the laws that relate
  several functions are public proof functions named `law_*`.
- `app/` is the runtime around it: floating-point computation (ensembles,
  fuzzy inference, feature extraction, feed-forward layers, differential
  privacy, reductions), clock-based and shared profiling, error types with
  `std::error::Error`, and serialisable records.
- `tests/` exercises the library on concrete values.
