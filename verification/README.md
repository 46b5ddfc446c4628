# bogo_gpu

The core of a distributed shuffle worker, verified with Verus.

A server hands out *leases*: a seed and a number of shuffle indices. The worker
searches the indices for the shuffle of `1..=25` that leaves the most numbers in
place, chunk by chunk, and reports the best of them once a second.

## Layout

| Path | What it holds |
|---|---|
| `src/rng.rs` | the generator of an index, draws by rejection, the shuffle |
| `src/period.rs`, `src/primes.rs` | the period of the generator, and why every draw ends |
| `src/compute.rs`, `src/gpu.rs` | the best shuffle of a range, on all cores |
| `src/device.rs`, `src/device_laws.rs` | keeping the slots of a device busy |
| `src/scheduler.rs`, `src/schedule_laws.rs` | working leases off |
| `src/messages.rs`, `src/net.rs` | messages, the dialogue with the server, pauses |
| `src/notices.rs` | what is noted down of the messages |
| `src/worker.rs`, `src/history.rs`, `src/record_laws.rs` | statistics, records, sessions |
| `src/config.rs`, `src/settings.rs`, `src/cli.rs` | configuration and how it is edited |
| `src/dashboard.rs` | what the window shows and what its buttons do |
| `src/text.rs`, `src/calendar.rs` | decimal text and dates |
| `app/` | the program around it: threads, sockets, files, the window, devices |

Functions named `law_*` state what holds of several functions together, or over
whole runs of a state machine.

## State machines

The asynchronous parts are state machines without I/O. `worker::Worker` takes
commands and starts sessions, `scheduler::Scheduler` works leases off, each by
a `scheduler::LeaseRun`, `device::Pipeline` a batch on a device, and
`net::Dialogue` a connection. Each takes what happened and says what to do
next; `app/` does it.

## Devices

The CUDA and HIP backends in `app/` are compiled with the features `cuda` and
`hip`. Without them batches run on the processor.
