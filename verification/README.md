# trace0

A tracing profiler for Python. The library in `src/` is verified with Verus; the
extension module in `app/` wires it to the interpreter, to threads and to files.

| module | what it holds |
| --- | --- |
| `clock` | readings of a counter and the nanoseconds they stand for |
| `event` | events, packed into 8 bytes and unpacked |
| `evqueue`, `lane`, `tls` | recording on a thread, and the lanes that batches leave it on |
| `pipeline`, `runs` | the serializer and the writer, one step at a time, and what holds of whole runs |
| `ring`, `snapshot`, `recorder` | the recent past, stretches cut out of it, and dumps |
| `sink`, `json`, `proto`, `pprof` | exporters: Chrome JSON, Perfetto and pprof |
| `packets`, `entries`, `profiles` | what a reader finds in what they write |
| `wire`, `messages`, `text`, `idmap`, `lists` | protobuf fields, text and numbers, tables, lists |
| `intern`, `threads`, `codecache`, `codewatch`, `monitoring` | numbers of code objects and names of threads |
| `recording`, `tracer`, `output`, `format`, `cli` | decisions around files, signals and the command line |

Contracts speak of views: the bytes an exporter has written, the batches a ring
holds, the batches that ever go down a lane. What is asked of the crates underneath
(`quanta`, `rtrb`, `ahash`, `prost`, `serde_json`) is stated at the few functions
that call them.

Calls that block, sleep, lock or write are made by `app/`: the recorder and the
pipeline say what is to be done next, and go on when it has been done.
