# jvm

Loading of Java class files, verified with Verus.

- `src/bytes.rs`: big-endian reads from a byte buffer (through `byteorder`), UTF-8 text
  helpers, and `Parsed`, which describes how a read ends.
- `src/mutf8.rs`: the modified UTF-8 in which `CONSTANT_Utf8` entries hold their text.
- `src/descriptor.rs`: base types, field descriptors and method descriptors, the latter
  read by the descriptor grammar.
- `src/constant.rs`: constant-pool tags and entries, and how an entry is read.
- `src/attribute.rs`: attributes; `ConstantValue` and `Code` are read in full, others
  are skipped by their length.
- `src/class.rs`: the constant pool and its resolution of references, access flags,
  methods, fields and class member lookups.
- `src/strmap.rs`: maps keyed by strings.
- `src/operand.rs`: the kinds of operand-stack value.
- `app/lib.rs`: reading the same parts from a `Read + Seek` reader.

Each reader has a spec function that says what it gives for every byte buffer: the value
and the number of bytes it took, the error it fails with together with the offset at
which reading stopped, or that the bytes are refused. `read` functions give `None` for a
refusal; `from_bytes` and `parse` require that the input is not one that is refused.
