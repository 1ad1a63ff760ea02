# voicemeter

A level meter for the input devices of a machine: bars with the levels of every channel, and the
spectrum of the channel that is selected.

- `src/` is the library, verified with Verus: ring buffers, sample buffers, the sorting of interleaved
  samples, the bookkeeping of connections, loading, levels, frequencies, and which samples a
  spectrum is made of.
- `tests/` runs the library on concrete values.
- `app/` is the program around it: the audio host, the threads, the transform and its scaling in
  floating point, and the windows.

Times are turned into numbers of samples as double precision arithmetic does it. `src/double.rs`
carries that arithmetic out with integers.
