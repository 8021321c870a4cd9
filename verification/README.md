# tunes

Building blocks for music composition, with their behaviour stated in
contracts and proved with Verus.

- `src/` is the verified library:
  - `key_signature`: keys, their sharps and flats, modes and names;
  - `sequences`: integer generators for melodies and rhythms (Euclidean,
    Thue-Morse, Recamán, cellular automata, Cantor, Fibonacci, primes,
    Collatz, L-systems, golden-ratio rhythm, Markov transition counts) and
    scale mapping;
  - `midi`: General MIDI drum and program mappings, the events of exported
    tracks (note pairs, channels, stable ordering, delta times), the reading
    of imported tracks (note-on/note-off pairing, drums; controllers ignored,
    program changes stored), the proof that the messages written read back
    as the notes exported (at the level of messages and import state, not of
    file bytes), and Standard MIDI File bytes through the `midly` codec;
  - `sample`: the frame layout of interleaved audio (slicing, reversing,
    looping, which frame plays);
  - `piano`, `live_coding`, `text`, `lfo`, `instruments`: the interactive
    piano's controls, the text work of live coding, and shared enums.
- `app/` holds what the verifier cannot take: WAV and MIDI file I/O,
  floating-point synthesis and tuning, random generators, child processes and
  file watching. It calls the library for every decision it can.
- `tests/` runs the library on concrete values.
