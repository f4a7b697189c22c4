# sortyard

External merge sort for CSV and JSONL files bigger than memory, with typed
multi-column keys (text, numbers, dates, nested JSON paths).

Records are read one by one, each gets a key whose plain byte order is the
order asked for, and the buffer is spilled as a sorted run whenever it reaches
the memory cap; the runs are merged at the end, in several passes if there are
more than `--fan-in` of them. The records themselves come out verbatim.

- `src/` is the library, verified with Verus:
  - `text`, `order`, `natural`, `double`, `render`: texts, byte order,
    numbers of any size, double-precision numbers read and written exactly
  - `csv`, `json`, `datetime`: what the input is made of
  - `value`, `keyspec`, `extract`, `keyorder`: keys, their encoding, and the
    proof that the encoding keeps their order
  - `io`: the streams and the store that the sorter works on
  - `spill`, `arrange`, `merge`, `sorter`: runs, sorting, merging, the whole
  - `guarantees`: what holds of every sort and every check
  - `cli`: options, format detection, reports
- `app/` is the command around it: files, standard streams, the temporary
  directory.
- `tests/` runs the library on concrete inputs.
