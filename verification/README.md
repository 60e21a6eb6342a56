# fraud_detection

Fraud scoring of card transactions by nearest-neighbour search, verified with
Verus.

A transaction becomes a vector of 14 quantized dimensions. The five closest of the
labelled reference vectors vote on it, and the answer is served over HTTP.

- `src/` is the verified library.
  - `calendar`, `decimal`, `timestamp`: dates, numbers in text, and timestamps.
  - `vectorize`: the dimensions of a transaction.
  - `archive`, `dataset`: the compressed reference entries, their binary image, and
    the dataset read from it.
  - `neighbours`, `parallel`, `search`: the slots of the nearest neighbours, the
    reduction over threads, and the search.
  - `http`, `response`, `service`: the framing of requests, the texts of the answers,
    and the answer to a request to score.
- `tests/` runs the library.
- `app/` is the server around it: files, sockets, JSON and floating point.

The trusted items are `archive::gunzip` (flate2), `parallel::map_reduce` (rayon) and
the specification of `std::hint::black_box` in `dataset`.
