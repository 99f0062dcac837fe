# netflow

A flow archive: flow messages off a byte stream into Parquet files sorted by time
and filed by day, and answers to the questions that are asked of them. The library
under `src/` is written in Verus; every function states what it does, and Verus
proves it.

| Module | What it holds |
| --- | --- |
| `varint`, `flow`, `frames` | the wire format: varints, flow messages, framed streams |
| `batch`, `columns` | flows as rows, rows as columns, columns as sorted tables |
| `consumer`, `flush`, `clock` | reading the stream, and handing batches over |
| `calendar`, `partition`, `moment` | dates, the files of a day, points in time |
| `addr`, `notation` | IP addresses and their text |
| `order`, `asn` | stable sorting, and whose an address is |
| `lookup` | who was behind a public address |
| `archive` | records filed by the date of their receipt |
| `text` | numbers as text and text in pieces |

Proof functions named `law_..` state what holds of several functions together: that a
stream may be cut anywhere, that handing a batch over loses no row, that an address
is read back as it was written, and the like.

What other crates do is behind functions marked `external_body`, each with what is
taken of it in its contract: `columns` (arrow), `moment` (chrono), `flush` (parquet),
`asn` (flate2, ipnet).

`app/` holds the programs: `pq-consumer`, `pq-verify`, `flow-api` and `archiver`.
