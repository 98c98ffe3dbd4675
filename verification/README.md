# detecta-fraude

Fraud detection by similarity search. A transaction is turned into a vector of 14 quantized
features and classified by the labels of the five nearest labelled vectors of a prebuilt index.

The library in `src/` is written in Verus: what each function returns is stated in its contract and
proved. The programs in `app/` are ordinary Rust around it.

## The library

| Module | What it holds |
| --- | --- |
| `text`, `time`, `consts` | bytes of text, timestamps, merchant risk |
| `parse`, `trailing` | reading the JSON payload of a request |
| `vectorize` | turning a payload into a feature vector |
| `index::model`, `index::format`, `index::reader` | what an index holds, how it is stored, reading it |
| `index::early`, `index::hunt`, `index::ivf`, `index::search` | the searches |
| `index::nearest`, `index::offers`, `index::exact`, `index::reach`, `index::repeat` | what the searches find |
| `index::build` | building a tree index or a cluster index, and what holds of one that was built |
| `http`, `response`, `server` | requests, answers, and the decisions on a connection |
| `references`, `evaluation`, `report` | reading references and test data, summing up measurements |

Features that are measured in real numbers (amounts, kilometres, the ratio to the customer's
average) are quantized in `app/features.rs` and handed to the library as integers.

## What is proved

* A search of an index file that was built counts the fraudulent ones among the five nearest of
  the vectors that it was built from (`index::build::laws`).
* The early search, whose work is counted, finds the five nearest, or five that are all close.
* A cluster search is exact where there are few clusters, and where it leaves the outcome open
  (`index::build::cluster_laws`).
* An index file holds each vector that it was built from once, and every built file can be
  searched.
* A request is found whatever bytes follow it, whole requests are answered in order, and answers
  are sent in order without losing a byte.
* Bytes behind a payload do not change what it says (`trailing`).

Trusted without proof are the sorting functions of the standard library, the gzip decoder of
`flate2`, and what `serde_json` makes of a document.

## The programs

The first argument names the program: `fraud-api`, `index-builder`, `eval-preview`, `knn-tail`,
`bench` or `replay`.
