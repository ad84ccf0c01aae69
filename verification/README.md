# spectral-prosody

Spectral graph theory applied to metrical patterns across languages: lines of
poetry become nodes of weighted graphs, and the eigenvalues of the graph
Laplacians give each poetic tradition a spectral fingerprint.

## Layout

- `src/` — the verified library (Verus). It holds the exact, combinatorial part
  of the analysis, each function with a contract and the laws proved about it:
  - `rhyme_adjacency`: rhyme schemes, their 0/1 adjacency and integer Laplacian,
    rhyme classes and pairs, classification by textual form (ABAB, AABB, ABBA,
    free verse), and classification by spectrum, which reads only the sizes of
    the rhyme classes (a class of `k` lines contributes the eigenvalue `k - 1`
    once and `-1` `k - 1` times);
  - `phrase`: phrase segmentation along a Fiedler ranking (stable ranking, sign
    cuts, widest-gap cuts kept in a `BTreeSet`, phrase spans); a segmenter
    allowing zero phrases yields none;
  - `prosody`: choice of the nearest neighbours of a node in a k-nearest graph;
  - `laplacian_scan`: greedy clustering of traditions by proximity;
  - `metrical_graph`: stress counts, stress agreement, node labels;
  - `linalg`: matrix transposition;
  - `dial_scan`: looking traditions up by name;
  - `error`, `text`: error values and their messages, decimal rendering.
- `app/` — the floating-point side (Jacobi eigenvalues, Gaussian elimination,
  distances, Gaussian kernels, power iteration, MIDI export) and the
  serializable forms of the public types, built on the library.
- `tests/` — tests of the library.
