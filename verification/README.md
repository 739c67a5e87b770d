# juggling-core

The notation and pattern-search core of a juggling pattern animator, written in Verus.
Verus proves every function in `src/` against its contract. The trusted wrappers around
outside crates are the exception: their contracts are assumed, not proved. Some contracts
are partial, most notably the generator's: it states which filters and limits every result
respects, not which patterns the search finds.

## Layout

- `src/text.rs` — character-level text helpers (trimming, splitting, numbers) with
  specifications that follow the behaviour of the standard library functions they stand for.
- `src/permutation.rs` — permutations of jugglers and paths: parsing in explicit and cycle
  notation, composition, inverses, powers, orders and cycles, with laws such as "the inverse
  undoes the permutation".
- `src/parameter_list.rs` — `name=value;...` parameter lists.
- `src/util.rs` — repeat expansion `(..^n)` and splitting outside parentheses.
- `src/siteswap.rs` — the generalized siteswap grammar: throws, multiplexes, synchronous
  pairs, repeats, passing groups, hand letters and switch-repeat `*`, specified as a reader
  over the characters of the pattern.
- `src/hand_siteswap.rs` — hand siteswaps: object and hand patterns, handspecs, hand orbits,
  and the conversion to passing notation.
- `src/generator.rs` — the siteswap pattern generator and its options, with the filters and
  limits that its results respect.
- `src/transitioner.rs` — the transition finder's options and state helpers.
- `src/jml.rs` — JML pattern lists: reading (over the node list of an XML parser), the
  `<pattern>` fragment of a document, and writing.
- `src/share.rs` — URL encoding and decoding of shared patterns, the settings of a shared
  URL, and patterns shared as Base64 of gzip-compressed JML.
- other modules — labels, symmetries, props and small helpers of the animation model.
- `app/` — serde forms of the generator's results, the floating-point helpers, and the
  reading of a shared URL into a pattern or its settings.
- `tests/` — tests of the library on concrete values.

Outside crates are reached only through a few small trusted wrappers, each documented where
it stands: `regex` for the generator's filters, `roxmltree` for XML parsing, and `base64`
and `flate2` for shared JML.
