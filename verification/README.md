# hpvca

A tiny HEVC still-picture encoder, written in Verus. The library in `src/` codes a
picture of 8, 10 or 12 bits, in 4:0:0, 4:2:0, 4:2:2 or 4:4:4, with or without loss,
into the parameter sets and the slice of an HEVC stream, and says in its contracts
what every part of that stream is.

## Layout

- `bitseq`, `bitwriter`, `nal`, `params`, `slice`: bits, escaping, parameter sets and
  slice headers.
- `cabac`: the arithmetic coder, its contexts, the syntax of residuals and what it
  costs, added up on integers as single precision adds it up.
- `refs`, `intra`, `modes`, `ibc`, `blockhash`: prediction.
- `basis`, `butterfly`, `transform`, `transform2d`, `dct`, `quant`, `rdoq`, `signhide`,
  `rdpcm`, `scan`, `tb`: residuals.
- `commit`, `runs`, `lossless`, `cuplan`, `cu`, `cusyntax`, `tusyntax`, `cuqp`: a coding
  unit, its blocks and its syntax.
- `canvas`, `cumaps`, `ctu`, `strip`, `region`, `tiles`, `picture`: from units to the
  picture.
- `deblock`, `edgefilter`: the deblocking filter.
- `cost`, `split`, `nxn`, `activity`, `candidates`, `shortlist`, `trial`, `losstree`:
  what a search measures and which modes it tries.
- `exactness`, `order`, `agreement`, `unitsync`, `independence`, `locality`: what holds of
  whole pictures. A picture without loss is kept exactly, the units alone carry it, and
  each unit changes its own square.
- `evenfilter`, `hashlist`, `cabac::faithful`: what holds of the filter with one parameter,
  of the lists of equal blocks, and of the bins of a residual, which tell its levels.

A search for good modes and levels is handed in through the traits
`commit::LevelChooser` and `ctu::CuChooser`. Whatever it answers, the stream says what
was reconstructed. `app/` holds such a search, which weighs rate and distortion in
floating point, and a program that codes an image file and decodes it again.

Functions named `law_..` state what relates several functions.
