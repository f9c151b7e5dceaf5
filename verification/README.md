# am_python

Python bindings for Scott Paine's `am` atmospheric model, with the decision
logic around the model written in Verus and proved against its contracts.

- `src/` is the verified library:
  - `text.rs`: white space, trimming, line splitting, prefixes and joining of
    character sequences, stated over `Seq<char>`;
  - `warnings.rs`: extracting, cleaning and de-duplicating the warning
    entries of `am`'s error log;
  - `model.rs`: which spectra a model offers (the requested-output mask, the
    computed flag), the parser's argument list, and failure messages;
  - `error.rs`: the library's errors, their messages, and the Python
    exception class each raises.
- `app/` is the PyO3 extension module: the calls into the `am` C library,
  the capture of its stderr and output streams, logging, and the Python
  classes. It expects the bindgen-generated `ffi.rs` for `am`'s headers.
- `tests/` exercises the library on concrete values.
