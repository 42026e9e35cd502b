# skeptic

Tests the code examples in documents: an example is compiled with the libraries that the build of
its project made, and run if it is to be run.

- `src/` is the verified library. It decides what is to be done for a test, and does none of it
  itself: which packages the project is locked to, which build of each library the test is linked
  to, how the compiler is called, and what the verdict is. It also keeps what was worked out
  before, makes names for tests and cleans their lines.
- `app/` reads, writes and calls what the library asks for.
- `tests/` runs the library.
