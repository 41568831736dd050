# ghtrending

Reads the GitHub trending pages (repositories and developers) into plain
records for a Neovim plugin, and keeps them in a cache file for twelve hours.

- `src/` is the verified library:
  - `text.rs`: trimming, splitting, replacing and `u32` parsing on strings,
    each stated over the string's characters;
  - `dom.rs`: a parsed HTML document as the events of a walk over its nodes
    (the parse, and the selection of a page's articles, are `scraper`'s),
    and selection of elements by tag and attribute value within an element,
    their text and their attributes;
  - `css.rs`: the value that a double-quoted CSS string stands for;
  - `trending.rs`: the records and how each is read from a page, with the
    laws that hold of every page read;
  - `cache.rs`: cache file names, expiry, and the length-prefixed frame that
    holds the cached JSON, with the law that reading a frame gives back what
    framing wrote.
- `app/` is the Lua module around it: HTTP fetching, file I/O, JSON, and the
  Lua tables handed to Neovim.
- `tests/` runs the library on concrete pages, strings and frames.
