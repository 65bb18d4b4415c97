# ebay_scraper

Saves eBay listings: for each item ID in a text file, a headless browser loads
the listing page, the page is read into a record (title, description, image
links, seller's comment, price), and the record is written to
`<download>/<item id>/data.json` with the images beside it as `1.jpg`,
`2.png`, ...

Layout:

- `src/` is the library, verified with Verus:
  - `text.rs`: characters, trimming, words, punctuation removal, numerals;
  - `links.rs`: image link sanitizing, extension choice, repeat removal,
    file paths and the download plan of an item;
  - `page.rs`: reading a listing page and a description page (HTML parsing and
    CSS selection by the `scraper` crate, behind trusted wrappers);
  - `fetch.rs`: when a listing page is tried again;
  - `session.rs`: the item-ID file, the IDs still to fetch, the per-item
    browser recovery steps, the session log and GUI helpers.
- `tests/`: tests of the library.
- `app/`: the program: GUI (`eframe`, `rfd`), browser (`headless_chrome`),
  HTTP (`reqwest`), files and threads (`rayon`); it calls the library for every
  decision.
