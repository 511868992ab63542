# magicvision

Recognises Magic: The Gathering cards held up to a webcam, builds a deck
list from them and exports it for collection trackers (Moxfield,
Archidekt); a companion program, `refresh-database`, keeps the local card
database and card images in step with Scryfall.

- `src/` is the verified library (Verus):
  - `cache/card_cache.rs`: cached cards and faces, and the perceptual hash of
    an image file or a camera frame: the algorithm and grid size are
    constants of the library (`PHASH_ALG`, `HASH_SIDE`), handed to a single
    hashing call, and the contracts state a file's hash as the hash of its
    decoded pixels (`file_phash` and `frame_phash`, `same_pixels_same_hash`);
  - `cache/matching.rs`: Hamming-distance search for the closest cached faces,
    whole or split into ranges whose buffers are merged, with the laws of the
    search (`best_of_is_nearest`, `merged_best_is_nearest`);
  - `gui/deck_file_formats.rs`: deck lists (adding, removing, stable sorting) and the
    export line formats; `gui/app.rs`: match lookup and deck file contents;
  - `refresh_database/`: card records to download jobs, image file names,
    the retry and fallback steps of a fetch and the state they lead to,
    which images still need fetching, adding new cards to the cache, the bulk-data conversion to one record per line, the
    stored download address, and which old downloads to delete;
  - `text.rs`: string helpers (decimal numbers, code-point order).
- `app/` is the program around it: camera capture and OpenCV card
  detection, the egui window, file and network I/O, and JSON (de)serialisation.
- `tests/` runs the library on concrete values.
