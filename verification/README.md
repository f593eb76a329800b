# tagger

Tagger tags the images of a folder and filters them by their tags. The
tags of a folder live in one small file, `tag.yff`, inside the folder.

The library (`src/`) is verified with Verus:

- `text_util`: tag names and shortened display text.
- `tag`: tags and their byte form.
- `entry`: folder listings, the images and sub-folders they hold.
- `metadata`: the layout of the tag file, reading it and writing it;
  `metadata_laws` proves that what is written reads back.
- `compress`: dropping unused tags and renumbering the rest.
- `search`: the search language (`a b` both, `-a` not, `a,b` either,
  parentheses), its reading and the filter it gives for every expression;
  `search_laws` proves what a plain search of tag names returns.
- `state`: the application state and how each user message changes it,
  including the keys (arrows move through the collection, space puts the
  selected image in or takes it out); `state_laws` proves what pairs of
  messages undo, and `count_laws` that every message that can be
  handled keeps each tag's count equal to the number of images that carry
  it, saving (which drops unused tags) included.

`app/` is the iced window around the library: it reads and writes files,
loads thumbnails, and draws the state.
