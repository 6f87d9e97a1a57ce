# bop

The Book of Praise slide show: psalms and hymns typeset with LilyPond and
shown verse by verse.

- `src/` is the verified library: the song library and liturgy, the slide
  list and navigation, the splitting and assembling of LilyPond sources,
  pitch tracking in relative mode, the lyric check of rendered slides, the crop box of a rendered slide, the
  calendar behind usage entries and branch names, the updater's decisions,
  and the pull-request flow for edits.
- `app/` is the GTK application around it: windows and dialogs, files,
  running LilyPond, rasterizing slides, network and mail.
- `tests/` exercises the library on concrete values.
