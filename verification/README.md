# autoblur

The decisions behind a desktop tool that finds text in a video and blacks it out, verified with
Verus.

- `src/` is the library. It says what is asked of ffmpeg and ffprobe and what their answers mean, how
  frames are cut out of a raw stream and put in order, how an export is retried, reported and logged,
  and how the list of recent files is kept. Numbers that are floating point stay outside: the library
  hands out their numerals as text, or takes them as values of a type parameter.
- `app/` is the program around it: processes, files, the Windows recogniser and the Tauri window.
- `tests/` runs the library on what the tools would print and pipe.
