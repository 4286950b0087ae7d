# whisper_gtk

Push-to-talk dictation: hold a hotkey, speak, and the transcript is typed into
the focused window.

The library under `src/` holds what the program decides and computes, proved with
Verus:

- `text`, `float`: texts on characters, and floating-point rounding on integers
- `audio`: decoding of recorded sound, its loudness, and whether it holds speech
- `recording`: which recording runs, what is captured, sound files and commands
- `pulse`: what is asked of the sound server and made of its answers
- `whisper`: which speech model is taken, and how its segments become a text
- `output`: how a text reaches the focused window
- `config`: the configuration, its defaults and bounds
- `hotkey`, `listener`: accelerators, and the keyboard events that matter
- `monitor`: where the overlay goes, and the search for windows
- `overlay`: the levels that the overlay shows
- `settings`: the settings dialog
- `tray`: the tray item, its menu and its icon
- `controller`: recordings from start to end, and transcripts in order

`tests/` runs the library on concrete values. `app/` is the program around it:
the windows, the display, the sound server and the speech model.
