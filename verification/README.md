# niri-taskbar

A taskbar and workspace switcher for [Waybar](https://github.com/Alexays/Waybar) under the
[Niri](https://github.com/YaLTeR/niri) compositor, with its logic verified by
[Verus](https://github.com/verus-lang/verus).

- `src/` is the library: what the buttons, pages, stacks, pills, menus and scroll wheel do, worked out
  from plain values. Every function states what it returns, and the laws that tie them together are
  public proof functions whose names start with `law_`.
- `app/` is the Waybar module around it: Gtk, D-Bus, files, Niri's socket, and everything that's
  floating point.
- `tests/` runs the library on concrete values.

Windows are ordered by workspace index, and then by window ID.

## What is taken on trust

Five functions from outside are described rather than proved: `String::push`, formatting a string with
`{:?}`, `str::to_lowercase`, and compiling a pattern and matching a title against it with the `regex`
crate. The comment on each says what's assumed of it.

Positions in between, colours and easing are floating point, so they live in `app/`. The library is
handed what it needs of them: how far a smooth scroll has got, or which side of a button's middle the
pointer is on.
