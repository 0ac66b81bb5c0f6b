# taskbar_drawer

A launcher that lives in the Windows notification area: a popup drawer of
shortcuts to scripts and programs, opened from the tray icon or by dragging
over the tray.

- `src/` is the verified library: Windows path handling, the
  configuration and its shortcut list (adding, scanning, removing,
  reordering), launch planning, tray timing decisions, the drawer's per-frame
  decisions, and pixel buffers. Verus proves every function of it apart
  from a few calls into the standard library whose contracts it trusts; each
  public function states its result in a contract, except the clock
  reading, of which nothing can be promised. The `law_*` proof functions
  state properties that span several operations.
- `app/` is the Windows program around it: the egui window, Win32 calls, the
  tray icon, file dialogs, the configuration file and the log.
- `tests/` runs the library on concrete values.
