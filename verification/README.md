# tto — Turn Them Off

A hard, timed block on every LLM reachable from a Mac: pick what to turn off
and until when, and nothing can end it early.

- `src/` is the verified library (Verus). It holds every decision the tool
  makes, each with a contract: the fenced section of `/etc/hosts` and how it
  is restored, which processes are stopped, the blocklist's precision rules
  and selection, how a block is merged and never shortened, what the daemon
  answers, how "2h", "tonight" or "until 07:00" are read, and what the menu
  shows. Laws that span several calls (rendering then releasing restores the
  hosts file, a block only grows, a relocated install keeps its layout) are
  public proof functions beside the code they speak of.
- `app/` is the program around it: the command line, the root daemon's
  socket, timer and files, process listing and signals through libc, and
  the AppKit menu bar app on macOS.
- `tests/` runs the library on concrete values.
