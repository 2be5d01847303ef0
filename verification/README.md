# svc_manager

A small service manager. It reads service files such as

```text
[service]
Requires=network,dbus
Program='/usr/bin/daemon --flag'
```

starts a service after the services it requires, and waits on Unix
sockets, timers and inotify watches for the events that wake services.

- `src/` is the library, verified with Verus: the service-file reader
  (`service.rs`, with laws over whole lines in `service_laws.rs` and over
  whole files in `file_laws.rs`), the
  dependency resolver (`manager.rs`), socket addresses (`net.rs`), the event
  cursor and inotify bookkeeping (`poller.rs`), and byte-string helpers
  (`text.rs`). Reading files, starting programs and the system calls are
  left to the caller: the reader and the resolver are state machines that
  are told what a read or an open gave and say what to do next.
- `app/` is the program: the system calls (through `libc`) that drive
  those state machines.
- `tests/` runs the library on concrete service files.
