# p2p_share

Sharing files between daemons on a local network, with a command-line client
that talks to its local daemon.

- `src/` is the verified library: the messages (`entities`), the daemon's
  decisions on its client's requests and on other daemons' requests
  (`daemon`), the bookkeeping of running transfers (`transfer`), the choice of
  the file size to trust (`fsizes`), the split of a file into block ranges
  (`blocks`), the pieces moved for a range (`plans`), the course of a download
  (`download`), scans and the self-address probe (`multicast`), the client's
  decisions (`cli`), log lines (`logger`), and the standalone daemon's
  variants (`classic`). Each function carries its contract; the laws that
  relate several functions are proof functions beside them (`law_*`).
- `app/` runs the daemon (`p2p_share daemon`) and the client (any other
  arguments): sockets, files, threads, JSON and the command line.
- `tests/` exercise the library on concrete values.
