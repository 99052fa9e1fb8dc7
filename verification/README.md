# IP Config Tool

A Windows utility for connecting to Ethernet devices of unknown IP address, such
as PLCs, RTUs and energy meters. Its logic is a library that Verus verifies.

- `src/` is the library. Each module states what its functions do over a
  mathematical model, and ends with the laws that hold of them together.
  - `validate`: addresses, masks and gateways
  - `netiface`, `process`: what `netsh` reports of interfaces
  - `netconfig`: changing an interface and putting it back; backups
  - `autodetect`, `subnets`: the search for a subnet, saved subnets
  - `scanner`, `ipv6`: finding the hosts of a subnet and the neighbours on a link
  - `oui`, `identify`, `devices`: what a device is
  - `session`: the selected adapter, and when its settings are taken back
  - `vt`, `ansi`, `terminal`, `pty`, `tools`: programs in terminal tabs
  - `text`: characters and strings
- `app/` is the program around it: the window, files, commands and sockets. It
  reads the table of vendors from `oui.csv` beside the program, one
  `prefix,vendor` to a line.
- `tests/` runs the library on concrete values.

## What is promised

- The configuration of an adapter is saved before the first change, and the
  backup is deleted only after every command that puts it back has succeeded.
- Those commands cover the address, mask and gateway, and the name servers,
  also where they are set by hand and the address comes from DHCP. A fixed
  address of which nothing could be read is left alone.
- A change is taken back by itself after three minutes unless it is kept.
- Settings that are not valid are refused before anything is done.
- A search that finds nothing, fails or is cancelled puts the adapter back.
- Where a command fails, none that follows it is run, and its message is what is
  reported.
- A sweep that is cancelled asks no further host, and still tells those that the
  system already knows.

The one outside crate that the library calls is `vte`, which cuts the output of
a terminal program into operations; what is believed of it is in `src/vt.rs`.
