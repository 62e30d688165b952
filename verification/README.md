# httplogger

A proxy that logs the HTTP and WebSocket traffic that passes it, as a Verus library with a thin
program around it.

- `src/` holds the rules, and Verus proves them against their contracts:
  - `http_raw`, `http_message`: raw messages, heads, URLs, origins, and the form on disk
  - `filter`, `config`: the scope, the filters and the settings
  - `proxy`, `queues`: what is captured, and which response belongs to which request
  - `websocket`, `storage`, `csv`, `json`: what is kept of flows and sessions
  - `tls_hello`, `tls_mimic`, `peek`: the ClientHello of a client, and what is offered to servers
  - `browser`, `cli`, `ca`, `paths`: browsers, the command line and the certificate authority
  - `text`, `number`, `weburl`: what the others are made of
- `app/` does the I/O: the listener, the proxy, the database, files and processes.
- `tests/` runs the library on concrete values.

Proof functions whose names begin with `law_` state what holds of several functions together.
Functions marked `external_body`, and `assume_specification` items, are believed and not proved:
each says which outside function it calls and what it claims of it.

## Commands

```
httplogger init [--force]
httplogger proxy [--key PATH]
httplogger launch [--key PATH] [NAME|PATH] [--] [browser args...]
```
