# silk

A small HTTP server framework.

`src/` is the verified library:

- `http::path` — path segments (`/home`, `/{name}`), their parser, and the
  routing tree (`HttpNodeTree`) that registers services under paths and looks
  paths up, binding pattern variables.
- `http::path_laws` — what holds of them: splitting a path loses nothing,
  a path written from plain segments parses back into them, the tree keeps
  static children in front and distinct, a lookup of a path without `{` or of
  an ASCII path never slices a text inside a character, a static route is found again in any
  such tree, a route on a fresh tree is found by every request that matches
  it, and registering a route that starts with a static segment leaves the
  lookups of paths that start elsewhere as they were.
- `http::request` — requests and the character-by-character parser that
  reads them; `http::request_laws` shows that it reads back a request's text.
- `http::response` — responses and their text.
- `http::extract` — values taken out of a request (headers, body).
- `router` — the router and the responses handlers give; `router_laws` states
  the finding laws over written paths, for one route and for routes side by
  side.
- `middleware` — middleware handlers, and the steps a request takes through
  them: each runs in turn until one answers the request itself.
- `text` — character helpers and the trusted wrappers around `String::push`,
  `String::from_utf8_lossy` and `HashMap`.

Handlers are carried as values of a type parameter `S`. `app/` supplies them
as boxed asynchronous services, and holds the connection loop, the server and
the handler parameters.
