# crab-gallery

A fast, self-contained image gallery. It keeps an in-memory index of one or more
image folders, updates it from file watcher events, and serves pages, scaled
previews, original files and uploads over HTTP.

The library (`src/`) holds the gallery's rules and is verified with Verus. The
server (`app/`) does the I/O around it.

| Module      | What it states                                                     |
| ----------- | ------------------------------------------------------------------ |
| `path`      | components, file names, extensions and prefixes of Unix paths      |
| `names`     | which files are images; how uploads are named and placed           |
| `dirs`      | configured folders and the keys `<dir>/<file>` of images in them   |
| `listing`   | the order of images, newest first, as a stable sort                |
| `index`     | the map and the list of all images, kept in step                   |
| `watch`     | what a scan and a watcher event lead to                            |
| `pages`     | lookups by title, the index page and the viewer page               |
| `cache`     | the LRU cache of previews, keyed by path, width and time           |
| `serve`     | the image endpoint: previews, entity tags, `304`                   |
| `upload`    | API keys, the two upload formats, what becomes of each file        |
| `codec`     | base64 with and without padding                                    |
| `dates`     | dates in templates                                                 |
| `templates` | which templates come from the compiled-in copies                   |
| `encoding`  | paths as text and as the bytes of that text                        |
| `text`      | small operations on text                                           |

Calls into other crates (`base64`, `chrono`, `form_urlencoded`, `multer`) go
through small wrappers whose contracts are taken on trust; each says in its doc
comment what it claims of the function it calls.
