# blog_core

A verified library for two parts of a blog backend:

- `src/images.rs`: image file names (`Filename`, checked by
  `new_with_extension`: no parent directory, a non-empty extension after the
  last `.`) and image paths (`ImagePathBuf`, a directory and a file name).
- `src/markdown.rs`: the transform that turns each inline link and each fenced
  code block of a Markdown event stream into one component, and passes the
  other events through (`extend_parse`), with the laws it keeps.

`app/` holds what stays outside the verified library: parsing Markdown with
pulldown-cmark, converting its events, rendering the components with leptos,
writing the HTML, and creating directories for images.
