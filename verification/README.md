# ulla_site

The verified core of a small artist portfolio web site (projects, exhibitions,
biography, contact, and an admin area to edit them).

- `src/` is the library, verified with Verus: the text slicing and number
  formats the site relies on, record extraction and id allocation, multipart
  form collection, the exhibition lists (grouped by year; current ones with
  readable dates), the fragment cache, and what each page and admin action
  computes or answers.
- `app/` is the web server around it (actix-web, sqlx, askama): requests,
  database queries, file uploads, template rendering and the cache's lock.
- `tests/` exercises the library on concrete values.
