-- The tables, views and functions of the Postgres store.

CREATE SCHEMA IF NOT EXISTS kb;

CREATE TABLE kb.node (
  id          bigserial PRIMARY KEY,
  parent_id   bigint NULL REFERENCES kb.node(id),
  name        text NOT NULL,
  kind        smallint NOT NULL,            -- 0 folder, 1 file
  path        text NOT NULL,
  root        bytea NULL,
  version     bigint NOT NULL DEFAULT 0,
  nbytes      bigint, nlines bigint,
  created_at  timestamptz NOT NULL DEFAULT now(),
  updated_at  timestamptz NOT NULL DEFAULT now(),
  updated_by  text,
  deleted_at  timestamptz NULL,
  nwords      bigint,                       -- file: words, as wc -w counts them
  nauthors    bigint,                       -- file: distinct commit authors (kb.file_author rows)
  -- What the structure extractor found, counted once at commit so a listing can say
  -- "12 headings, 4 properties, 2 links, 1 broken" without a query per row.
  title           text,
  nsections       bigint NOT NULL DEFAULT 0,
  nprops          bigint NOT NULL DEFAULT 0,
  nlinks          bigint NOT NULL DEFAULT 0,
  nlinks_broken   bigint NOT NULL DEFAULT 0,
  -- Folder: totals of every live node below it, as of the last kb.compact_folder_totals();
  -- kb.folder_delta holds the changes since. Zero on files.
  t_files      bigint NOT NULL DEFAULT 0,
  t_folders    bigint NOT NULL DEFAULT 0,
  t_bytes      bigint NOT NULL DEFAULT 0,
  t_lines      bigint NOT NULL DEFAULT 0,
  t_words      bigint NOT NULL DEFAULT 0,
  t_versions   bigint NOT NULL DEFAULT 0,
  t_sections     bigint NOT NULL DEFAULT 0,
  t_props        bigint NOT NULL DEFAULT 0,
  t_links        bigint NOT NULL DEFAULT 0,
  t_links_broken bigint NOT NULL DEFAULT 0,
  t_updated_at timestamptz NULL,
  t_updated_by text NULL                      -- and who made that change, so a folder names an author
);
CREATE UNIQUE INDEX node_path ON kb.node(path text_pattern_ops) WHERE deleted_at IS NULL;
CREATE UNIQUE INDEX node_parent_name ON kb.node(parent_id, name) WHERE deleted_at IS NULL;
CREATE INDEX node_parent ON kb.node(parent_id);
-- Link resolution looks files up by path and name, ignoring case.
CREATE INDEX node_lower_path ON kb.node(lower(path)) WHERE deleted_at IS NULL;
CREATE INDEX node_lower_name ON kb.node(lower(name)) WHERE deleted_at IS NULL;
INSERT INTO kb.node(parent_id, name, kind, path) VALUES (NULL, '', 0, '/');

CREATE TABLE kb.commit (
  file_id bigint NOT NULL, version bigint NOT NULL, root bytea NOT NULL, parent_root bytea NULL,
  author text, ts timestamptz NOT NULL DEFAULT now(), message text, nbytes bigint, nlines bigint,
  kind text,                -- direct, rebased, merged
  base_version bigint,      -- the version the writer started from (NULL for version 1)
  batch text,               -- the batch (session setting textdb.batch) the commit belongs to
  PRIMARY KEY (file_id, version)
, nwords bigint);
-- Change feed: one row per create, commit, mkdir, move and delete, written in the same
-- transaction as the change; each row is also announced with pg_notify('textdb_change', seq).
CREATE TABLE kb.change (
  seq          bigserial PRIMARY KEY,
  ts           timestamptz NOT NULL DEFAULT now(),
  op           text NOT NULL,        -- create, commit, mkdir, move, delete
  node_id      bigint NOT NULL,
  node_kind    smallint NOT NULL,    -- 0 folder, 1 file
  path         text NOT NULL,        -- the path after the change
  old_path     text,                 -- move: the path before
  version      bigint,               -- create, commit: the new version
  base_version bigint,               -- commit: the version the writer started from
  commit_kind  text,                 -- create, commit: direct, rebased, merged
  author       text,
  message      text,
  batch        text                  -- the batch (session setting textdb.batch) the change belongs to
);
CREATE INDEX change_node ON kb.change(node_id);
CREATE INDEX change_batch ON kb.change(batch) WHERE batch IS NOT NULL;
CREATE TABLE kb.chunk (
  id bigserial PRIMARY KEY, hash bytea NOT NULL UNIQUE, bytes bytea NOT NULL, nlines int NOT NULL
);
CREATE TABLE kb.tree_node (hash bytea PRIMARY KEY, children bytea NOT NULL);
CREATE TABLE kb.chunk_ref (chunk_id bigint NOT NULL, file_id bigint NOT NULL, version bigint NOT NULL, PRIMARY KEY (chunk_id, file_id));
CREATE TABLE kb.section (file_id bigint NOT NULL, version bigint NOT NULL, heading_path text NOT NULL, level int NOT NULL, line_from bigint NOT NULL, line_to bigint NOT NULL,
  heading text NOT NULL DEFAULT '',            -- the last component of heading_path, as written
  heading_lc text NOT NULL DEFAULT '',         -- folded, so a match is an index seek
  -- The section's own lines, and it plus everything nested under it. Words never span a line
  -- and sections partition by line, so both are exact and the totals compose.
  nwords bigint, nwords_total bigint);
CREATE INDEX section_file ON kb.section(file_id, version);
CREATE INDEX section_heading ON kb.section(heading_lc text_pattern_ops);
CREATE INDEX section_level ON kb.section(level);
-- Links as written (target without anchor or alias), and what each resolves to by the rules the
-- stores share (textdb_md::resolve). target_name (last segment, lower case, without .md) finds
-- the rows a created, moved or deleted file can change.
CREATE TABLE kb.link (
  id          bigserial PRIMARY KEY,
  file_id     bigint NOT NULL,
  version     bigint NOT NULL,
  target_path text NOT NULL,
  line        bigint NOT NULL,
  kind        text,                          -- wiki, embed, md, image
  anchor      text,                          -- heading or ^block after #
  alias       text,
  external    boolean NOT NULL DEFAULT false,-- URL, email, query, numbered reference
  target_name text,
  resolved_id bigint,                        -- the file it points to
  status      text                           -- ok, ambiguous, anchor-missing, folder, broken, not-in-store, external
);
CREATE INDEX link_file ON kb.link(file_id, version);
CREATE INDEX link_target_name ON kb.link(target_name);
CREATE INDEX link_resolved ON kb.link(resolved_id);
CREATE TABLE kb.frontmatter (file_id bigint NOT NULL, version bigint NOT NULL, data jsonb, PRIMARY KEY (file_id, version));
-- One row per (document, property path, value), derived from `frontmatter` at every commit.
-- jsonb can be searched without this, but only by scanning: containment ran 9-12 ms over
-- 50,000 notes and `jsonb_object_keys` — the query behind "what properties does this vault
-- use" — took 1,007 ms. These rows make both an index seek, and give the same shape as the
-- SQLite binding so one query text means the same thing on either.
CREATE TABLE kb.property (
  file_id bigint NOT NULL,
  version bigint NOT NULL,
  key     text NOT NULL,                 -- dotted path as written: `project.name`
  key_lc  text NOT NULL,                 -- and folded, which is what the indexes carry
  val_txt text NULL,
  val_lc  text NULL,
  val_num double precision NULL,
  ord     bigint NOT NULL DEFAULT 0
);
CREATE INDEX property_kv ON kb.property(key_lc, val_lc);
CREATE INDEX property_kn ON kb.property(key_lc, val_num);
CREATE INDEX property_file ON kb.property(file_id);
CREATE TABLE kb.checkpoint (name text NOT NULL, file_id bigint NOT NULL, path text NOT NULL, root bytea NOT NULL, version bigint NOT NULL, PRIMARY KEY (name, file_id));
-- Path history (textdb_core::path): one row per node a rename, move or delete touched — the
-- node it named and everything below a folder — next to the versions in kb.commit.
CREATE TABLE kb.path_event (
  id          bigserial PRIMARY KEY,
  node_id     bigint NOT NULL,
  node_kind   smallint NOT NULL,     -- 0 folder, 1 file
  op          text NOT NULL,         -- rename, move, delete
  ts          timestamptz NOT NULL DEFAULT now(),
  author      text,
  old_path    text NOT NULL,
  new_path    text,                  -- rename, move: the path after
  via         text,                  -- the folder the operation named, when this node went with it
  version     bigint,                -- a file's version when it happened
  change_seq  bigint                 -- the kb.change row of the operation
);
CREATE INDEX path_event_node ON kb.path_event(node_id, id);
-- Store settings, e.g. path_history = on | off. A missing row means the default.
CREATE TABLE kb.setting (key text PRIMARY KEY, value text NOT NULL);
-- Who wrote each file: one row per (file, author) with that author's commits; '' is a commit
-- without an author.
CREATE TABLE kb.file_author (
  file_id  bigint NOT NULL,
  author   text NOT NULL,
  commits  bigint NOT NULL,
  first_ts timestamptz NOT NULL,
  last_ts  timestamptz NOT NULL,
  PRIMARY KEY (file_id, author)
);
-- Changes to folder totals, one row per folder above each commit, mkdir, move and delete.
-- Insert-only, so concurrent writers never wait on a shared ancestor's row (updating the root
-- folder's totals in place would serialize every commit in the store). kb.entry adds them to
-- the node rows; kb.compact_folder_totals() folds them in.
CREATE TABLE kb.folder_delta (
  folder_id bigint NOT NULL,
  files     bigint NOT NULL,
  folders   bigint NOT NULL,
  bytes     bigint NOT NULL,
  lines     bigint NOT NULL,
  words     bigint NOT NULL,
  versions  bigint NOT NULL,
  sections      bigint NOT NULL DEFAULT 0,
  props         bigint NOT NULL DEFAULT 0,
  links         bigint NOT NULL DEFAULT 0,
  links_broken  bigint NOT NULL DEFAULT 0,
  ts        timestamptz NOT NULL DEFAULT now(),
  updated_by text NULL                        -- the author of this change, carried with its ts
);
CREATE INDEX folder_delta_folder ON kb.folder_delta(folder_id);
-- textdb sync (the CLI): what a store folder and a directory held when they were last
-- reconciled, with the git commit the checkout was at, and each file both sides agreed on.
-- The CLI also creates these IF NOT EXISTS, for stores installed before they were added.
CREATE TABLE kb.sync (
  id bigserial PRIMARY KEY, prefix text NOT NULL, dir text NOT NULL, seq bigint NOT NULL,
  synced_at timestamptz NOT NULL DEFAULT now(), author text,
  git_commit text, git_branch text, git_remote text, git_clean boolean,
  rules text,               -- the include rules of that sync, as JSON
  UNIQUE (prefix, dir)
);
CREATE TABLE kb.sync_file (
  sync_id bigint NOT NULL REFERENCES kb.sync(id) ON DELETE CASCADE, rel text NOT NULL,
  version bigint, blob text NOT NULL, disk_size bigint, disk_mtime bigint,
  conflict boolean NOT NULL DEFAULT false,
  PRIMARY KEY (sync_id, rel)
);
-- Asset stores (docs/assets.md): where the bytes of assets are kept. Each computer binds a store
-- to where it reaches it (a folder, an rclone remote); `root` is the store-side identity. The CLI
-- also creates this IF NOT EXISTS.
CREATE TABLE kb.asset_store (
  name text PRIMARY KEY, driver text NOT NULL, root text NOT NULL, options text,
  created_at timestamptz NOT NULL DEFAULT now()
);

-- Accounts, bearer tokens and folder-scoped grants. The same three tables as SQLite's
-- kb_account / kb_token / kb_grant, so one access model serves both engines.
CREATE TABLE kb.account (
  id           bigserial PRIMARY KEY,
  name         text NOT NULL UNIQUE,
  kind         text NOT NULL,                        -- 'agent' | 'person'
  root_node_id bigint NULL REFERENCES kb.node(id),   -- single-root accounts only
  created_at   timestamptz NOT NULL DEFAULT now(),
  disabled_at  timestamptz NULL
);
CREATE TABLE kb.token (
  id           bigserial PRIMARY KEY,
  account_id   bigint NOT NULL REFERENCES kb.account(id),
  hash         text NOT NULL UNIQUE,                 -- sha256 of the bearer, hex
  label        text,
  created_at   timestamptz NOT NULL DEFAULT now(),
  expires_at   timestamptz NULL,
  revoked_at   timestamptz NULL,
  last_used_at timestamptz NULL
);
CREATE INDEX token_account ON kb.token(account_id);
CREATE TABLE kb.grant (
  account_id  bigint NOT NULL REFERENCES kb.account(id),
  node_id     bigint NOT NULL REFERENCES kb.node(id),
  alias       text NOT NULL,                         -- '' for a single-root account
  rights      text NOT NULL,                         -- 'ro' | 'rw'
  granted_by  text,
  granted_at  timestamptz NOT NULL DEFAULT now(),
  -- A revoked grant keeps its row: an account whose checkout still holds the files must be told
  -- `forbidden`, not `not found`, or its next sync deletes them.
  revoked_at  timestamptz NULL,
  PRIMARY KEY (account_id, node_id)
);
CREATE UNIQUE INDEX grant_alias ON kb.grant(account_id, alias);

-- The connection's account, from the `textdb.token` GUC. NULL when no token is set, which is the
-- owner: whoever can connect to the database directly already has everything, so
-- "no token" meaning owner costs nothing and claims nothing.
--
-- STABLE, not IMMUTABLE: it reads a table and a GUC, and the planner must not fold it across a
-- `SET textdb.token` inside one statement batch.
CREATE FUNCTION kb.current_account() RETURNS bigint LANGUAGE sql STABLE AS $$
  SELECT t.account_id
    FROM kb.token t JOIN kb.account a ON a.id = t.account_id
   WHERE t.hash = encode(sha256(convert_to(nullif(current_setting('textdb.token', true), ''), 'UTF8')), 'hex')
     AND t.revoked_at IS NULL
     AND (t.expires_at IS NULL OR t.expires_at > now())
     AND a.disabled_at IS NULL
$$;

-- Set the connection's token, the counterpart of SQLite's textdb_auth(). Returns the account
-- name, or raises TX005 if the bearer is not usable — one message for unknown, expired and
-- revoked alike, because telling them apart is free information for whoever is guessing.
CREATE FUNCTION kb.auth(bearer text) RETURNS text LANGUAGE plpgsql AS $$
DECLARE who text;
BEGIN
  PERFORM set_config('textdb.token', coalesce(bearer, ''), false);
  SELECT a.name INTO who FROM kb.account a WHERE a.id = kb.current_account();
  IF who IS NULL THEN
    PERFORM set_config('textdb.token', '', false);
    PERFORM kb._raise('TX005', 'this token is not usable: it is unknown, expired or revoked', NULL);
  END IF;
  UPDATE kb.token SET last_used_at = now()
   WHERE hash = encode(sha256(convert_to(bearer, 'UTF8')), 'hex');
  RETURN who;
END $$;

-- This connection's grants, with each share root's *current* path: a grant binds to the node, so
-- the owner renaming or moving the shared folder leaves the account's paths untouched. A share
-- root in the trash comes back dormant — its alias disappears, but the grant is still there, and
-- that is what keeps `sync` from deleting a checkout.
CREATE VIEW kb.my_grant AS
  SELECT g.account_id, g.node_id, g.alias, g.rights, n.path AS store_path,
         -- `dormant` here means "you hold it and may not use it", whichever way: its folder is
         -- in the trash, or the grant was taken away. Both answer forbidden, never not-found.
         (n.deleted_at IS NOT NULL OR g.revoked_at IS NOT NULL) AS dormant,
         (g.revoked_at IS NOT NULL) AS revoked
    FROM kb.grant g JOIN kb.node n ON n.id = g.node_id
   WHERE g.account_id = kb.current_account();

-- Path translation and the visibility test, the two questions every surface asks.
--
-- **Read the `(SELECT kb.current_account())` carefully.** Written bare, `kb.current_account()` is
-- a STABLE function the planner may call once per row, and these are used in the target list and
-- the WHERE clause of every listing — so the owner, who delegates nothing, would pay a function
-- call per row for a feature they do not use. As an uncorrelated scalar subquery it becomes an
-- InitPlan, evaluated once for the whole statement, and the OR then short-circuits on a boolean
-- constant. That is the difference between "costs nothing if you don't use it" as a claim and as
-- a measured fact.

-- Can this connection see this store path at all?
CREATE FUNCTION kb.visible(p text) RETURNS boolean LANGUAGE sql STABLE AS $$
  SELECT (SELECT kb.current_account()) IS NULL
      OR EXISTS (SELECT 1 FROM kb.my_grant g
                  WHERE NOT g.dormant AND (p = g.store_path OR p LIKE kb._subtree_like(g.store_path)))
$$;

-- The same, for an operation that writes.
CREATE FUNCTION kb.writable(p text) RETURNS boolean LANGUAGE sql STABLE AS $$
  SELECT (SELECT kb.current_account()) IS NULL
      OR EXISTS (SELECT 1 FROM kb.my_grant g
                  WHERE NOT g.dormant AND g.rights = 'rw'
                    AND (p = g.store_path OR p LIKE kb._subtree_like(g.store_path)))
$$;

-- A store path as this connection sees it; NULL when it sees nothing there. A single-root
-- account's share root is its `/`; an aliased account's is `/<alias>`.
CREATE FUNCTION kb.to_view(p text) RETURNS text LANGUAGE sql STABLE AS $$
  SELECT CASE WHEN (SELECT kb.current_account()) IS NULL THEN p ELSE (
    SELECT CASE WHEN g.alias = ''
                THEN coalesce(nullif(substr(p, length(g.store_path) + 1), ''), '/')
                ELSE '/' || g.alias || substr(p, length(g.store_path) + 1) END
      FROM kb.my_grant g
     WHERE NOT g.dormant AND (p = g.store_path OR p LIKE kb._subtree_like(g.store_path))
     LIMIT 1
  ) END
$$;

-- A path as this connection wrote it, as a store path. NULL for anything it cannot address,
-- which the caller turns into TX003 or TX005 — `kb.resolve` below makes that choice once.
CREATE FUNCTION kb.to_store(p text) RETURNS text LANGUAGE sql STABLE AS $$
  SELECT CASE WHEN (SELECT kb.current_account()) IS NULL THEN p
              -- An aliased account's root is the store root as far as addressing goes: it is
              -- where its shares hang, and a listing of it is a listing of them. Nothing can be
              -- written there, which `kb.resolve(p, true)` refuses separately.
              WHEN p = '/' AND NOT EXISTS (SELECT 1 FROM kb.my_grant WHERE alias = '') THEN '/'
              ELSE (
    SELECT CASE
      -- A single-root account: its root *is* the share.
      WHEN g.alias = '' THEN CASE WHEN p = '/' THEN g.store_path ELSE g.store_path || p END
      -- An aliased account: the first segment is the alias, the rest is the real subtree.
      WHEN p = '/' || g.alias THEN g.store_path
      ELSE g.store_path || substr(p, length(g.alias) + 2)
    END
      FROM kb.my_grant g
     WHERE NOT g.dormant
       AND (g.alias = '' OR p = '/' || g.alias OR p LIKE (replace(replace(replace('/' || g.alias, '\', '\\'), '%', '\%'), '_', '\_') || '/%'))
     LIMIT 1
  ) END
$$;

-- Resolve a caller's path, raising the right refusal when it does not resolve.
--
-- The whole point of TX005 lives here: a path under an alias the account *has* — one whose share
-- root is in the trash — is forbidden, while a path under no alias of theirs is simply not found.
-- `sync` deletes what is absent from the store and leaves alone what it is merely forbidden, so
-- conflating the two is what would empty a checkout when a share is revoked.
CREATE FUNCTION kb.resolve(p text, need_write boolean DEFAULT false) RETURNS text LANGUAGE plpgsql STABLE AS $$
DECLARE sp text; a text;
BEGIN
  IF kb.current_account() IS NULL THEN RETURN p; END IF;
  sp := kb.to_store(p);
  IF sp IS NOT NULL THEN
    IF need_write AND NOT kb.writable(sp) THEN
      PERFORM kb._raise('TX005', 'you have read-only access to ' || p, '');
    END IF;
    RETURN sp;
  END IF;
  -- Not addressable. Is it under a dormant share of this account's, or under nothing at all?
  SELECT g.alias INTO a FROM kb.my_grant g
   WHERE g.dormant AND (g.alias = '' OR p = '/' || g.alias OR p LIKE ('/' || g.alias || '/%')) LIMIT 1;
  IF FOUND THEN
    PERFORM kb._raise('TX005', p || ': its folder is in the trash', '');
  END IF;
  PERFORM kb._raise('TX003', 'not found: ' || p, '');
  RETURN NULL;
END $$;

-- Custom SQLSTATEs: TX001 conflict, TX002 contention, TX003 not found, TX004 invalid edit,
-- TX005 forbidden: it is in your view and you may not do this, as distinct from not being there.
CREATE FUNCTION kb._raise(code text, msg text, detail text) RETURNS void LANGUAGE plpgsql AS $$
BEGIN RAISE EXCEPTION USING ERRCODE = code, MESSAGE = msg, DETAIL = coalesce(detail, ''); END $$;

-- LIKE pattern matching every path strictly under the folder `p`.
--
-- `p || '/%'` on its own is wrong whenever a folder name contains a LIKE wildcard: for
-- `/100%_done` the pattern `/100%_done/%` also matches `/100XXXdone/b.md`, so a folder's
-- byte total counted other folders' files and a search scoped to one folder returned
-- documents from another. Escaping the prefix makes the match literal.
--
-- It stays a prefix test rather than a `>= … < …` range on purpose. `node_path` is a
-- `text_pattern_ops` index, which serves `LIKE 'literal%'` under any database collation,
-- where a range comparison would need the database's collation to agree with byte order.
-- IMMUTABLE so the planner folds it and can still extract the literal prefix.
CREATE FUNCTION kb._subtree_like(p text) RETURNS text LANGUAGE sql IMMUTABLE PARALLEL SAFE AS
$$ SELECT replace(replace(replace(p, '\', '\\'), '%', '\%'), '_', '\_') || '/%' $$;

-- An on/off value: on, true, yes, 1 / off, false, no, 0 in any case; NULL for anything else.
CREATE FUNCTION kb._switch(v text) RETURNS boolean LANGUAGE sql IMMUTABLE PARALLEL SAFE AS $$
  SELECT CASE lower(btrim(v, E' \t\r\n')) WHEN 'on' THEN true WHEN 'true' THEN true WHEN 'yes' THEN true WHEN '1' THEN true
                             WHEN 'off' THEN false WHEN 'false' THEN false WHEN 'no' THEN false WHEN '0' THEN false END
$$;

-- Store settings. kb.setting(key) is NULL at the default; kb.set_setting(key, NULL) returns a
-- setting to its default. path_history is on or off; link_updates (what a move does to links
-- that pointed at what moved) is off, report or rewrite; asset_sync (what `textdb sync` does
-- with assets) is off, push, pull or both; asset_pull (which assets it pulls) is linked or all.
CREATE FUNCTION kb.setting(k text) RETURNS text LANGUAGE plpgsql STABLE AS $$
BEGIN
  IF k IS NULL OR k NOT IN ('path_history', 'link_updates', 'asset_sync', 'asset_pull') THEN
    PERFORM kb._raise('TX004', format('unknown setting ''%s'' (known: path_history, link_updates, asset_sync, asset_pull)', k), NULL);
  END IF;
  RETURN (SELECT s.value FROM kb.setting s WHERE s.key = k);
END $$;
CREATE FUNCTION kb.set_setting(k text, v text) RETURNS text LANGUAGE plpgsql VOLATILE AS $$
DECLARE norm text;
BEGIN
  IF k IS NULL OR k NOT IN ('path_history', 'link_updates', 'asset_sync', 'asset_pull') THEN
    PERFORM kb._raise('TX004', format('unknown setting ''%s'' (known: path_history, link_updates, asset_sync, asset_pull)', k), NULL);
  END IF;
  IF v IS NULL THEN
    DELETE FROM kb.setting s WHERE s.key = k;
    RETURN NULL;
  END IF;
  IF k = 'link_updates' THEN
    norm := lower(btrim(v, E' \t\r\n'));
    IF norm NOT IN ('off', 'report', 'rewrite') THEN
      PERFORM kb._raise('TX004', format('%s is off, report or rewrite, not ''%s''', k, v), NULL);
    END IF;
  ELSIF k = 'asset_sync' THEN
    -- What sync does with assets: off (lists them), push, pull or both.
    norm := lower(btrim(v, E' \t\r\n'));
    IF norm NOT IN ('off', 'push', 'pull', 'both') THEN
      PERFORM kb._raise('TX004', format('%s is off, push, pull, both, not ''%s''', k, v), NULL);
    END IF;
  ELSIF k = 'asset_pull' THEN
    -- Which assets sync pulls: linked (the ones notes link to) or all.
    norm := lower(btrim(v, E' \t\r\n'));
    IF norm NOT IN ('linked', 'all') THEN
      PERFORM kb._raise('TX004', format('%s is linked, all, not ''%s''', k, v), NULL);
    END IF;
  ELSE
    IF kb._switch(v) IS NULL THEN
      PERFORM kb._raise('TX004', format('%s is on or off, not ''%s''', k, v), NULL);
    END IF;
    norm := CASE WHEN kb._switch(v) THEN 'on' ELSE 'off' END;
  END IF;
  INSERT INTO kb.setting AS s (key, value) VALUES (k, norm)
    ON CONFLICT ON CONSTRAINT setting_pkey DO UPDATE SET value = EXCLUDED.value;
  RETURN kb.setting(k);
END $$;

-- Whether renames, moves and deletes are recorded: this session's textdb.path_history
-- (SET textdb.path_history = off, or ALTER ROLE / ALTER DATABASE … SET for a default), else the
-- store's path_history setting, else on.
CREATE FUNCTION kb.path_history_enabled() RETURNS boolean LANGUAGE sql STABLE AS $$
  SELECT coalesce(kb._switch(nullif(current_setting('textdb.path_history', true), '')),
                  kb._switch(kb.setting('path_history')),
                  true)
$$;

-- Full-text index over chunks: insert-only by construction (claim 3).
ALTER TABLE kb.chunk ADD COLUMN tsv tsvector GENERATED ALWAYS AS (to_tsvector('simple', kb.chunk_text(bytes))) STORED;
CREATE INDEX chunk_tsv ON kb.chunk USING gin(tsv);

CREATE VIEW kb.file AS
  -- The minimal listing tier plus what only a file has: its content and parsed front matter.
  -- `parent_path` is now `dir`, the one name for it across every surface.
  SELECT n.path, n.name, 'file'::text AS kind, n.version,
         coalesce(n.nbytes, 0) AS nbytes, coalesce(n.nlines, 0) AS nlines,
         n.updated_at, n.updated_by,
         n.id,
         CASE WHEN strpos(reverse(n.path), '/') = length(n.path) THEN '/'
              ELSE left(n.path, length(n.path) - strpos(reverse(n.path), '/')) END AS dir,
         kb._materialize(n.root) AS content,
         (SELECT fm.data FROM kb.frontmatter fm WHERE fm.file_id = n.id AND fm.version = n.version) AS frontmatter,
         NULL::bigint AS base_version
  FROM kb.node n
  WHERE n.kind = 1 AND n.deleted_at IS NULL;

CREATE VIEW kb.file_version AS
  SELECT n.id, n.path, c.version, kb._materialize(c.root) AS content,
         CASE WHEN c.version > 1 THEN c.version - 1 END AS parent_version,
         c.author, c.ts, c.message
  FROM kb.commit c JOIN kb.node n ON n.id = c.file_id;

-- Files and folders as a listing shows them. A folder's size, lines, words and versions are
-- totals over every live file below it: its node row plus the kb.folder_delta rows not yet
-- folded in. `authors`: a file's committers, most commits first.
CREATE VIEW kb.entry AS
  -- The canonical listing record: the same twenty-four columns in the same order as
  -- textdb_ls and textdb_entry on SQLite, so one query text reads on either engine.
  -- `v.p` is the path in the *caller's* namespace: the store's own for the owner, and for an
  -- account the one under its alias. Computed once per row in the LATERAL below and used for
  -- `path`, `name`, `dir` and `depth`, so a listing never quotes a store path at an account and
  -- an account's own path is what comes back everywhere.
  SELECT v.p AS path,
         CASE WHEN v.p = '/' THEN '/' ELSE right(v.p, strpos(reverse(v.p), '/') - 1) END AS name,
         CASE n.kind WHEN 1 THEN 'file' ELSE 'folder' END AS kind,
         CASE n.kind WHEN 1 THEN n.version END AS version,
         CASE n.kind WHEN 1 THEN coalesce(n.nbytes, 0) ELSE n.t_bytes + coalesce(d.bytes, 0) END AS nbytes,
         CASE n.kind WHEN 1 THEN coalesce(n.nlines, 0) ELSE n.t_lines + coalesce(d.lines, 0) END AS nlines,
         CASE n.kind WHEN 1 THEN n.updated_at ELSE greatest(n.updated_at, n.t_updated_at, d.ts) END AS updated_at,
         -- Whoever made the newest change below the folder: the journal's newest row, the folded
         -- total, or the folder's own row, in that order of recency.
         CASE WHEN n.kind = 1 THEN n.updated_by
              WHEN d.updated_by IS NOT NULL AND d.ts >= greatest(n.updated_at, coalesce(n.t_updated_at, n.updated_at)) THEN d.updated_by
              WHEN n.t_updated_at IS NOT NULL AND n.t_updated_at >= n.updated_at THEN n.t_updated_by
              ELSE n.updated_by END AS updated_by,
         n.id,
         -- One name for the parent, on both engines and every surface.
         CASE WHEN v.p = '/' THEN NULL
              WHEN strpos(reverse(v.p), '/') = length(v.p) THEN '/'
              ELSE left(v.p, length(v.p) - strpos(reverse(v.p), '/')) END AS dir,
         CASE WHEN v.p = '/' THEN 0 ELSE length(v.p) - length(replace(v.p, '/', '')) END::bigint AS depth,
         CASE WHEN n.kind = 1 AND strpos(reverse(n.name), '.') > 1 AND strpos(reverse(n.name), '.') < length(n.name)
              THEN lower(right(n.name, strpos(reverse(n.name), '.') - 1)) END AS ext,
         n.title,
         CASE n.kind WHEN 1 THEN coalesce(n.nwords, 0) ELSE n.t_words + coalesce(d.words, 0) END AS nwords,
         CASE n.kind WHEN 1 THEN n.nsections ELSE n.t_sections + coalesce(d.sections, 0) END AS nsections,
         CASE n.kind WHEN 1 THEN n.nprops ELSE n.t_props + coalesce(d.props, 0) END AS nprops,
         CASE n.kind WHEN 1 THEN n.nlinks ELSE n.t_links + coalesce(d.links, 0) END AS nlinks,
         CASE n.kind WHEN 1 THEN n.nlinks_broken ELSE n.t_links_broken + coalesce(d.links_broken, 0) END AS nlinks_broken,
         CASE n.kind WHEN 1 THEN n.version ELSE n.t_versions + coalesce(d.versions, 0) END AS versions,
         n.created_at,
         CASE n.kind WHEN 0 THEN n.t_files + coalesce(d.files, 0) END AS files,
         CASE n.kind WHEN 0 THEN n.t_folders + coalesce(d.folders, 0) END AS folders,
         CASE n.kind WHEN 1 THEN coalesce(n.nauthors, 0) ELSE (
           SELECT count(DISTINCT a.author) FROM kb.file_author a JOIN kb.node f ON f.id = a.file_id
            WHERE f.deleted_at IS NULL AND f.kind = 1
              AND f.path >= CASE n.path WHEN '/' THEN '/' ELSE n.path || '/' END
              AND f.path < CASE n.path WHEN '/' THEN '0' ELSE n.path || '0' END) END AS nauthors,
         CASE n.kind WHEN 1 THEN coalesce(
           (SELECT jsonb_agg(jsonb_build_object('author', nullif(a.author, ''), 'commits', a.commits, 'first_ts', a.first_ts, 'last_ts', a.last_ts)
                             ORDER BY a.commits DESC, a.last_ts DESC)
            FROM kb.file_author a WHERE a.file_id = n.id), '[]'::jsonb)
         ELSE '[]'::jsonb END AS authors,
         -- The access tier. NULL for the owner, who reaches everything directly; for an
         -- account, the share this row came through and its rights.
         (SELECT g.alias FROM kb.my_grant g
           WHERE NOT g.dormant AND (n.path = g.store_path OR n.path LIKE kb._subtree_like(g.store_path)) LIMIT 1) AS share,
         (SELECT g.rights FROM kb.my_grant g
           WHERE NOT g.dormant AND (n.path = g.store_path OR n.path LIKE kb._subtree_like(g.store_path)) LIMIT 1) AS rights
  FROM kb.node n
  CROSS JOIN LATERAL (SELECT CASE WHEN (SELECT kb.current_account()) IS NULL THEN n.path ELSE kb.to_view(n.path) END AS p) v
  LEFT JOIN LATERAL (
    SELECT sum(x.files)::bigint AS files, sum(x.folders)::bigint AS folders, sum(x.bytes)::bigint AS bytes,
           sum(x.lines)::bigint AS lines, sum(x.words)::bigint AS words, sum(x.versions)::bigint AS versions,
           sum(x.sections)::bigint AS sections, sum(x.props)::bigint AS props, sum(x.links)::bigint AS links,
           sum(x.links_broken)::bigint AS links_broken, max(x.ts) AS ts,
           (array_agg(x.updated_by ORDER BY x.ts DESC) FILTER (WHERE x.updated_by IS NOT NULL))[1] AS updated_by
    FROM kb.folder_delta x WHERE x.folder_id = n.id
  ) d ON n.kind = 0
  -- Every listing surface is built on this view, so filtering here is what makes "the extension
  -- enforces it, not the caller" true: `kb.ls`, `kb.file`, `kb.folder`, `textdb sql`'s `files`
  -- and `folders`, and the web app all inherit it. The subquery is an InitPlan for the owner,
  -- evaluated once, so a store that delegates nothing plans exactly as it did before.
  WHERE n.deleted_at IS NULL AND ((SELECT kb.current_account()) IS NULL OR kb.visible(n.path));

-- An aliased account's root: the list of its shares, not a node. `kb.entry` is built on
-- `kb.node` and so has no row for it, and `stat /` then answered "not found" on a path the
-- account uses constantly. The totals are its shares' added up, and `kind` is `root` — neither
-- file nor folder, because nothing can be written there.
CREATE VIEW kb.root_entry AS
  SELECT '/'::text AS path, '/'::text AS name, 'root'::text AS kind, NULL::bigint AS version,
         coalesce(sum(e.nbytes), 0)::bigint AS nbytes, coalesce(sum(e.nlines), 0)::bigint AS nlines,
         max(e.updated_at) AS updated_at, NULL::text AS updated_by, 0::bigint AS id,
         NULL::text AS dir, 0::bigint AS depth, NULL::text AS ext, NULL::text AS title,
         coalesce(sum(e.nwords), 0)::bigint AS nwords, coalesce(sum(e.nsections), 0)::bigint AS nsections,
         coalesce(sum(e.nprops), 0)::bigint AS nprops, coalesce(sum(e.nlinks), 0)::bigint AS nlinks,
         coalesce(sum(e.nlinks_broken), 0)::bigint AS nlinks_broken,
         coalesce(sum(e.versions), 0)::bigint AS versions, min(e.created_at) AS created_at,
         coalesce(sum(e.files), 0)::bigint AS files, coalesce(sum(e.folders) + count(*), 0)::bigint AS folders,
         0::bigint AS nauthors, '[]'::jsonb AS authors, NULL::text AS share, NULL::text AS rights
    FROM kb.entry e
   WHERE (SELECT kb.current_account()) IS NOT NULL
     AND NOT EXISTS (SELECT 1 FROM kb.my_grant WHERE alias = '')
     AND e.dir = '/'
  -- An aggregate with no GROUP BY returns one row of NULLs over an empty set, so without this
  -- the owner — for whom the WHERE matches nothing — still got a row here, and `stat /` came
  -- back with two.
  HAVING count(*) > 0;

CREATE VIEW kb.folder AS
  -- The full listing record, folders only. `n_children` and `nbytes_total` are gone: a folder
  -- row now carries `files`, `folders` and `nbytes` like every other listing surface, and the
  -- totals come off the node row rather than a subtree scan per row.
  SELECT * FROM kb.entry WHERE kind = 'folder' AND path <> '/';

-- The files and folders in the folder `path`, by name; with `recursive`, everything below it, by path.
-- The listing of a folder, in the *caller's* namespace.
--
-- `kb.entry` speaks view paths, so the folder has to be named in view paths too: comparing
-- `e.dir` against the node's own `path` worked only while the two were the same string, which
-- they stopped being the moment an account could see the store under an alias. `kb._node_id`
-- still does the existence check and the refusal, so a path outside the caller's shares is
-- refused there rather than quietly listing nothing.
CREATE FUNCTION kb.ls(path text, recursive boolean DEFAULT false) RETURNS SETOF kb.entry LANGUAGE sql STABLE AS $$
  SELECT e.* FROM (SELECT kb._node_id($1) AS id) d
  JOIN LATERAL (SELECT CASE WHEN (SELECT kb.current_account()) IS NULL THEN n.path
                            ELSE coalesce(kb.to_view(n.path), '/') END AS p
                  FROM kb.node n WHERE n.id = d.id) v ON true
  JOIN kb.entry e
    ON CASE WHEN recursive THEN e.path <> '/' AND (v.p = '/' OR e.path LIKE kb._subtree_like(v.p)) ELSE e.dir IS NOT DISTINCT FROM v.p END
  ORDER BY CASE WHEN recursive THEN e.path ELSE e.name END
$$;

-- Fold kb.folder_delta into the node rows; returns the rows folded. Safe while others write
-- (one statement: a reader sees the rows before or after, never half); run it from a
-- maintenance job when the table grows.
CREATE FUNCTION kb.compact_folder_totals() RETURNS bigint LANGUAGE sql VOLATILE AS $$
  WITH gone AS (DELETE FROM kb.folder_delta RETURNING *),
       s AS (SELECT folder_id, sum(files) AS files, sum(folders) AS folders, sum(bytes) AS bytes, sum(lines) AS lines,
                    sum(words) AS words, sum(versions) AS versions, sum(sections) AS sections, sum(props) AS props,
                    sum(links) AS links, sum(links_broken) AS links_broken, max(ts) AS ts, count(*) AS n,
                    (array_agg(updated_by ORDER BY ts DESC) FILTER (WHERE updated_by IS NOT NULL))[1] AS updated_by
             FROM gone GROUP BY folder_id),
       u AS (UPDATE kb.node f SET t_files = f.t_files + s.files, t_folders = f.t_folders + s.folders, t_bytes = f.t_bytes + s.bytes,
                                  t_lines = f.t_lines + s.lines, t_words = f.t_words + s.words, t_versions = f.t_versions + s.versions,
                                  t_sections = f.t_sections + s.sections, t_props = f.t_props + s.props,
                                  t_links = f.t_links + s.links, t_links_broken = f.t_links_broken + s.links_broken,
                                  t_updated_by = CASE WHEN s.ts >= coalesce(f.t_updated_at, s.ts)
                                                      THEN coalesce(s.updated_by, f.t_updated_by) ELSE f.t_updated_by END,
                                  t_updated_at = greatest(f.t_updated_at, s.ts)
             FROM s WHERE f.id = s.folder_id RETURNING s.n)
  SELECT coalesce(sum(n), 0)::bigint FROM u
$$;

-- Recompute every folder's totals from the files below it, discarding kb.folder_delta. A
-- repair for totals that drifted, which a move racing a commit inside the moved folder can do.
CREATE FUNCTION kb.rebuild_folder_totals() RETURNS void LANGUAGE plpgsql VOLATILE AS $$
BEGIN
  LOCK TABLE kb.folder_delta IN EXCLUSIVE MODE;
  DELETE FROM kb.folder_delta;
  UPDATE kb.node f SET t_files = coalesce(s.files, 0), t_folders = coalesce(s.folders, 0), t_bytes = coalesce(s.bytes, 0),
                       t_lines = coalesce(s.lines, 0), t_words = coalesce(s.words, 0), t_versions = coalesce(s.versions, 0),
                       t_sections = coalesce(s.sections, 0), t_props = coalesce(s.props, 0),
                       t_links = coalesce(s.links, 0), t_links_broken = coalesce(s.links_broken, 0),
                       t_updated_at = s.ts
  FROM kb.node f2 LEFT JOIN LATERAL (
    SELECT count(*) FILTER (WHERE n.kind = 1) AS files, count(*) FILTER (WHERE n.kind = 0) AS folders,
           sum(n.nbytes) FILTER (WHERE n.kind = 1) AS bytes, sum(n.nlines) FILTER (WHERE n.kind = 1) AS lines,
           sum(n.nwords) FILTER (WHERE n.kind = 1) AS words, sum(n.version) FILTER (WHERE n.kind = 1) AS versions,
           sum(n.nsections) FILTER (WHERE n.kind = 1) AS sections, sum(n.nprops) FILTER (WHERE n.kind = 1) AS props,
           sum(n.nlinks) FILTER (WHERE n.kind = 1) AS links, sum(n.nlinks_broken) FILTER (WHERE n.kind = 1) AS links_broken,
           max(n.updated_at) AS ts
    FROM kb.node n
    WHERE n.deleted_at IS NULL AND n.path <> '/' AND (f2.path = '/' OR n.path LIKE kb._subtree_like(f2.path))
  ) s ON true
  WHERE f.id = f2.id AND f2.kind = 0 AND f2.deleted_at IS NULL;
END $$;

-- Attributed namespace changes (recorded in the change feed with `author` and `message`).
CREATE FUNCTION kb.move(from_path text, to_path text, author text DEFAULT NULL, message text DEFAULT NULL) RETURNS void LANGUAGE sql VOLATILE AS $$ SELECT kb._move(from_path, to_path, author, message) $$;
CREATE FUNCTION kb.remove(path text, author text DEFAULT NULL, message text DEFAULT NULL) RETURNS void LANGUAGE sql VOLATILE AS $$ SELECT kb._remove(path, author, message) $$;
-- A move that returns the links that pointed at what moved and no longer reach it:
-- {"links": [{path, line, kind, target, now_at, version}]}. `links` is off, report or rewrite
-- (rewrite commits each linking file, version set), or NULL for the store's link_updates setting.
CREATE FUNCTION kb.move_links(from_path text, to_path text, author text DEFAULT NULL, message text DEFAULT NULL, links text DEFAULT NULL) RETURNS jsonb LANGUAGE sql VOLATILE AS $$ SELECT kb._check_j(kb._move_links_j(from_path, to_path, author, message, links)) $$;

CREATE FUNCTION kb.file_iud() RETURNS trigger LANGUAGE plpgsql AS $$
BEGIN
  IF TG_OP = 'INSERT' THEN
    -- Plain INSERT is an upsert: identical content produces no new version
    -- (ON CONFLICT is not available on views with INSTEAD OF triggers).
    PERFORM kb._upsert(NEW.path, coalesce(NEW.content, ''), NEW.updated_by, 'insert');
    RETURN NEW;
  ELSIF TG_OP = 'UPDATE' THEN
    IF NEW.path IS DISTINCT FROM OLD.path THEN
      PERFORM kb.move(OLD.path, NEW.path, NEW.updated_by);
    END IF;
    IF NEW.base_version IS NOT NULL OR NEW.content IS DISTINCT FROM OLD.content THEN
      PERFORM kb._update_content(NEW.path, coalesce(NEW.content, ''), NEW.base_version, NEW.updated_by, 'update');
    END IF;
    RETURN NEW;
  ELSE
    PERFORM kb.remove(OLD.path, NULL::text);
    RETURN OLD;
  END IF;
END $$;
CREATE TRIGGER file_iud INSTEAD OF INSERT OR UPDATE OR DELETE ON kb.file FOR EACH ROW EXECUTE FUNCTION kb.file_iud();

CREATE FUNCTION kb.folder_iud() RETURNS trigger LANGUAGE plpgsql AS $$
BEGIN
  IF TG_OP = 'INSERT' THEN
    PERFORM kb._mkdir(NEW.path);
    RETURN NEW;
  ELSIF TG_OP = 'UPDATE' THEN
    IF NEW.path IS DISTINCT FROM OLD.path THEN PERFORM kb.move(OLD.path, NEW.path, NULL::text); END IF;
    RETURN NEW;
  ELSE
    PERFORM kb.remove(OLD.path, NULL::text);
    RETURN OLD;
  END IF;
END $$;
CREATE TRIGGER folder_iud INSTEAD OF INSERT OR UPDATE OR DELETE ON kb.folder FOR EACH ROW EXECUTE FUNCTION kb.folder_iud();

-- Write entry points: the Rust functions return a JSON outcome; errors become SQLSTATEs here
-- (TX001 conflict with the JSON payload as DETAIL, TX002 contention, TX003 not found, TX004 invalid edit).
CREATE FUNCTION kb._check(r jsonb) RETURNS bigint LANGUAGE plpgsql AS $$
BEGIN
  IF r ? 'code' THEN
    RAISE EXCEPTION USING ERRCODE = r->>'code', MESSAGE = r->>'message', DETAIL = coalesce(r->>'detail', '');
  END IF;
  RETURN (r->>'version')::bigint;
END $$;
-- As kb._check, but returns the whole outcome `{"version": n, "kind": "direct|rebased|merged|noop"}`.
CREATE FUNCTION kb._check_j(r jsonb) RETURNS jsonb LANGUAGE plpgsql AS $$
BEGIN
  IF r ? 'code' THEN
    RAISE EXCEPTION USING ERRCODE = r->>'code', MESSAGE = r->>'message', DETAIL = coalesce(r->>'detail', '');
  END IF;
  RETURN r;
END $$;
CREATE FUNCTION kb.write(path text, content text, base_version bigint DEFAULT NULL, author text DEFAULT NULL, message text DEFAULT NULL) RETURNS jsonb LANGUAGE sql VOLATILE AS $$ SELECT kb._check_j(kb._write_j(path, content, base_version, author, message)) $$;
CREATE FUNCTION kb.replace_lines(path text, l_from bigint, l_to bigint, body text, base_version bigint DEFAULT NULL, author text DEFAULT NULL, message text DEFAULT NULL) RETURNS jsonb LANGUAGE sql VOLATILE AS $$ SELECT kb._check_j(kb._replace_lines_j(path, l_from, l_to, body, base_version, author, message)) $$;
-- Several line ranges [{"from": 3, "to": 4, "text": "…"}, …], all numbered as in base_version, in one commit.
CREATE FUNCTION kb.replace_ranges(path text, ranges jsonb, base_version bigint DEFAULT NULL, author text DEFAULT NULL, message text DEFAULT NULL) RETURNS jsonb LANGUAGE sql VOLATILE AS $$ SELECT kb._check_j(kb._replace_ranges_j(path, ranges, base_version, author, message)) $$;
CREATE FUNCTION kb._update_content(path text, content text, base_version bigint, author text, message text) RETURNS bigint LANGUAGE sql VOLATILE AS $$ SELECT kb._check(kb._update_content_j(path, content, base_version, author, message)) $$;
CREATE FUNCTION kb.edit(path text, old text, new text, author text, message text DEFAULT NULL) RETURNS bigint LANGUAGE sql VOLATILE AS $$ SELECT kb._check(kb._edit_j(path, old, new, author, message)) $$;
CREATE FUNCTION kb.append(path text, tail text, author text, message text DEFAULT NULL) RETURNS bigint LANGUAGE sql VOLATILE AS $$ SELECT kb._check(kb._append_j(path, tail, author, message)) $$;
-- Every occurrence of `old` becomes `new`, as one version. With expected_count the file must hold
-- exactly that many occurrences, else at least one; otherwise TX004 and nothing changes.
CREATE FUNCTION kb.replace(path text, old text, new text, expected_count bigint DEFAULT NULL, author text DEFAULT NULL, message text DEFAULT NULL) RETURNS bigint LANGUAGE sql VOLATILE AS $$ SELECT kb._check(kb._replace_many_j(path, jsonb_build_array(jsonb_build_array(old, new, expected_count)), author, message)) $$;
-- Replacements applied in order, one version: [[old, new], [old, new, expected_count], {"old", "new", "count"}, …].
CREATE FUNCTION kb.replace_many(path text, replacements jsonb, author text DEFAULT NULL, message text DEFAULT NULL) RETURNS bigint LANGUAGE sql VOLATILE AS $$ SELECT kb._check(kb._replace_many_j(path, replacements, author, message)) $$;

-- Batches: commits, moves and deletes made while the session setting textdb.batch names a batch
-- (SELECT set_config('textdb.batch', 'id', true) for the rest of a transaction) are recorded
-- under it, so they can be listed and reverted together.
CREATE FUNCTION kb.batch() RETURNS text LANGUAGE sql STABLE AS $$ SELECT nullif(current_setting('textdb.batch', true), '') $$;
-- What changed after change number `seq`, or under `batch`: [{op, path, old_path, from_version, to_version, diff}],
-- a file's commits folded into one item with a unified diff.
CREATE FUNCTION kb.changes_after(seq bigint) RETURNS jsonb LANGUAGE sql STABLE AS $$ SELECT kb._check_j(kb._changes_j(seq, NULL)) $$;
CREATE FUNCTION kb.batch_changes(batch text) RETURNS jsonb LANGUAGE sql STABLE AS $$ SELECT kb._check_j(kb._changes_j(NULL, batch)) $$;
-- Undo a batch: {restored: [{path, version}], removed, moved_back: [{from, to}], recreated, skipped}. Anything
-- changed since is skipped; unless skip_changed, that fails the whole revert (TX004).
CREATE FUNCTION kb.revert_batch(batch text, author text DEFAULT NULL, skip_changed boolean DEFAULT false) RETURNS jsonb LANGUAGE sql VOLATILE AS $$ SELECT kb._check_j(kb._revert_batch_j(batch, author, skip_changed)) $$;

-- Attribute notation: f.content is the view column; the rest are wrappers.
CREATE FUNCTION kb.lines(f kb.file, l_from bigint, l_to bigint) RETURNS text LANGUAGE sql STABLE AS $$ SELECT kb.lines(f.path, l_from, l_to) $$;
CREATE FUNCTION kb.section(f kb.file, heading text) RETURNS text LANGUAGE sql STABLE AS $$ SELECT kb.section(f.path, heading) $$;
CREATE FUNCTION kb.edit(f kb.file, old text, new text) RETURNS bigint LANGUAGE sql VOLATILE AS $$ SELECT kb.edit(f.path, old, new, NULL::text) $$;
CREATE FUNCTION kb.edit(path text, old text, new text) RETURNS bigint LANGUAGE sql VOLATILE AS $$ SELECT kb.edit(path, old, new, NULL::text) $$;
CREATE FUNCTION kb.append(f kb.file, tail text) RETURNS bigint LANGUAGE sql VOLATILE AS $$ SELECT kb.append(f.path, tail, NULL::text) $$;
CREATE FUNCTION kb.append(path text, tail text) RETURNS bigint LANGUAGE sql VOLATILE AS $$ SELECT kb.append(path, tail, NULL::text) $$;
CREATE FUNCTION kb.diff(f kb.file, v1 bigint, v2 bigint) RETURNS text LANGUAGE sql STABLE AS $$ SELECT kb.diff(f.path, v1, v2) $$;
CREATE FUNCTION kb.content(f kb.file) RETURNS text LANGUAGE sql STABLE AS $$ SELECT f.content $$;
CREATE FUNCTION kb.content(path text) RETURNS text LANGUAGE sql STABLE AS $$ SELECT kb.content(path, NULL::bigint) $$;
