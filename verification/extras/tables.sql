-- The tables of the library.

CREATE TABLE IF NOT EXISTS artists (
    id INTEGER PRIMARY KEY AUTOINCREMENT,
    name TEXT NOT NULL,
    path TEXT UNIQUE NOT NULL,
    missing INTEGER NOT NULL DEFAULT 0,
    missing_at REAL,
    created_at INTEGER NOT NULL DEFAULT (strftime('%s','now'))
);
CREATE TABLE IF NOT EXISTS items (
    id INTEGER PRIMARY KEY AUTOINCREMENT,
    artist_id INTEGER NOT NULL REFERENCES artists(id) ON DELETE CASCADE,
    file_path TEXT UNIQUE NOT NULL,
    file_name TEXT NOT NULL,
    file_size INTEGER NOT NULL DEFAULT 0,
    file_mtime REAL NOT NULL DEFAULT 0,
    folder_name TEXT NOT NULL DEFAULT '',
    date TEXT NOT NULL DEFAULT '',
    detected_date TEXT NOT NULL DEFAULT '',
    manual_date TEXT DEFAULT NULL,
    auto_role TEXT NOT NULL DEFAULT '',
    manual_role TEXT DEFAULT NULL,
    tags TEXT NOT NULL DEFAULT '[]',
    is_archive INTEGER NOT NULL DEFAULT 0,
    media_type TEXT NOT NULL DEFAULT 'image',
    content_hash TEXT NOT NULL DEFAULT '',
    hash_status TEXT NOT NULL DEFAULT 'pending',
    hash_updated_at REAL,
    st_dev INTEGER,
    st_ino INTEGER,
    missing INTEGER NOT NULL DEFAULT 0,
    missing_at REAL,
    scanned_at INTEGER NOT NULL DEFAULT (strftime('%s','now')),
    width INTEGER NOT NULL DEFAULT 0,
    height INTEGER NOT NULL DEFAULT 0
);
CREATE TABLE IF NOT EXISTS tags (
    id INTEGER PRIMARY KEY AUTOINCREMENT,
    artist_id INTEGER NOT NULL REFERENCES artists(id) ON DELETE CASCADE,
    name TEXT NOT NULL,
    sort_order INTEGER NOT NULL DEFAULT 0,
    UNIQUE(artist_id, name)
);
CREATE TABLE IF NOT EXISTS item_tags (
    item_id INTEGER NOT NULL REFERENCES items(id) ON DELETE CASCADE,
    tag_id INTEGER NOT NULL REFERENCES tags(id) ON DELETE CASCADE,
    PRIMARY KEY(item_id, tag_id)
);
CREATE TABLE IF NOT EXISTS item_favorites (
    item_id INTEGER PRIMARY KEY REFERENCES items(id) ON DELETE CASCADE,
    created_at REAL NOT NULL DEFAULT (strftime('%s','now'))
);
CREATE TABLE IF NOT EXISTS recycle_entries (
    id INTEGER PRIMARY KEY AUTOINCREMENT,
    original_item_id INTEGER NOT NULL,
    artist_id INTEGER NOT NULL,
    original_path TEXT NOT NULL,
    recycled_path TEXT NOT NULL,
    item_snapshot TEXT NOT NULL,
    tag_ids_snapshot TEXT NOT NULL DEFAULT '[]',
    tag_single_refs_snapshot TEXT NOT NULL DEFAULT '[]',
    non_tag_single_ref_ids TEXT NOT NULL DEFAULT '[]',
    status TEXT NOT NULL DEFAULT 'recycled',
    created_at REAL NOT NULL DEFAULT (strftime('%s','now')),
    restored_at REAL,
    restore_path TEXT NOT NULL DEFAULT '',
    last_error TEXT NOT NULL DEFAULT ''
);
CREATE INDEX IF NOT EXISTS idx_recycle_entries_status_created
    ON recycle_entries(status, created_at DESC, id DESC);
CREATE TABLE IF NOT EXISTS app_settings (
    key TEXT PRIMARY KEY,
    value TEXT NOT NULL,
    updated_at REAL NOT NULL DEFAULT (strftime('%s','now'))
);
CREATE TABLE IF NOT EXISTS folder_rename_plans (
    id INTEGER PRIMARY KEY AUTOINCREMENT,
    artist_id INTEGER NOT NULL REFERENCES artists(id) ON DELETE CASCADE,
    source_folder TEXT NOT NULL,
    original_folder_name TEXT NOT NULL DEFAULT '',
    original_title TEXT NOT NULL DEFAULT '',
    parsed_date TEXT NOT NULL DEFAULT '',
    selected_tag_ids TEXT NOT NULL DEFAULT '[]',
    status TEXT NOT NULL DEFAULT 'needs_tags',
    file_count INTEGER NOT NULL DEFAULT 0,
    total_size INTEGER NOT NULL DEFAULT 0,
    max_mtime REAL NOT NULL DEFAULT 0,
    created_at REAL NOT NULL DEFAULT (strftime('%s','now')),
    updated_at REAL NOT NULL DEFAULT (strftime('%s','now')),
    confirmed_at REAL,
    confirmation_source TEXT NOT NULL DEFAULT '',
    target_folder TEXT NOT NULL DEFAULT '',
    executed_at REAL,
    execution_log TEXT NOT NULL DEFAULT '[]',
    format_snapshot TEXT NOT NULL DEFAULT '{}',
    plan_kind TEXT NOT NULL DEFAULT 'rename_folder',
    split_actions TEXT NOT NULL DEFAULT '[]',
    UNIQUE(artist_id, source_folder)
);
CREATE TABLE IF NOT EXISTS characters (
    id INTEGER PRIMARY KEY AUTOINCREMENT,
    name TEXT NOT NULL UNIQUE,
    created_at REAL NOT NULL DEFAULT (strftime('%s','now'))
);
CREATE TABLE IF NOT EXISTS character_references (
    id INTEGER PRIMARY KEY AUTOINCREMENT,
    character_id INTEGER NOT NULL REFERENCES characters(id) ON DELETE CASCADE,
    embedding BLOB NOT NULL,
    embedding_dim INTEGER NOT NULL,
    embedding_model_repo_id TEXT NOT NULL DEFAULT '',
    embedding_model_variant TEXT NOT NULL DEFAULT '',
    embedding_model_file TEXT NOT NULL DEFAULT '',
    embedding_updated_at REAL,
    source_type TEXT NOT NULL DEFAULT 'gallery_item',
    item_id INTEGER REFERENCES items(id) ON DELETE SET NULL,
    created_at REAL NOT NULL DEFAULT (strftime('%s','now'))
);
CREATE TABLE IF NOT EXISTS scan_seen (
    id INTEGER PRIMARY KEY AUTOINCREMENT,
    scan_id TEXT NOT NULL,
    artist_id INTEGER NOT NULL REFERENCES artists(id) ON DELETE CASCADE,
    file_path TEXT NOT NULL,
    media_type TEXT NOT NULL DEFAULT 'image',
    file_size INTEGER NOT NULL DEFAULT 0,
    file_mtime REAL NOT NULL DEFAULT 0,
    st_dev INTEGER,
    st_ino INTEGER,
    content_hash TEXT NOT NULL DEFAULT '',
    hash_status TEXT NOT NULL DEFAULT 'pending',
    created_at REAL NOT NULL DEFAULT (strftime('%s','now'))
);
CREATE INDEX IF NOT EXISTS idx_scan_seen_scan_artist
    ON scan_seen(scan_id, artist_id);
CREATE INDEX IF NOT EXISTS idx_scan_seen_path
    ON scan_seen(scan_id, file_path);
CREATE TABLE IF NOT EXISTS scan_candidates (
    id INTEGER PRIMARY KEY AUTOINCREMENT,
    scan_id TEXT NOT NULL,
    artist_id INTEGER NOT NULL REFERENCES artists(id) ON DELETE CASCADE,
    file_path TEXT NOT NULL,
    file_name TEXT NOT NULL,
    file_size INTEGER NOT NULL DEFAULT 0,
    file_mtime REAL NOT NULL DEFAULT 0,
    folder_name TEXT NOT NULL DEFAULT '',
    date TEXT NOT NULL DEFAULT '',
    is_archive INTEGER NOT NULL DEFAULT 0,
    media_type TEXT NOT NULL DEFAULT 'image',
    content_hash TEXT NOT NULL DEFAULT '',
    hash_status TEXT NOT NULL DEFAULT 'pending',
    st_dev INTEGER,
    st_ino INTEGER,
    status TEXT NOT NULL DEFAULT 'pending',
    created_at REAL NOT NULL DEFAULT (strftime('%s','now')),
    resolved_at REAL
);
CREATE TABLE IF NOT EXISTS move_candidates (
    id INTEGER PRIMARY KEY AUTOINCREMENT,
    scan_candidate_id INTEGER REFERENCES scan_candidates(id) ON DELETE SET NULL,
    item_id INTEGER REFERENCES items(id) ON DELETE CASCADE,
    artist_id INTEGER NOT NULL REFERENCES artists(id) ON DELETE CASCADE,
    old_path TEXT NOT NULL,
    new_path TEXT NOT NULL,
    reason TEXT NOT NULL,
    content_hash TEXT NOT NULL DEFAULT '',
    st_dev INTEGER,
    st_ino INTEGER,
    status TEXT NOT NULL DEFAULT 'pending',
    created_at REAL NOT NULL DEFAULT (strftime('%s','now')),
    resolved_at REAL
);
CREATE TABLE IF NOT EXISTS move_history (
    id INTEGER PRIMARY KEY AUTOINCREMENT,
    item_id INTEGER NOT NULL REFERENCES items(id) ON DELETE CASCADE,
    artist_id INTEGER NOT NULL REFERENCES artists(id) ON DELETE CASCADE,
    old_path TEXT NOT NULL,
    new_path TEXT NOT NULL,
    reason TEXT NOT NULL,
    status TEXT NOT NULL,
    details TEXT NOT NULL DEFAULT '{}',
    created_at REAL NOT NULL DEFAULT (strftime('%s','now')),
    applied_at REAL,
    reverted_at REAL
);
