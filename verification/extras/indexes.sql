-- The indexes of the tables.

CREATE INDEX IF NOT EXISTS idx_artists_missing ON artists(missing);
CREATE INDEX IF NOT EXISTS idx_items_artist ON items(artist_id);
CREATE INDEX IF NOT EXISTS idx_items_role ON items(artist_id, manual_role);
CREATE INDEX IF NOT EXISTS idx_items_auto_role ON items(artist_id, auto_role);
CREATE INDEX IF NOT EXISTS idx_items_date ON items(artist_id, date);
CREATE INDEX IF NOT EXISTS idx_items_archive ON items(artist_id, is_archive);
CREATE INDEX IF NOT EXISTS idx_items_path ON items(file_path);
CREATE INDEX IF NOT EXISTS idx_items_missing ON items(artist_id, missing);
CREATE INDEX IF NOT EXISTS idx_items_hash_missing
    ON items(artist_id, content_hash, missing);
CREATE INDEX IF NOT EXISTS idx_items_inode_missing
    ON items(artist_id, st_dev, st_ino, missing);
CREATE INDEX IF NOT EXISTS idx_items_media
    ON items(artist_id, media_type, missing);
CREATE INDEX IF NOT EXISTS idx_items_hash_queue
    ON items(missing, hash_status, id);
CREATE INDEX IF NOT EXISTS idx_tags_artist ON tags(artist_id);
CREATE INDEX IF NOT EXISTS idx_item_tags_item ON item_tags(item_id);
CREATE INDEX IF NOT EXISTS idx_item_tags_tag ON item_tags(tag_id);
CREATE INDEX IF NOT EXISTS idx_character_references_character
    ON character_references(character_id);
CREATE INDEX IF NOT EXISTS idx_character_references_item
    ON character_references(item_id);
CREATE INDEX IF NOT EXISTS idx_character_references_source
    ON character_references(source_type);
CREATE INDEX IF NOT EXISTS idx_character_references_model
    ON character_references(
        embedding_model_repo_id,
        embedding_model_variant,
        embedding_model_file,
        embedding_dim
    );
CREATE INDEX IF NOT EXISTS idx_scan_seen_scan_artist
    ON scan_seen(scan_id, artist_id);
CREATE INDEX IF NOT EXISTS idx_scan_seen_hash
    ON scan_seen(scan_id, artist_id, content_hash);
CREATE INDEX IF NOT EXISTS idx_scan_seen_path
    ON scan_seen(scan_id, file_path);
CREATE INDEX IF NOT EXISTS idx_scan_candidates_status
    ON scan_candidates(status, artist_id);
CREATE INDEX IF NOT EXISTS idx_scan_candidates_scan_status
    ON scan_candidates(scan_id, status);
CREATE INDEX IF NOT EXISTS idx_scan_candidates_path
    ON scan_candidates(file_path);
CREATE INDEX IF NOT EXISTS idx_scan_candidates_hash
    ON scan_candidates(artist_id, content_hash, status);
CREATE INDEX IF NOT EXISTS idx_scan_candidates_hash_queue
    ON scan_candidates(status, hash_status, id);
CREATE INDEX IF NOT EXISTS idx_move_candidates_status
    ON move_candidates(status, artist_id);
CREATE INDEX IF NOT EXISTS idx_move_candidates_scan_candidate_status
    ON move_candidates(scan_candidate_id, status);
CREATE INDEX IF NOT EXISTS idx_items_missing_at
    ON items(missing, missing_at) WHERE missing_at IS NOT NULL;
CREATE INDEX IF NOT EXISTS idx_move_candidates_item_status
    ON move_candidates(item_id, status);
CREATE INDEX IF NOT EXISTS idx_move_candidates_new_path
    ON move_candidates(new_path);
CREATE INDEX IF NOT EXISTS idx_move_history_item ON move_history(item_id);
CREATE INDEX IF NOT EXISTS idx_move_history_status ON move_history(status);
CREATE INDEX IF NOT EXISTS idx_folder_rename_artist_status
    ON folder_rename_plans(artist_id, status);
