//! Verified recognition and editing logic for a note-taking application.
pub mod alerts;
pub mod anchors;
pub mod appearance_laws;
pub mod block_laws;
pub mod blocks;
pub mod board;
pub mod board_laws;
pub mod cache;
pub mod caret;
pub mod change_laws;
pub mod cheap;
pub mod clicks;
pub mod content_laws;
pub mod control_laws;
pub mod controls;
pub mod cost_laws;
pub mod counting;
pub mod diagrams;
pub mod direction;
pub mod doc;
pub mod drags;
pub mod editing;
pub mod field_laws;
pub mod file_laws;
pub mod find;
pub mod find_laws;
pub mod form_edits;
pub mod form_laws;
pub mod format_laws;
pub mod forms;
pub mod images;
pub mod inline;
pub mod inline_laws;
pub mod key_laws;
pub mod keys;
pub mod layers;
pub mod layout_laws;
pub mod links;
pub mod listing_laws;
pub mod lists;
pub mod math;
pub mod math_laws;
pub mod mindmap;
pub mod mindmap_laws;
pub mod name_laws;
pub mod normal_laws;
pub mod number_laws;
pub mod numbering;
pub mod ops;
pub mod order_laws;
pub mod overlay;
pub mod page;
pub mod page_laws;
pub mod painting;
pub mod parse;
pub mod pdf;
pub mod pdf_text;
pub mod pointer_laws;
pub mod press;
pub mod properties;
pub mod render;
pub mod row_laws;
pub mod rows;
pub mod scene;
pub mod search;
pub mod seed_laws;
pub mod segments;
pub mod shown;
pub mod snippets;
pub mod source_laws;
pub mod state_laws;
pub mod styles;
pub mod tables;
pub mod tasks;
pub mod text;
pub mod text_key_laws;
pub mod theme;
pub mod tools;
pub mod tree;
pub mod view_laws;
pub mod walk_laws;
pub mod zorder;
