//! Draft recommender: champion tables, ranking, boards, patch statistics and reports.

pub mod bits;
pub mod board;
pub mod cache;
pub mod cache_laws;
pub mod champs;
pub mod clock;
pub mod export;
pub mod game_laws;
pub mod kit_laws;
pub mod labels;
pub mod lanes;
pub mod launcher;
pub mod numeral;
pub mod page_laws;
pub mod panel;
pub mod patch;
pub mod patch_laws;
pub mod rank;
pub mod recommend;
pub mod report;
pub mod row_laws;
pub mod saves;
pub mod scan;
pub mod score;
pub mod settings;
pub mod state;
pub mod state_laws;
pub mod table_laws;
pub mod tables;
pub mod tags;
pub mod tally;
pub mod tally_laws;
pub mod taxonomy;
pub mod text;
pub mod textmap;
pub mod textset;
pub mod view_laws;
pub mod weight_laws;
pub mod weights;
