//! Search over Slack's web app: the query model and its rendering to Slack
//! search strings (inclusive dates to Slack's exclusive bounds), the in-page
//! search script, the reading of the search endpoint's answers, and the
//! merging of per-scope results (deduplicated by permalink, sorted by
//! timestamp).

pub mod date;
pub mod map;
pub mod query;
pub mod search;
pub mod text;

pub use date::Date;
pub use map::{fill_places, MapError};
pub use query::{Scope, SearchQuery};
pub use search::{
    interpret_response, iso8601, merge_results, search_script, ApiResponse, QueryAnswer, RawRow,
    SearchError, SearchResult,
};
