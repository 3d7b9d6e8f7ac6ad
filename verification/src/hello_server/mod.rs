//! The logic of a parallel web server with a cache: the cache, the server statistics and the job
//! accounting of the thread pool.

pub mod cache;
pub mod statistics;
pub mod thread_pool;

pub use cache::Cache;
pub use statistics::{Report, Statistics};
pub use thread_pool::ThreadPoolInner;
