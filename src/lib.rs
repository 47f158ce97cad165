pub mod chunker;
pub mod clauses;
pub mod debug;
pub mod phonemizer;
pub mod pool;
pub mod scheduler;
pub mod speech;
pub mod text;
pub mod token_chunker;
pub mod vocab;
pub mod wav;
