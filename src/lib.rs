pub mod window;
pub mod normalize;
pub mod ingest;
pub mod recog;
