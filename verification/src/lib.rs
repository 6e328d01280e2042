pub mod browse;
pub mod digest;
pub mod duplicates;
pub mod icon;
pub mod model;
pub mod order;
pub mod scan;
pub mod text;
pub mod treemap;
