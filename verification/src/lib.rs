pub mod feature;
pub mod entropy;
pub mod decisiontree;
