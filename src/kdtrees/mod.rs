pub mod kdtree;
