pub mod btreemap;
