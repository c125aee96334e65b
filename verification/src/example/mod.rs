pub mod integer;
