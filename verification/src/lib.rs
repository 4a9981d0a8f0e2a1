pub mod bindings;
pub mod text;
pub mod book;
pub mod toc;
pub mod progress;
pub mod app;
pub mod view;
