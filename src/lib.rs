pub mod cat;
pub mod echo;
pub mod head;
pub mod text;
pub mod uniq;
pub mod wc;
