pub mod internal_lexer;
pub mod internal_parser;
pub mod data_gleaning;
pub mod ll1_table_create;
