pub mod cell;
pub mod context;
pub mod inline_lists;
pub mod op_store;
pub mod operator;
pub mod registry;
pub mod snowflake;
pub mod slice;
pub mod interaction_store;
pub mod island_laws;
pub mod passing_laws;
pub mod store_laws;
