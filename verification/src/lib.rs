//! A networked trading-card-game board core: an entity arena with typed
//! relationship components, per-board denormalized lookup indices kept
//! consistent with the components through an explicit attach/detach
//! protocol, a turn/stage state machine, a resolution tree for triggered
//! effects, and the request handlers that gate client actions.

pub mod action;
pub mod agent;
pub mod app_state;
pub mod assoc;
pub mod board;
pub mod card;
pub mod components;
pub mod deck;
pub mod effect;
pub mod entity;
pub mod handler;
pub mod lookup;
pub mod packet;
pub mod query;
pub mod stage;
pub mod state;
pub mod store;
pub mod tree;
