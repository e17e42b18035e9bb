//! Session registry, event dispatch and board engine for a multiplayer
//! column-drop game in which each player sees only their own tokens.
//!
//! `game` holds the board engine and `board_laws` its properties; `session`
//! and `registry` hold clients, sessions and games under one invariant;
//! `dispatch` turns client commands into registry changes and outbound frames
//! (`protocol`); `rand_ids` draws session codes and turn orders.

pub mod assoc;
pub mod board_laws;
pub mod dispatch;
pub mod game;
pub mod protocol;
pub mod rand_ids;
pub mod registry;
pub mod session;
