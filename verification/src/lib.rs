//! Model railway control library: static track layout, sensor graph, route planning,
//! runtime train state and the automatic train controller.

pub mod ids;
pub mod model;
pub mod pi_client;
pub mod graph;
pub mod graph_laws;
pub mod text;
pub mod state;
pub mod route_planner;
pub mod validate;
pub mod train_controller;
pub mod commands;
pub mod evolution;
pub mod service;
pub mod console;
