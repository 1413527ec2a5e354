//! Decision logic of a hex-grid tactical battle: the tactic cards, the turn
//! planner, the deployment planner and the fire-phase resolver.
//!
//! What holds of all of it is stated and proved beside it: of maps and choices in
//! [`geometry`], of attack orders in [`firing`], of their settlement and of turn ends in
//! [`aftermath`], of retreats in [`flight`], of roles in [`posture`], of duties in
//! [`service`], of marches in [`bearing`], of assaults and fire missions in
//! [`assailing`], of flags and whole plans in [`relief`], [`doctrine`] and [`inquiry`],
//! and of deployments in [`ranks`], [`posts`] and [`muster`].

pub mod action;
pub mod aftermath;
pub mod ai;
pub mod assailing;
pub mod assault;
pub mod barrage;
pub mod bearing;
pub mod combat;
pub mod deploy;
pub mod doctrine;
pub mod duty;
pub mod fire;
pub mod firing;
pub mod flight;
pub mod formation;
pub mod geometry;
pub mod goal;
pub mod grid;
pub mod hex;
pub mod inquiry;
pub mod march;
pub mod muster;
pub mod pick;
pub mod planner;
pub mod posts;
pub mod posture;
pub mod ranks;
pub mod relief;
pub mod retreat;
pub mod role;
pub mod service;
pub mod settle;
pub mod tactic;
pub mod turn;
pub mod unit;
