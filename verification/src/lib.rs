//! Exact finite-horizon planning for partially observable Markov decision
//! processes, by value iteration over conditional plans and their alpha
//! vectors.
//!
//! # Numbers
//!
//! Every real quantity (reward, probability, discount, value, belief weight)
//! is a fixed-point integer that counts units of `1 / SCALE`; see [`fixed`].
//! Sums of products are exact, and a discounted sum is rounded toward zero
//! once. States, actions and observations are known by their position in the
//! model; see [`model`].
//!
//! # The parts
//!
//! * [`plan`]: conditional plans, their relabeling and their equality;
//!   [`traverse`] walks over their nodes.
//! * [`backup`]: the value of one more step; [`evaluate`]: the alpha vector
//!   of a plan.
//! * [`dominance`]: the test whether a belief exists at which one alpha
//!   vector is worth more than all of a set; [`prune`] sweeps over a set of
//!   candidates with that test and keeps what it lets through.
//! * [`expand`]: all plans of the next depth.
//! * [`solver`]: value iteration, which expands and prunes by turns.
//! * [`laws`]: what holds of every sweep.
//! * [`beliefs`]: how an action and an observation change a belief.
//! * [`mdp`] and [`hex_world`]: fully observable processes, policy
//!   evaluation and policy iteration, and the moves of the hex world.
//!
//! # The solver of linear programs
//!
//! The dominance test is a linear program. This library does not solve it:
//! the caller hands in a function that proposes a belief, and the library
//! checks what comes back before it goes by it. What is stated of a sweep or
//! of value iteration therefore holds with every solver; what is left to the
//! solver is whether a witness is found that exists.
pub mod backup;
pub mod beliefs;
pub mod dominance;
pub mod evaluate;
pub mod expand;
pub mod fixed;
pub mod hex_world;
pub mod laws;
pub mod mdp;
pub mod model;
pub mod plan;
pub mod plan_eq;
pub mod prune;
pub mod solver;
pub mod traverse;
