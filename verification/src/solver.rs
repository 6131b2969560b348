pub mod anneling;
pub mod clustering;
pub mod naive;
pub mod naive_fast;
pub mod rand_greedy;
