pub mod simulated_annealing;
