pub mod sorted_vec;
