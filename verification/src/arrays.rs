pub mod reverse_array;
