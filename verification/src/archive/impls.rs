pub mod reverse;
