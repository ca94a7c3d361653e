pub mod impls;
