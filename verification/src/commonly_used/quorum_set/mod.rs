pub mod majority;
