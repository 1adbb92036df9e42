pub mod days;
