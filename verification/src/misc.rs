pub mod lfsr;
