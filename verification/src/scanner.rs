pub mod nfa;
pub mod dfa;
pub mod dot;
pub mod generator;
pub mod pipeline;
pub mod run;
pub mod soundness;
pub mod describe;
pub mod language;
