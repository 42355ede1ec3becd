pub mod evaluated_step;
pub mod laws;
pub mod machine;
pub mod pattern;
pub mod regex;
pub mod regex_rep;
pub mod regex_step;
pub mod regex_val;
pub mod text;
pub mod value_laws;
