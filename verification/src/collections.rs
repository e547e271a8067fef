pub mod big_co;
pub mod math;
pub mod pig_latin;
pub mod text;
