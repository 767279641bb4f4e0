pub mod bulk;
pub mod bytes;
pub mod declfile;
pub mod generate;
pub mod load;
pub mod model;
pub mod pattern;
pub mod resolve;
pub mod run;
pub mod teamfile;
pub mod validate;
